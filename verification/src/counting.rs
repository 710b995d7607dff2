//! Counting the elements of a sequence that satisfy a predicate, and the
//! lemmas that track such counts across single-element updates. The board
//! keeps its number of remaining safe cells equal to such a count.

use vstd::prelude::*;

verus! {

/// How many elements of `s` satisfy `p`.
pub open spec fn count_matching<A>(s: Seq<A>, p: spec_fn(A) -> bool) -> int
    decreases s.len(),
{
    if s.len() == 0 {
        0
    } else {
        count_matching(s.drop_last(), p) + if p(s.last()) {
            1int
        } else {
            0int
        }
    }
}

/// A count is never negative and never exceeds the length.
pub proof fn lemma_count_bounds<A>(s: Seq<A>, p: spec_fn(A) -> bool)
    ensures
        0 <= count_matching(s, p) <= s.len(),
    decreases s.len(),
{
    if s.len() > 0 {
        lemma_count_bounds(s.drop_last(), p);
    }
}

/// Appending one element adds one to the count exactly when it satisfies `p`.
pub proof fn lemma_count_push<A>(s: Seq<A>, p: spec_fn(A) -> bool, v: A)
    ensures
        count_matching(s.push(v), p) == count_matching(s, p) + if p(v) {
            1int
        } else {
            0int
        },
{
    assert(s.push(v).drop_last() =~= s);
}

/// Replacing the element at `i` changes the count by the difference the two
/// elements make under `p`.
pub proof fn lemma_count_update<A>(s: Seq<A>, p: spec_fn(A) -> bool, i: int, v: A)
    requires
        0 <= i < s.len(),
    ensures
        count_matching(s.update(i, v), p) == count_matching(s, p) + (if p(v) {
            1int
        } else {
            0int
        }) - (if p(s[i]) {
            1int
        } else {
            0int
        }),
    decreases s.len(),
{
    let su = s.update(i, v);
    if i == s.len() - 1 {
        assert(su.drop_last() =~= s.drop_last());
        assert(su.last() == v);
    } else {
        assert(su.drop_last() =~= s.drop_last().update(i, v));
        assert(su.last() == s.last());
        lemma_count_update(s.drop_last(), p, i, v);
    }
}

/// The count is zero exactly when no element satisfies `p`.
pub proof fn lemma_count_zero_iff<A>(s: Seq<A>, p: spec_fn(A) -> bool)
    ensures
        count_matching(s, p) == 0 <==> (forall|i: int| 0 <= i < s.len() ==> !p(s[i])),
    decreases s.len(),
{
    lemma_count_bounds(s, p);
    if s.len() > 0 {
        lemma_count_zero_iff(s.drop_last(), p);
        lemma_count_bounds(s.drop_last(), p);
        if count_matching(s, p) == 0 {
            assert(forall|i: int| 0 <= i < s.len() - 1 ==> s.drop_last()[i] == s[i]);
        } else {
            if p(s.last()) {
            } else {
                let i = choose|i: int| 0 <= i < s.len() - 1 && p(s.drop_last()[i]);
                assert(p(s[i]));
            }
        }
    }
}

/// An element that satisfies `p` makes the count positive.
pub proof fn lemma_count_positive<A>(s: Seq<A>, p: spec_fn(A) -> bool, i: int)
    requires
        0 <= i < s.len(),
        p(s[i]),
    ensures
        count_matching(s, p) >= 1,
{
    lemma_count_bounds(s, p);
    lemma_count_zero_iff(s, p);
}

/// When every element satisfies `p`, the count is the whole length.
pub proof fn lemma_count_all<A>(s: Seq<A>, p: spec_fn(A) -> bool)
    requires
        forall|i: int| 0 <= i < s.len() ==> p(s[i]),
    ensures
        count_matching(s, p) == s.len(),
    decreases s.len(),
{
    if s.len() > 0 {
        assert(forall|i: int| 0 <= i < s.len() - 1 ==> s.drop_last()[i] == s[i]);
        lemma_count_all(s.drop_last(), p);
    }
}

/// Two sequences that agree pointwise under `p` have the same count.
pub proof fn lemma_count_agree<A>(s1: Seq<A>, s2: Seq<A>, p: spec_fn(A) -> bool)
    requires
        s1.len() == s2.len(),
        forall|i: int| 0 <= i < s1.len() ==> p(s1[i]) == p(s2[i]),
    ensures
        count_matching(s1, p) == count_matching(s2, p),
    decreases s1.len(),
{
    if s1.len() > 0 {
        assert(forall|i: int| 0 <= i < s1.len() - 1 ==> s1.drop_last()[i] == s1[i]
            && s2.drop_last()[i] == s2[i]);
        lemma_count_agree(s1.drop_last(), s2.drop_last(), p);
    }
}

} // verus!
