//! Parsing the player's plays. A play line holds a mode letter and the
//! coordinates of the target cell, for example `m 3 3`; the first play of a
//! game omits the mode and is always a dig. The surrounding input layer reads
//! the line from the terminal and hands its bytes here; everything after that
//! is parsed, and rejected, by verified code.

use vstd::prelude::*;

use crate::board::Coordinate;

verus! {

/// Possible plays.
#[derive(PartialEq, Eq, Structural, Clone, Copy, Debug)]
pub enum PlayMode {
    /// Dig an undug cell: a mine loses the game, the last safe cell wins it.
    Dig,
    /// Mark a cell as a suspected mine.
    Mark,
    /// Take the mark off a cell.
    Unmark,
}

/// Built after parsing a play line.
pub struct Play {
    /// Action to apply on the target cell.
    mode: PlayMode,
    /// Coordinates of the cell to act on; taken out by `cell`.
    cell: Option<Coordinate>,
}

/// The one error the parser reports: the line is not a play.
#[derive(Debug)]
pub struct InvalidPlay;

/// The bytes `str::split_whitespace` splits on within ASCII: space and the
/// five control characters from tab to carriage return.
pub open spec fn is_ws(b: u8) -> bool {
    b == 32 || (9 <= b <= 13)
}

/// An ASCII letter taken to lower case; every other byte kept as it is.
pub open spec fn lower_byte(b: u8) -> u8 {
    if 65 <= b <= 90 {
        (b + 32) as u8
    } else {
        b
    }
}

/// A whole line taken to lower case, byte by byte.
pub open spec fn lower_seq(s: Seq<u8>) -> Seq<u8> {
    s.map_values(|b: u8| lower_byte(b))
}

/// The longest whitespace-free prefix of `s`: the first token, when `s`
/// starts with one.
pub open spec fn token_prefix(s: Seq<u8>) -> Seq<u8>
    decreases s.len(),
{
    if s.len() == 0 || is_ws(s[0]) {
        Seq::empty()
    } else {
        seq![s[0]] + token_prefix(s.skip(1))
    }
}

/// The first token is never longer than the line, and never empty when the
/// line starts with a token byte.
pub proof fn lemma_token_prefix_len(s: Seq<u8>)
    ensures
        token_prefix(s).len() <= s.len(),
        (s.len() > 0 && !is_ws(s[0])) ==> token_prefix(s).len() >= 1,
    decreases s.len(),
{
    if s.len() > 0 && !is_ws(s[0]) {
        lemma_token_prefix_len(s.skip(1));
    }
}

/// The whitespace-separated tokens of a line, in order.
pub open spec fn tokens_of(s: Seq<u8>) -> Seq<Seq<u8>>
    decreases s.len(),
    via tokens_of_decreases
{
    if s.len() == 0 {
        Seq::empty()
    } else if is_ws(s[0]) {
        tokens_of(s.skip(1))
    } else {
        seq![token_prefix(s)] + tokens_of(s.skip(token_prefix(s).len() as int))
    }
}

#[via_fn]
proof fn tokens_of_decreases(s: Seq<u8>) {
    lemma_token_prefix_len(s);
}

/// The digit ASCII range.
pub open spec fn is_digit(b: u8) -> bool {
    48 <= b <= 57
}

/// The digits of a number token: the token itself, or what follows a single
/// leading plus sign, which `str::parse` accepts for unsigned numbers.
pub open spec fn digits_of(t: Seq<u8>) -> Seq<u8> {
    if t.len() > 0 && t[0] == 43 {
        t.skip(1)
    } else {
        t
    }
}

/// At least one byte, and nothing but digits.
pub open spec fn all_digits(t: Seq<u8>) -> bool {
    t.len() > 0 && forall|k: int| 0 <= k < t.len() ==> is_digit(#[trigger] t[k])
}

/// The number a digit string denotes, read in base ten.
pub open spec fn digits_value(t: Seq<u8>) -> int
    decreases t.len(),
{
    if t.len() == 0 {
        0
    } else {
        digits_value(t.drop_last()) * 10 + (t.last() - 48)
    }
}

/// Whether a token parses as a `u8`: digits after an optional plus sign,
/// denoting a value below 256.
pub open spec fn parses_as_u8(t: Seq<u8>) -> bool {
    all_digits(digits_of(t)) && digits_value(digits_of(t)) < 256
}

/// The views of a vector of byte tokens.
pub open spec fn views_of(ts: Seq<Vec<u8>>) -> Seq<Seq<u8>> {
    ts.map_values(|t: Vec<u8>| t@)
}

/// A digit string denotes a non-negative number.
proof fn lemma_digits_value_nonneg(d: Seq<u8>)
    requires
        forall|q: int| 0 <= q < d.len() ==> is_digit(#[trigger] d[q]),
    ensures
        digits_value(d) >= 0,
    decreases d.len(),
{
    if d.len() > 0 {
        assert(forall|q: int| 0 <= q < d.len() - 1 ==> d.drop_last()[q] == d[q]);
        lemma_digits_value_nonneg(d.drop_last());
    }
}

/// Reading more digits never makes the number smaller: once a prefix passes
/// 255, the whole token does.
proof fn lemma_digits_value_mono(d: Seq<u8>, j: int)
    requires
        0 <= j <= d.len(),
        forall|q: int| 0 <= q < d.len() ==> is_digit(#[trigger] d[q]),
    ensures
        digits_value(d) >= digits_value(d.take(j)),
    decreases d.len() - j,
{
    if j == d.len() {
        assert(d.take(j) =~= d);
    } else {
        assert(forall|q: int| 0 <= q < j ==> d.take(j)[q] == d[q]);
        lemma_digits_value_nonneg(d.take(j));
        assert(d.take(j + 1) =~= d.take(j).push(d[j]));
        assert(d.take(j + 1).drop_last() =~= d.take(j));
        lemma_digits_value_mono(d, j + 1);
    }
}

/// When the bytes from `i` to `j` are token bytes and `j` sits at the line's
/// end or at whitespace, they are exactly the first token of the suffix at `i`.
proof fn lemma_token_prefix_range(s: Seq<u8>, i: int, j: int)
    requires
        0 <= i <= j <= s.len(),
        forall|k: int| i <= k < j ==> !is_ws(#[trigger] s[k]),
        j == s.len() || is_ws(s[j]),
    ensures
        token_prefix(s.skip(i)) == s.subrange(i, j),
    decreases j - i,
{
    if i == j {
        if i < s.len() {
            assert(s.skip(i)[0] == s[i]);
        }
        assert(token_prefix(s.skip(i)) =~= s.subrange(i, j));
    } else {
        lemma_token_prefix_range(s, i + 1, j);
        assert(s.skip(i)[0] == s[i]);
        assert(s.skip(i).skip(1) =~= s.skip(i + 1));
        assert(token_prefix(s.skip(i)) =~= seq![s[i]] + token_prefix(s.skip(i + 1)));
        assert(token_prefix(s.skip(i)) =~= s.subrange(i, j));
    }
}

/// Whether a byte is whitespace to the tokenizer.
fn is_ws_byte(b: u8) -> (r: bool)
    ensures
        r == is_ws(b),
{
    b == 32 || (9 <= b && b <= 13)
}

/// The line taken to lower case, so that mode letters match in any case.
fn lowercased(input: &Vec<u8>) -> (out: Vec<u8>)
    ensures
        out@ == lower_seq(input@),
{
    let mut out: Vec<u8> = Vec::new();
    let mut i: usize = 0;
    while i < input.len()
        invariant
            i <= input@.len(),
            out@.len() == i,
            forall|k: int| 0 <= k < i ==> out@[k] == lower_byte(#[trigger] input@[k]),
        decreases input@.len() - i,
    {
        let b = input[i];
        if 65 <= b && b <= 90 {
            out.push(b + 32);
        } else {
            out.push(b);
        }
        i = i + 1;
    }
    proof {
        assert(out@ =~= lower_seq(input@));
    }
    out
}

/// Split a line into its whitespace-separated tokens.
fn tokenize(input: &Vec<u8>) -> (tokens: Vec<Vec<u8>>)
    ensures
        views_of(tokens@) == tokens_of(input@),
{
    let n = input.len();
    let mut tokens: Vec<Vec<u8>> = Vec::new();
    let mut i: usize = 0;
    proof {
        assert(views_of(tokens@) =~= Seq::<Seq<u8>>::empty());
        assert(input@.skip(0) =~= input@);
        assert(views_of(tokens@) + tokens_of(input@.skip(0)) =~= tokens_of(input@));
    }
    while i < n
        invariant
            i <= n,
            n == input@.len(),
            views_of(tokens@) + tokens_of(input@.skip(i as int)) == tokens_of(input@),
        decreases n - i,
    {
        if is_ws_byte(input[i]) {
            proof {
                assert(input@.skip(i as int)[0] == input@[i as int]);
                assert(input@.skip(i as int).skip(1) =~= input@.skip(i as int + 1));
            }
            i = i + 1;
        } else {
            let start = i;
            let mut tok: Vec<u8> = Vec::new();
            while i < n && !is_ws_byte(input[i])
                invariant
                    start <= i <= n,
                    n == input@.len(),
                    tok@ == input@.subrange(start as int, i as int),
                    forall|k: int| start <= k < i ==> !is_ws(#[trigger] input@[k]),
                decreases n - i,
            {
                tok.push(input[i]);
                proof {
                    assert(tok@ =~= input@.subrange(start as int, i as int + 1));
                }
                i = i + 1;
            }
            proof {
                assert(input@.skip(start as int)[0] == input@[start as int]);
                lemma_token_prefix_range(input@, start as int, i as int);
                assert(input@.skip(start as int).skip(tok@.len() as int) =~= input@.skip(
                    i as int,
                ));
                assert(tokens_of(input@.skip(start as int)) == seq![tok@] + tokens_of(
                    input@.skip(i as int),
                ));
                assert(views_of(tokens@.push(tok)) =~= views_of(tokens@).push(tok@));
                assert(views_of(tokens@).push(tok@) + tokens_of(input@.skip(i as int)) =~= views_of(
                    tokens@,
                ) + (seq![tok@] + tokens_of(input@.skip(i as int))));
            }
            tokens.push(tok);
        }
    }
    proof {
        assert(input@.skip(n as int) =~= Seq::<u8>::empty());
        assert(views_of(tokens@) + tokens_of(input@.skip(n as int)) =~= views_of(tokens@));
    }
    tokens
}

/// Parse one token as a `u8`, exactly as `str::parse` would: an optional
/// plus sign, then digits, denoting a value that fits.
fn parse_u8_token(t: &Vec<u8>) -> (r: Result<u8, InvalidPlay>)
    ensures
        r is Ok <==> parses_as_u8(t@),
        r is Ok ==> r.unwrap() == digits_value(digits_of(t@)),
{
    let ghost d = digits_of(t@);
    let mut k: usize = 0;
    if t.len() > 0 && t[0] == 43 {
        k = 1;
    }
    proof {
        assert(d =~= t@.skip(k as int));
    }
    if k == t.len() {
        return Err(InvalidPlay {});
    }
    let mut acc: u32 = 0;
    let mut m = k;
    while m < t.len()
        invariant
            k <= m <= t@.len(),
            k < t@.len(),
            d == digits_of(t@),
            d == t@.skip(k as int),
            forall|q: int| k <= q < m ==> is_digit(#[trigger] t@[q]),
            acc <= 255,
            acc == digits_value(d.take(m - k)),
        decreases t@.len() - m,
    {
        let b = t[m];
        if !(48 <= b && b <= 57) {
            proof {
                assert(d[m - k] == t@[m as int]);
                assert(!all_digits(d));
            }
            return Err(InvalidPlay {});
        }
        let v = (b - 48) as u32;
        let new_acc = acc * 10 + v;
        proof {
            assert(d.take(m - k + 1) =~= d.take(m - k).push(d[m - k]));
            assert(d.take(m - k + 1).drop_last() =~= d.take(m - k));
            assert(d[m - k] == t@[m as int]);
        }
        if new_acc > 255 {
            proof {
                if all_digits(d) {
                    lemma_digits_value_mono(d, m - k + 1);
                }
            }
            return Err(InvalidPlay {});
        }
        acc = new_acc;
        m = m + 1;
    }
    proof {
        assert(d.take(t@.len() - k) =~= d);
        assert forall|q: int| 0 <= q < d.len() implies is_digit(#[trigger] d[q]) by {
            assert(d[q] == t@[q + k]);
        }
        assert(all_digits(d));
    }
    Ok(acc as u8)
}

/// Parse the cell of a play: the two tokens at `first_index` are its row and
/// column. The callers have checked the token count.
fn handle_cell(inputs: &Vec<Vec<u8>>, first_index: u8) -> (r: Result<Coordinate, InvalidPlay>)
    requires
        first_index + 1 < inputs@.len(),
    ensures
        r is Ok <==> (parses_as_u8(inputs@[first_index as int]@) && parses_as_u8(
            inputs@[first_index as int + 1]@,
        )),
        r is Ok ==> r.unwrap() == ((digits_value(digits_of(inputs@[first_index as int]@)) as u8), (
        digits_value(digits_of(inputs@[first_index as int + 1]@)) as u8)),
{
    let row = match parse_u8_token(&inputs[first_index as usize]) {
        Ok(v) => v,
        Err(_) => {
            return Err(InvalidPlay {});
        },
    };
    let column = match parse_u8_token(&inputs[first_index as usize + 1]) {
        Ok(v) => v,
        Err(_) => {
            return Err(InvalidPlay {});
        },
    };
    Ok((row, column))
}

impl Play {
    pub closed spec fn spec_mode(self) -> PlayMode {
        self.mode
    }

    pub closed spec fn spec_cell(self) -> Option<Coordinate> {
        self.cell
    }

    /// Mode getter.
    pub fn mode(&self) -> (r: &PlayMode)
        ensures
            *r == self.spec_mode(),
    {
        &self.mode
    }

    /// Cell getter: takes the coordinates out of the play, which can
    /// therefore be done only once.
    pub fn cell(&mut self) -> (r: Coordinate)
        requires
            old(self).spec_cell() is Some,
        ensures
            r == old(self).spec_cell().unwrap(),
            final(self).spec_cell() is None,
            final(self).spec_mode() == old(self).spec_mode(),
    {
        let c = self.cell;
        self.cell = None;
        c.unwrap()
    }
}

/// Parse the first play of a game: the target cell alone, as two tokens, and
/// the mode is always a dig.
pub fn read_first_play(input: &Vec<u8>) -> (r: Result<Play, InvalidPlay>)
    ensures
        ({
            let toks = tokens_of(lower_seq(input@));
            &&& (r is Ok <==> (toks.len() == 2 && parses_as_u8(toks[0]) && parses_as_u8(toks[1])))
            &&& (r is Ok ==> r.unwrap().spec_mode() == PlayMode::Dig && r.unwrap().spec_cell()
                == Some(
                ((digits_value(digits_of(toks[0])) as u8), (digits_value(digits_of(toks[1])) as u8)),
            ))
        }),
{
    let lowered = lowercased(input);
    let tokens = tokenize(&lowered);
    if tokens.len() != 2 {
        return Err(InvalidPlay {});
    }
    let cell = match handle_cell(&tokens, 0) {
        Ok(c) => c,
        Err(e) => {
            return Err(e);
        },
    };
    Ok(Play { mode: PlayMode::Dig, cell: Some(cell) })
}

/// Parse any later play: a mode token — `d` to dig, `m` to mark, `u` to
/// unmark, in either case — followed by the target cell's two tokens.
pub fn read_following_plays(input: &Vec<u8>) -> (r: Result<Play, InvalidPlay>)
    ensures
        ({
            let toks = tokens_of(lower_seq(input@));
            &&& (r is Ok <==> (toks.len() == 3 && parses_as_u8(toks[1]) && parses_as_u8(toks[2]) && (
            toks[0] == seq![117u8] || toks[0] == seq![109u8] || toks[0] == seq![100u8])))
            &&& (r is Ok ==> r.unwrap().spec_cell() == Some(
                ((digits_value(digits_of(toks[1])) as u8), (digits_value(digits_of(toks[2])) as u8)),
            ) && r.unwrap().spec_mode() == (if toks[0] == seq![117u8] {
                PlayMode::Unmark
            } else if toks[0] == seq![109u8] {
                PlayMode::Mark
            } else {
                PlayMode::Dig
            }))
        }),
{
    let lowered = lowercased(input);
    let tokens = tokenize(&lowered);
    if tokens.len() != 3 {
        return Err(InvalidPlay {});
    }
    let cell = match handle_cell(&tokens, 1) {
        Ok(c) => c,
        Err(e) => {
            return Err(e);
        },
    };
    let t0 = &tokens[0];
    let ghost toks = tokens_of(lower_seq(input@));
    proof {
        assert(t0@ == toks[0]);
        if t0@.len() == 1 {
            if t0@[0] == 117 {
                assert(t0@ =~= seq![117u8]);
            } else if t0@[0] == 109 {
                assert(t0@ =~= seq![109u8]);
            } else if t0@[0] == 100 {
                assert(t0@ =~= seq![100u8]);
            }
        }
        assert(seq![117u8].len() == 1 && seq![117u8][0] == 117);
        assert(seq![109u8].len() == 1 && seq![109u8][0] == 109);
        assert(seq![100u8].len() == 1 && seq![100u8][0] == 100);
    }
    if t0.len() != 1 {
        return Err(InvalidPlay {});
    }
    let b = t0[0];
    let mode = if b == 117 {
        PlayMode::Unmark
    } else if b == 109 {
        PlayMode::Mark
    } else if b == 100 {
        PlayMode::Dig
    } else {
        return Err(InvalidPlay {});
    };
    Ok(Play { mode, cell: Some(cell) })
}

} // verus!
