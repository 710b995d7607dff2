//! The source of randomness for mine placement and for growing the safe
//! opening area. A source either draws from the operating system's generator
//! or replays a prescribed script, so that tests can force a layout.

use vstd::prelude::*;

verus! {

/// Relies on rand::Rng::gen_range over the range 0..n: returns a uniformly
/// random value of that range, and panics only when the range is empty,
/// which the precondition rules out.
#[verifier::external_body]
fn system_random_below(n: u64) -> (r: u64)
    requires
        n > 0,
    ensures
        r < n,
{
    rand::Rng::gen_range(&mut rand::thread_rng(), 0..n)
}

/// A handle to a stream of random values. Draws replay the script first,
/// reduced into the requested range; once the script is exhausted (at once,
/// for an empty script) they come from the operating system's generator.
pub struct RandomSource {
    script: Vec<u64>,
    next: usize,
}

impl RandomSource {
    /// The prescribed values that are not yet consumed.
    pub closed spec fn remaining_script(self) -> Seq<u64> {
        if self.next <= self.script.len() {
            self.script@.skip(self.next as int)
        } else {
            Seq::empty()
        }
    }

    /// A source that draws every value from the operating system.
    pub fn system() -> (r: RandomSource)
        ensures
            r.remaining_script() == Seq::<u64>::empty(),
    {
        let r = RandomSource { script: Vec::new(), next: 0 };
        proof {
            assert(r.remaining_script() =~= Seq::<u64>::empty());
        }
        r
    }

    /// A source that replays `values` front to back before falling back to
    /// the operating system.
    pub fn scripted(values: Vec<u64>) -> (r: RandomSource)
        ensures
            r.remaining_script() == values@,
    {
        let r = RandomSource { script: values, next: 0 };
        proof {
            assert(r.remaining_script() =~= r.script@);
        }
        r
    }

    /// Draw a value below `n`: the front of the script reduced modulo `n`
    /// while the script lasts, and an operating-system value afterwards.
    pub fn next_below(&mut self, n: u64) -> (r: u64)
        requires
            n > 0,
        ensures
            r < n,
            old(self).remaining_script().len() > 0 ==> r == old(self).remaining_script()[0] % n
                && final(self).remaining_script() == old(self).remaining_script().skip(1),
            old(self).remaining_script().len() == 0 ==> final(self).remaining_script()
                == old(self).remaining_script(),
    {
        if self.next < self.script.len() {
            let v = self.script[self.next];
            self.next = self.next + 1;
            proof {
                assert(old(self).remaining_script()[0] == v);
                assert(self.remaining_script() =~= old(self).remaining_script().skip(1));
            }
            v % n
        } else {
            proof {
                assert(self.remaining_script() =~= old(self).remaining_script());
            }
            system_random_below(n)
        }
    }
}

} // verus!
