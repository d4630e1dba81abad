//! Text differentiator: character-wise delta against the previous string.
use vstd::prelude::*;

verus! {

/// What the differentiator emits for `s` when its state is `prev`: each
/// character of `s` that differs from the one at the same place in `prev`,
/// or that `prev` does not reach, and a space elsewhere.
pub open spec fn text_delta(prev: Seq<char>, s: Seq<char>) -> Seq<char> {
    Seq::new(s.len(), |i: int| if i < prev.len() && prev[i] == s[i] { ' ' } else { s[i] })
}

pub struct TextDiff {
    prev: Vec<char>,
}

impl TextDiff {
    /// The string the next one is compared with.
    pub closed spec fn state(&self) -> Seq<char> {
        self.prev@
    }

    pub fn new() -> (r: TextDiff)
        ensures
            r.state() == Seq::<char>::empty(),
    {
        TextDiff { prev: Vec::new() }
    }

    /// Makes `seed` the current state.
    pub fn init(&mut self, seed: &Vec<char>)
        ensures
            final(self).state() == seed@,
    {
        self.prev = seed.clone();
    }

    /// Encodes `s` against the current state, which `s` then replaces.
    pub fn compress(&mut self, s: &Vec<char>) -> (r: Vec<char>)
        ensures
            r@ == text_delta(old(self).state(), s@),
            final(self).state() == s@,
    {
        let mut r: Vec<char> = Vec::new();
        let mut i: usize = 0;
        while i < s.len()
            invariant
                i <= s@.len(),
                r@ == text_delta(self.prev@, s@).subrange(0, i as int),
            decreases s@.len() - i,
        {
            if i < self.prev.len() && self.prev[i] == s[i] {
                r.push(' ');
            } else {
                r.push(s[i]);
            }
            i = i + 1;
            proof {
                assert(r@ =~= text_delta(self.prev@, s@).subrange(0, i as int));
            }
        }
        proof {
            assert(r@ =~= text_delta(self.prev@, s@));
        }
        self.prev = s.clone();
        r
    }
}

} // verus!
