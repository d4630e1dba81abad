//! Satellites and the parts of a file header the compressor reads.
use vstd::prelude::*;
use crate::text::{is_digit, digit_value};

verus! {

/// A satellite: its constellation letter and its number within it.
#[derive(Debug, Clone, Copy, PartialEq, Eq, Structural)]
pub struct Sv {
    pub constellation: char,
    pub prn: u8,
}

/// Letters of the known constellations.
pub open spec fn is_constellation(c: char) -> bool {
    c == 'G' || c == 'R' || c == 'E' || c == 'C' || c == 'J' || c == 'I' || c == 'S'
}

/// The satellite that a trimmed identifier such as `G07` or `R 5` names: a
/// constellation letter, then one or two digits, possibly after spaces.
pub open spec fn sv_of(t: Seq<char>) -> Option<Sv> {
    if t.len() >= 2 && is_constellation(t[0]) && is_digit(t.last()) {
        if t.len() == 2 {
            Some(Sv { constellation: t[0], prn: digit_value(t[1]) as u8 })
        } else if is_digit(t[t.len() - 2]) && (forall|i: int| 1 <= i < t.len() - 2 ==> #[trigger] t[i] == ' ') {
            Some(Sv {
                constellation: t[0],
                prn: (digit_value(t[t.len() - 2]) * 10 + digit_value(t.last())) as u8,
            })
        } else if forall|i: int| 1 <= i < t.len() - 1 ==> #[trigger] t[i] == ' ' {
            Some(Sv { constellation: t[0], prn: digit_value(t.last()) as u8 })
        } else {
            None
        }
    } else {
        None
    }
}

impl Sv {
    /// Parses a trimmed satellite identifier (see `sv_of`).
    pub fn parse(t: &Vec<char>) -> (r: Option<Sv>)
        ensures
            r == sv_of(t@),
    {
        let n = t.len();
        if n < 2 {
            return None;
        }
        let c = t[0];
        if !(c == 'G' || c == 'R' || c == 'E' || c == 'C' || c == 'J' || c == 'I' || c == 'S') {
            return None;
        }
        let last = t[n - 1];
        if !('0' <= last && last <= '9') {
            return None;
        }
        let lv: u8 = (last as u32 - '0' as u32) as u8;
        if n == 2 {
            return Some(Sv { constellation: c, prn: lv });
        }
        let prev = t[n - 2];
        let mut i: usize = 1;
        let prev_digit: bool = '0' <= prev && prev <= '9';
        assert(prev_digit == is_digit(t@[n - 2]));
        let stop: usize = if prev_digit { n - 2 } else { n - 1 };
        while i < stop
            invariant
                1 <= i <= stop,
                stop <= n - 1,
                n == t@.len(),
                stop == if prev_digit { n - 2 } else { n - 1 },
                prev_digit == is_digit(t@[n - 2]),
                forall|j: int| 1 <= j < i ==> #[trigger] t@[j] == ' ',
            decreases stop - i,
        {
            if t[i] != ' ' {
                proof {
                    assert(t@[i as int] != ' ');
                }
                return None;
            }
            i = i + 1;
        }
        if prev_digit {
            let pv: u8 = (prev as u32 - '0' as u32) as u8;
            Some(Sv { constellation: c, prn: pv * 10 + lv })
        } else {
            Some(Sv { constellation: c, prn: lv })
        }
    }
}

/// Kind of record a file holds.
#[derive(Debug, Clone, Copy, PartialEq, Eq, Structural)]
pub enum RinexType {
    ObservationData,
    NavigationData,
    MeteoData,
    ClockData,
}

/// The observable codes that the header declares for one constellation.
#[derive(Debug, Clone)]
pub struct CodeList {
    pub constellation: char,
    pub codes: Vec<String>,
}

/// What the compressor needs of a file header.
#[derive(Debug, Clone)]
pub struct Header {
    pub rinex_type: RinexType,
    /// constellation of the satellites whose identifier omits its letter
    pub constellation: Option<char>,
    /// observable codes, per constellation
    pub obs_codes: Vec<CodeList>,
}

/// Number of observables that `lists` declares for constellation `c`: that
/// of the first list for `c`.
pub open spec fn nb_obs_in(lists: Seq<CodeList>, c: char) -> Option<nat>
    decreases lists.len(),
{
    if lists.len() == 0 {
        None
    } else if lists[0].constellation == c {
        Some(lists[0].codes@.len())
    } else {
        nb_obs_in(lists.drop_first(), c)
    }
}

impl Header {
    pub open spec fn nb_obs(&self, c: char) -> Option<nat> {
        nb_obs_in(self.obs_codes@, c)
    }

    /// Number of observables declared for constellation `c`.
    pub fn nb_observables(&self, c: char) -> (r: Option<usize>)
        ensures
            r matches Some(n) ==> self.nb_obs(c) == Some(n as nat),
            r is None <==> self.nb_obs(c) is None,
    {
        let mut i: usize = 0;
        proof {
            assert(self.obs_codes@.subrange(0, self.obs_codes@.len() as int) =~= self.obs_codes@);
        }
        while i < self.obs_codes.len()
            invariant
                i <= self.obs_codes@.len(),
                nb_obs_in(self.obs_codes@, c) == nb_obs_in(self.obs_codes@.subrange(i as int, self.obs_codes@.len() as int), c),
            decreases self.obs_codes@.len() - i,
        {
            let ghost rest = self.obs_codes@.subrange(i as int, self.obs_codes@.len() as int);
            if self.obs_codes[i].constellation == c {
                return Some(self.obs_codes[i].codes.len());
            }
            proof {
                assert(rest.drop_first() =~= self.obs_codes@.subrange(i + 1, self.obs_codes@.len() as int));
            }
            i = i + 1;
        }
        proof {
            assert(self.obs_codes@.subrange(i as int, self.obs_codes@.len() as int).len() == 0);
        }
        None
    }
}

} // verus!
