//! The compressor: an epoch-driven state machine that turns observation
//! records into their compact, differentially encoded form.
use vstd::prelude::*;
use crate::error::Error;
use crate::numdiff::{NumDiff, MAX_COMPRESSION_ORDER, delta, shift_in};
use crate::registry::{Kernel, Slot, find_slot, lookup, knows_sv, sv_known, is_pending, schedule, consume, lemma_find_in_bounds, lemma_find_same_keys, same_keys};
use crate::sv::{Sv, Header, RinexType, sv_of};
use crate::text::{
    trim, trim_end, lines, lines_from, next_line, trim_bounds, push_range, push_all, slice_chars,
    all_digits, digits_value, is_digit, int_text, push_int, milli_value, parse_milli,
};
use crate::textdiff::{TextDiff, text_delta};

verus! {

/// Relies on num_integer::div_ceil: the quotient of `x` by `y`, rounded up.
#[verifier::external_body]
fn div_ceil(x: usize, y: usize) -> (r: usize)
    requires
        y > 0,
    ensures
        r as int == x as int / y as int + if x as int % y as int == 0 { 0int } else { 1int },
{
    num_integer::div_ceil(x, y)
}

/// Relies on str::chars: the characters of `s`, in order.
#[verifier::external_body]
fn chars_of(s: &str) -> (r: Vec<char>)
    ensures
        r@ == s@,
{
    s.chars().collect()
}

/// Relies on String's FromIterator over chars: the string made of `v`.
#[verifier::external_body]
fn string_of(v: &Vec<char>) -> (r: String)
    ensures
        r@ == v@,
{
    v.iter().collect()
}

/// Phase of the state machine.
#[derive(Debug, Clone, Copy, PartialEq, Eq, Structural)]
pub enum State {
    EpochDescriptor,
    Body,
}

impl Default for State {
    fn default() -> (r: Self)
        ensures
            r == State::EpochDescriptor,
    {
        State::EpochDescriptor
    }
}

impl State {
    /// Resets the state machine.
    pub fn reset(&mut self)
        ensures
            *final(self) == State::EpochDescriptor,
    {
        *self = State::EpochDescriptor;
    }
}

/// The descriptor lines joined into a single line: `&`, each line without
/// its surrounding whitespace, and a line feed.
pub open spec fn join_trimmed(ls: Seq<Seq<char>>) -> Seq<char>
    decreases ls.len(),
{
    if ls.len() == 0 {
        Seq::empty()
    } else {
        trim(ls[0]) + join_trimmed(ls.drop_first())
    }
}

pub open spec fn reshaped(content: Seq<char>) -> Seq<char> {
    seq!['&'] + join_trimmed(lines(content)) + seq!['\n']
}

fn reshape(content: &Vec<char>) -> (r: Vec<char>)
    ensures
        r@ == reshaped(content@),
{
    let mut r: Vec<char> = Vec::new();
    r.push('&');
    let mut pos: usize = 0;
    proof {
        assert(r@ == seq!['&'] + Seq::<char>::empty());
    }
    while pos < content.len()
        invariant
            pos <= content@.len(),
            seq!['&'] + join_trimmed(lines(content@)) == r@ + join_trimmed(lines_from(content@, pos as int)),
        decreases content@.len() - pos,
    {
        let (stop, next) = next_line(content, pos);
        let (b, e) = trim_bounds(content, pos, stop);
        let ghost rest = lines_from(content@, next as int);
        let ghost l = content@.subrange(pos as int, stop as int);
        proof {
            assert((seq![l] + rest).drop_first() =~= rest);
            assert((seq![l] + rest)[0] == l);
        }
        let ghost r0 = r@;
        push_range(&mut r, content, b, e);
        proof {
            assert(r0 + join_trimmed(seq![l] + rest) =~= r@ + join_trimmed(rest));
        }
        pos = next;
    }
    proof {
        assert(lines_from(content@, pos as int) == Seq::<Seq<char>>::empty());
        assert(r@ + join_trimmed(Seq::<Seq<char>>::empty()) =~= r@);
    }
    r.push('\n');
    r
}

/// Reshapes an epoch descriptor into the single line the compact format
/// carries (see `reshaped`).
pub fn format_epoch_descriptor(content: &str) -> (r: String)
    ensures
        r@ == reshaped(content@),
{
    let c = chars_of(content);
    let r = reshape(&c);
    string_of(&r)
}

/// Number of satellites that the first line of an epoch descriptor
/// announces in its columns 30 and 31.
pub open spec fn sat_count(line: Seq<char>) -> Option<nat> {
    if line.len() < 33 {
        None
    } else {
        let t = trim(line.subrange(30, 32));
        let u = if t.len() > 0 && t[0] == '+' { t.drop_first() } else { t };
        if u.len() > 0 && all_digits(u) {
            Some(digits_value(u))
        } else {
            None
        }
    }
}

/// Number of satellites announced by a descriptor's first line.
fn determine_nb_vehicules(line: &Vec<char>) -> (r: Result<usize, Error>)
    ensures
        match sat_count(line@) {
            Some(n) => r == Ok::<usize, Error>(n as usize) && n <= 99,
            None => r == Err::<usize, Error>(Error::MalformedEpochDescriptor),
        },
{
    if line.len() < 33 {
        return Err(Error::MalformedEpochDescriptor);
    }
    let (b0, e) = trim_bounds(line, 30, 32);
    let mut b = b0;
    if b < e && line[b] == '+' {
        b = b + 1;
    }
    let ghost t = line@.subrange(b0 as int, e as int);
    proof {
        if b > b0 {
            assert(t.drop_first() =~= line@.subrange(b as int, e as int));
        }
        if b0 < e {
            assert(t[0] == line@[b0 as int]);
        }
        if b == b0 {
            assert(t =~= line@.subrange(b as int, e as int));
        }
    }
    if b == e {
        return Err(Error::MalformedEpochDescriptor);
    }
    let c0 = line[b];
    if !('0' <= c0 && c0 <= '9') {
        proof {
            assert(line@.subrange(b as int, e as int)[0] == c0);
        }
        return Err(Error::MalformedEpochDescriptor);
    }
    let v0: usize = (c0 as u32 - '0' as u32) as usize;
    let ghost u = line@.subrange(b as int, e as int);
    if e - b == 1 {
        proof {
            assert(u.drop_last().len() == 0);
            assert(u.last() == c0);
            assert(all_digits(u));
            reveal_with_fuel(digits_value, 3);
        }
        return Ok(v0);
    }
    let c1 = line[b + 1];
    if !('0' <= c1 && c1 <= '9') {
        proof {
            assert(u[1] == c1);
        }
        return Err(Error::MalformedEpochDescriptor);
    }
    proof {
        assert(u.len() == 2);
        assert(u.drop_last().drop_last().len() == 0);
        assert(u.drop_last()[0] == c0);
        assert(u.drop_last().last() == c0);
        assert(u.last() == c1);
        reveal_with_fuel(digits_value, 3);
        assert(all_digits(u)) by {
            assert forall|i: int| 0 <= i < u.len() implies is_digit(#[trigger] u[i]) by {
                if i == 0 {
                    assert(u[0] == c0);
                } else {
                    assert(u[1] == c1);
                }
            }
        }
    }
    Ok(v0 * 10 + (c1 as u32 - '0' as u32) as usize)
}

/// The satellite at position `p` of a reshaped descriptor: the three
/// characters from column `32 + 3p`, trimmed, with `default`'s letter put in
/// front of an identifier that starts with a digit.
pub open spec fn vehicule_at(desc: Seq<char>, p: nat, default: Option<char>) -> Option<Sv> {
    let min = 32 + 3 * p as int;
    if min + 3 > desc.len() {
        None
    } else {
        let t = trim(desc.subrange(min, min + 3));
        if t.len() == 0 {
            None
        } else if is_digit(t[0]) {
            match default {
                Some(c) => sv_of(seq![c] + t),
                None => None,
            }
        } else {
            sv_of(t)
        }
    }
}

/// Whether `p` occurs in `s`.
pub open spec fn occurs(s: Seq<char>, p: Seq<char>) -> bool {
    exists|i: int| 0 <= i && i + p.len() <= s.len() && #[trigger] s.subrange(i, i + p.len()) == p
}

pub open spec fn comment_marker() -> Seq<char> {
    seq!['C', 'O', 'M', 'M', 'E', 'N', 'T']
}

pub open spec fn splice_marker() -> Seq<char> {
    seq!['R', 'I', 'N', 'E', 'X', ' ', 'F', 'I', 'L', 'E', ' ', 'S', 'P', 'L', 'I', 'C', 'E']
}

/// A comment line: the marker `COMMENT` in its columns from 60 on.
pub open spec fn is_comment(line: Seq<char>) -> bool {
    line.len() > 60 && occurs(line.subrange(60, line.len() as int), comment_marker())
}

/// Whether `p` occurs in `s[from..]`.
fn occurs_from(s: &Vec<char>, from: usize, p: &Vec<char>) -> (r: bool)
    requires
        from <= s@.len(),
    ensures
        r == occurs(s@.subrange(from as int, s@.len() as int), p@),
{
    let ghost t = s@.subrange(from as int, s@.len() as int);
    if p.len() == 0 {
        proof {
            assert(t.subrange(0int, 0int + p@.len()) =~= p@);
        }
        return true;
    }
    if p.len() > s.len() - from {
        return false;
    }
    let slen: usize = s.len();
    let last: usize = s.len() - p.len();
    let mut i: usize = from;
    while i <= last
        invariant
            from <= i <= last + 1,
            slen == s@.len(),
            p@.len() > 0,
            last < s@.len(),
            last + p@.len() == s@.len(),
            t == s@.subrange(from as int, s@.len() as int),
            forall|j: int| 0 <= j < i - from ==> #[trigger] t.subrange(j, j + p@.len()) != p@,
        decreases last + 1 - i,
    {
        let mut k: usize = 0;
        while k < p.len() && s[i + k] == p[k]
            invariant
                k <= p@.len(),
                i <= last,
                i + p@.len() <= s@.len(),
                slen == s@.len(),
                last + p@.len() == s@.len(),
                forall|m: int| 0 <= m < k ==> s@[i + m] == p@[m],
            decreases p@.len() - k,
        {
            k = k + 1;
        }
        let ghost w = t.subrange(i - from, i - from + p@.len());
        if k == p.len() {
            proof {
                assert(w =~= p@);
            }
            return true;
        }
        proof {
            assert(w[k as int] == s@[i + k]);
            assert(w != p@);
        }
        i = i + 1;
    }
    proof {
        assert forall|j: int| 0 <= j && j + p@.len() <= t.len() implies #[trigger] t.subrange(j, j + p@.len()) != p@ by {
            assert(j < i - from);
        }
    }
    false
}

/// Lines as they pass through: each followed by a line feed.
pub open spec fn passed_through(ls: Seq<Seq<char>>) -> Seq<char>
    decreases ls.len(),
{
    if ls.len() == 0 {
        Seq::empty()
    } else {
        passed_through(ls.drop_last()) + ls.last() + seq!['\n']
    }
}

/// Number of observable fields a body line of `len` characters is taken to
/// hold: one per started 17 characters.
pub open spec fn nb_fields(len: nat) -> nat {
    len / 17 + if len % 17 == 0 { 0nat } else { 1nat }
}

/// Start of field `j` of a body line of `len` characters.
pub open spec fn field_start(len: nat, j: nat) -> nat {
    if 16 * j < len { 16 * j } else { len }
}

/// Data part of field `j` of `line`: its first 14 characters.
pub open spec fn field_data(line: Seq<char>, j: nat) -> Seq<char> {
    let s = field_start(line.len(), j);
    let e = field_start(line.len(), j + 1);
    line.subrange(s as int, if e - s < 14 { e as int } else { s + 14int })
}

/// Flags part of field `j` of `line`: what follows its data.
pub open spec fn field_flags(line: Seq<char>, j: nat) -> Seq<char> {
    let s = field_start(line.len(), j);
    let e = field_start(line.len(), j + 1);
    line.subrange(if e - s < 14 { e as int } else { s + 14int }, e as int)
}

/// `n` spaces.
pub open spec fn blanks(n: nat) -> Seq<char> {
    Seq::new(n, |i: int| ' ')
}

/// Why a body line cannot be taken for the satellite at position `p` of
/// descriptor `desc`, whose observable `obs` comes next: the satellite
/// cannot be identified, its constellation declares no observables, or it
/// is already past its last one.
pub open spec fn body_error(desc: Seq<char>, p: nat, obs: nat, header: &Header) -> Option<Error> {
    match vehicule_at(desc, p, header.constellation) {
        None => Some(Error::VehiculeIdentificationError),
        Some(sv) => match header.nb_obs(sv.constellation) {
            None => Some(Error::VehiculeIdentificationError),
            Some(n) => if obs > n {
                Some(Error::MalformedEpochBody)
            } else {
                None
            },
        },
    }
}

/// What encoding data field `d` and flags `f` for observable `i` of `sv`
/// leaves in its kernels, from `c0` to `c1`; `known` tells whether `sv`
/// had kernels at that point.
pub open spec fn field_effect(c0: Compressor, c1: Compressor, sv: Sv, i: nat, d: Seq<char>, f: Seq<char>, known: bool) -> bool {
    match milli_value(trim(d)) {
        None => kernel_same_at(c0, c1, sv, i) && c1.pending(sv, i),
        Some(x) => {
            &&& c1.has_kernel(sv, i) && !c1.pending(sv, i)
            &&& c1.history(sv, i) == (if !c0.has_kernel(sv, i) || c0.pending(sv, i) { seq![x] } else {
                shift_in(c0.history(sv, i), x, 3)
            })
            &&& c1.lli_state(sv, i) == (if trim(f).len() > 0 { seq![f[0]] } else if c0.has_kernel(sv, i) {
                c0.lli_state(sv, i)
            } else if known {
                seq![' ']
            } else {
                seq!['&']
            })
            &&& c1.ssi_state(sv, i) == (if trim(f).len() > 0 && f.len() >= 2 { seq![f[1]] } else if c0.has_kernel(sv, i) {
                c0.ssi_state(sv, i)
            } else if known && trim(f).len() == 0 {
                seq![' ']
            } else {
                seq!['&']
            })
        },
    }
}

proof fn lemma_field_effect(c0: Compressor, c1: Compressor, sv: Sv, p: nat, d: Seq<char>, f: Seq<char>)
    requires
        milli_value(trim(d)) is None ==> kernel_same_at(c0, c1, sv, p) && c1.pending(sv, p),
        milli_value(trim(d)) matches Some(x) ==> {
            &&& (!c0.has_kernel(sv, p) || c0.pending(sv, p)) ==> c1.history(sv, p) == seq![x]
            &&& c0.has_kernel(sv, p) && !c0.pending(sv, p) ==> c1.history(sv, p) == shift_in(c0.history(sv, p), x, 3)
            &&& c1.has_kernel(sv, p) && !c1.pending(sv, p)
        },
        milli_value(trim(d)) is Some && !c0.has_kernel(sv, p) && trim(f).len() == 0 ==> {
            let seed = if c0.knows(sv) { seq![' '] } else { seq!['&'] };
            c1.lli_state(sv, p) == seed && c1.ssi_state(sv, p) == seed
        },
        milli_value(trim(d)) is Some && trim(f).len() > 0 ==> c1.lli_state(sv, p) == seq![f[0]]
            && c1.ssi_state(sv, p) == (if f.len() >= 2 { seq![f[1]] } else if c0.has_kernel(sv, p) {
                c0.ssi_state(sv, p)
            } else {
                seq!['&']
            }),
        milli_value(trim(d)) is Some && c0.has_kernel(sv, p) && trim(f).len() == 0 ==>
            c1.lli_state(sv, p) == c0.lli_state(sv, p) && c1.ssi_state(sv, p) == c0.ssi_state(sv, p),
    ensures
        field_effect(c0, c1, sv, p, d, f, c0.knows(sv)),
{
}

/// Whether `sv` has kernels once the first `j` fields of body `line` are
/// encoded from `c0`: a field with a value creates them.
pub open spec fn sv_known_before(c0: Compressor, sv: Sv, line: Seq<char>, j: nat) -> bool
    decreases j,
{
    if j == 0 {
        c0.knows(sv)
    } else {
        sv_known_before(c0, sv, line, (j - 1) as nat) || milli_value(trim(field_data(line, (j - 1) as nat))) is Some
    }
}

/// Observable `i` of `s` has the same kernels in `c0` and `c1`.
pub open spec fn kernel_same_at(c0: Compressor, c1: Compressor, s: Sv, i: nat) -> bool {
    &&& c1.has_kernel(s, i) == c0.has_kernel(s, i)
    &&& c1.history(s, i) == c0.history(s, i)
    &&& c1.lli_state(s, i) == c0.lli_state(s, i)
    &&& c1.ssi_state(s, i) == c0.ssi_state(s, i)
}

/// `c1` has the kernels of `c0`, for every observable of every satellite.
pub open spec fn kernels_kept(c0: Compressor, c1: Compressor) -> bool {
    &&& forall|s: Sv, i: nat| #[trigger] kernel_same_at(c0, c1, s, i)
    &&& forall|s: Sv| #[trigger] c1.knows(s) == c0.knows(s)
}

/// `c1` has the re-seed marks of `c0`.
pub open spec fn pending_kept(c0: Compressor, c1: Compressor) -> bool {
    forall|s: Sv, i: nat| #[trigger] c1.pending(s, i) == c0.pending(s, i)
}

proof fn lemma_kernels_kept(c0: Compressor, c1: Compressor)
    requires
        c0.sv_diff@ == c1.sv_diff@,
    ensures
        kernels_kept(c0, c1),
{
}

proof fn lemma_pending_kept(c0: Compressor, c1: Compressor)
    requires
        c0.forced_init@ == c1.forced_init@,
    ensures
        pending_kept(c0, c1),
{
}

/// What compressing one line does: from compressor `c0` and output `out0`
/// to compressor `c1`, output `out1` and result `r`.
pub open spec fn line_step(c0: Compressor, header: &Header, line: Seq<char>, out0: Seq<char>, c1: Compressor, out1: Seq<char>, r: Result<bool, Error>) -> bool {
    &&& (r != Err::<bool, Error>(Error::NotObsRinexData))
    &&& (is_comment(line) ==> r == Ok::<bool, Error>(false) && out1 == out0 + line + seq!['\n'])
    &&& (!is_comment(line) && c0.spec_state() == State::Body
        && (trim(line).len() > 0 || c0.blank_target(header) is None) ==> (
        c0.body_fit(header, line.len()) matches Some((sv, n)) ==> {
            let o = c0.current_obs();
            let m = nb_fields(line.len());
            let fl = c0.flags() + c0.line_flags(sv, o, line, m);
            let last = c0.vehicule_index() + 1 == c0.vehicule_count();
            &&& forall|j: nat| j < m ==> #[trigger] field_effect(c0, c1, sv, o + j, field_data(line, j), field_flags(line, j),
                sv_known_before(c0, sv, line, j))
            &&& forall|s2: Sv, i2: nat| !(s2 == sv && o <= i2 < o + m) ==> #[trigger] kernel_same_at(c0, c1, s2, i2)
                && c1.pending(s2, i2) == c0.pending(s2, i2)
            &&& forall|s2: Sv| s2 != sv ==> #[trigger] c1.knows(s2) == c0.knows(s2)
            &&& c1.knows(sv) == sv_known_before(c0, sv, line, m)
            &&& r == Ok::<bool, Error>(false)
            &&& out1 == out0 + c0.line_data(sv, o, line, m)
                + (if o + m == n { trim_end(fl) + seq!['\n'] } else { Seq::empty() })
            &&& o + m < n ==> c1.current_obs() == o + m && c1.flags() == fl
                && c1.spec_state() == State::Body
                && c1.vehicule_index() == c0.vehicule_index()
            &&& o + m == n ==> c1.current_obs() == 0 && c1.flags().len() == 0
                && c1.vehicule_index() == (if last { 0 } else { c0.vehicule_index() + 1 })
                && c1.spec_state() == (if last { State::EpochDescriptor } else { State::Body })
        }))
    &&& (!is_comment(line) && trim(line).len() == 0 ==> (c0.blank_target(header) matches Some((sv, n)) ==> {
        let o = c0.current_obs();
        let m: nat = if n - o < 5 { (n - o) as nat } else { 5 };
        let last = c0.vehicule_index() + 1 == c0.vehicule_count();
        &&& r == Ok::<bool, Error>(false)
        &&& out1 == out0 + blanks(m) + (if o + m == n {
            trim_end(c0.flags() + blanks(2 * m)) + seq!['\n']
        } else {
            Seq::empty()
        })
        &&& forall|j: nat| o <= j < o + m ==> c1.pending(sv, j)
        &&& forall|s2: Sv, i2: nat| !(s2 == sv && o <= i2 < o + m) ==> c1.pending(s2, i2) == c0.pending(s2, i2)
        &&& kernels_kept(c0, c1)
        &&& c1.is_first_epoch() == c0.is_first_epoch() && c1.epoch_state() == c0.epoch_state()
        &&& o + m < n ==> c1.current_obs() == o + m && c1.flags() == c0.flags() + blanks(2 * m)
            && c1.spec_state() == State::Body && c1.vehicule_index() == c0.vehicule_index()
            && c1.descriptor() == c0.descriptor() && c1.vehicule_count() == c0.vehicule_count()
        &&& o + m == n ==> c1.current_obs() == 0 && c1.flags().len() == 0
            && c1.vehicule_index() == (if last { 0 } else { c0.vehicule_index() + 1 })
            && c1.spec_state() == (if last { State::EpochDescriptor } else { State::Body })
            && c1.vehicule_count() == c0.vehicule_count()
            && (last ==> c1.descriptor().len() == 0 && c1.descriptor_lines() == 0)
            && (!last ==> c1.descriptor() == c0.descriptor())
    }))
    &&& (!is_comment(line) && c0.spec_state() == State::EpochDescriptor ==> ({
        let d1 = c0.descriptor() + line + seq!['\n'];
        let nb: nat = if c0.descriptor_lines() == 0 {
            match sat_count(line) { Some(k) => k, None => 0 }
        } else {
            c0.vehicule_count()
        };
        let complete = c0.descriptor_lines() + 1 == nb / 12 + (if nb % 12 == 0 { 0nat } else { 1nat });
        &&& (c0.descriptor_lines() != 0 || sat_count(line) is Some)
            && c0.descriptor_lines() < usize::MAX ==> r is Ok
        &&& r is Ok ==> r == Ok::<bool, Error>(false) && kernels_kept(c0, c1) && pending_kept(c0, c1) && c1.vehicule_count() == nb
        &&& r is Ok && complete ==> c1.spec_state() == State::Body && !c1.is_first_epoch()
            && c1.vehicule_index() == 0 && c1.current_obs() == 0 && c1.flags().len() == 0
            && c1.descriptor() == reshaped(d1) && c1.epoch_state() == reshaped(d1)
            && out1 == out0 + (if c0.is_first_epoch() { reshaped(d1) + seq!['\n'] } else {
                trim_end(text_delta(c0.epoch_state(), reshaped(d1))) + seq!['\n', '\n']
            })
        &&& r is Ok && !complete ==> c1.spec_state() == State::EpochDescriptor && out1 == out0
            && c1.descriptor() == d1 && c1.descriptor_lines() == c0.descriptor_lines() + 1
            && c1.is_first_epoch() == c0.is_first_epoch() && c1.epoch_state() == c0.epoch_state()
            && c1.current_obs() == 0 && c1.flags().len() == 0 && c1.vehicule_index() == 0
    }))
    &&& (is_comment(line) && occurs(line, splice_marker()) ==> c1.spec_state()
        == State::EpochDescriptor && c1.descriptor_lines() == 0 && c1.descriptor().len() == 0
        && c1.current_obs() == 0 && c1.flags().len() == 0 && c1.vehicule_index() == 0
        && c1.is_first_epoch() == c0.is_first_epoch() && c1.epoch_state() == c0.epoch_state()
        && kernels_kept(c0, c1) && pending_kept(c0, c1))
    &&& (is_comment(line) && !occurs(line, splice_marker()) ==> c1 == c0)
    &&& (!is_comment(line) && c0.spec_state() == State::EpochDescriptor && c0.descriptor_lines() == 0
        && (sat_count(line) matches Some(k) && 1 <= k <= 12) ==> r == Ok::<bool, Error>(false)
        && c1.spec_state() == State::Body && !c1.is_first_epoch()
        && c1.vehicule_index() == 0 && c1.current_obs() == 0
        && c1.descriptor() == reshaped(c0.descriptor() + line + seq!['\n']))
    &&& (!is_comment(line) && c0.spec_state() == State::Body && trim(line).len() > 0 ==> (
        body_error(c0.descriptor(), c0.vehicule_index(), c0.current_obs(), header)
        matches Some(e) ==> r == Err::<bool, Error>(e)))
    &&& (!is_comment(line) && c0.spec_state() == State::EpochDescriptor && c0.is_first_epoch()
        && r is Ok && c1.spec_state() == State::Body ==>
        out1 == out0 + reshaped(c0.descriptor() + line + seq!['\n']) + seq!['\n'])
    &&& (!is_comment(line) && c0.spec_state() == State::EpochDescriptor
        && c0.descriptor_lines() == 0 && sat_count(line) is None ==> r == Err::<bool, Error>(Error::MalformedEpochDescriptor))
    &&& (!is_comment(line) && c0.spec_state() == State::Body
        && (trim(line).len() > 0 || c0.blank_target(header) is None) ==> (
        c0.body_target(header) matches Some((sv, n)) ==> (c0.body_fit(header, line.len()) is None ==> {
            let o = c0.current_obs();
            let m = (n - o) as nat;
            let last = c0.vehicule_index() + 1 == c0.vehicule_count();
            &&& r == Ok::<bool, Error>(true)
            &&& out1 == out0 + blanks(m) + trim_end(c0.flags() + blanks(2 * m)) + seq!['\n']
            &&& forall|j: nat| o <= j < n ==> c1.pending(sv, j)
            &&& forall|s2: Sv, i2: nat| !(s2 == sv && o <= i2 < n) ==> c1.pending(s2, i2) == c0.pending(s2, i2)
            &&& kernels_kept(c0, c1)
            &&& c1.is_first_epoch() == c0.is_first_epoch() && c1.epoch_state() == c0.epoch_state()
            &&& c1.vehicule_count() == c0.vehicule_count()
            &&& c1.current_obs() == 0 && c1.flags().len() == 0
            &&& c1.vehicule_index() == (if last { 0 } else { c0.vehicule_index() + 1 })
            &&& c1.spec_state() == (if last { State::EpochDescriptor } else { State::Body })
            &&& last ==> c1.descriptor().len() == 0 && c1.descriptor_lines() == 0
            &&& !last ==> c1.descriptor() == c0.descriptor()
        })))
}

/// How many more times a line may be asked for again: while in a body, one
/// more than the satellites left in the epoch.
pub open spec fn again_measure(c: Compressor) -> nat {
    if c.spec_state() == State::Body && c.vehicule_index() < c.vehicule_count() {
        (c.vehicule_count() - c.vehicule_index() + 1) as nat
    } else {
        0
    }
}

/// `cs` and `os` trace the steps on one line that asked for it again.
pub open spec fn run_trace(cs: Seq<Compressor>, os: Seq<Seq<char>>, header: &Header, line: Seq<char>) -> bool {
    &&& cs.len() >= 1
    &&& os.len() == cs.len()
    &&& forall|k: int| 0 <= k < cs.len() - 1 ==> #[trigger] line_step(cs[k], header, line, os[k], cs[k + 1], os[k + 1], Ok(true))
}

/// Compressing one line in full: steps that ask for the line again, then
/// one that takes it, or fails.
pub open spec fn line_run(c0: Compressor, header: &Header, line: Seq<char>, out0: Seq<char>, c1: Compressor, out1: Seq<char>, r: Result<(), Error>) -> bool {
    exists|cs: Seq<Compressor>, os: Seq<Seq<char>>|
        #[trigger] run_trace(cs, os, header, line) && cs[0] == c0 && os[0] == out0
        && line_step(cs.last(), header, line, os.last(), c1, out1, match r { Ok(()) => Ok(false), Err(e) => Err(e) })
}

/// `cs` and `outs` trace compressing the lines `ls` one after the other,
/// each in full and successfully.
pub open spec fn trace(cs: Seq<Compressor>, outs: Seq<Seq<char>>, header: &Header, ls: Seq<Seq<char>>) -> bool {
    &&& cs.len() == ls.len() + 1
    &&& outs.len() == cs.len()
    &&& forall|k: int| 0 <= k < ls.len() ==> #[trigger] line_run(cs[k], header, ls[k], outs[k], cs[k + 1], outs[k + 1], Ok(()))
}

/// Structure to compress observation records.
pub struct Compressor {
    /// finite state machine
    state: State,
    /// true until the first epoch has been emitted
    first_epoch: bool,
    /// lines of the current descriptor seen so far
    epoch_ptr: usize,
    /// current epoch descriptor
    epoch_descriptor: Vec<char>,
    /// flags of the current satellite, two per observable
    flags_descriptor: Vec<char>,
    /// satellites in the current epoch
    nb_vehicules: usize,
    /// current satellite within the epoch
    vehicule_ptr: usize,
    /// current observable within the satellite
    obs_ptr: usize,
    /// epoch descriptor differentiator
    epoch_diff: TextDiff,
    /// clock offset differentiator
    clock_diff: NumDiff,
    /// kernels of each observable of each satellite
    sv_diff: Vec<Slot>,
    /// observables whose data kernel is re-seeded at its next sample
    forced_init: Vec<(Sv, usize)>,
}

impl Compressor {
    /// The compressor's invariant: counters within their bounds, two flag
    /// characters per observable seen of the current satellite, and every
    /// data kernel armed at order 3.
    pub closed spec fn wf(&self) -> bool {
        &&& self.nb_vehicules <= 99
        &&& self.vehicule_ptr <= self.nb_vehicules
        &&& (self.state == State::Body ==> self.vehicule_ptr < self.nb_vehicules)
        &&& (self.state == State::EpochDescriptor ==> self.vehicule_ptr == 0 && self.obs_ptr == 0)
        &&& self.flags_descriptor@.len() == 2 * self.obs_ptr
        &&& self.clock_diff.wf()
        &&& forall|k: int| 0 <= k < self.sv_diff@.len() ==> (#[trigger] self.sv_diff@[k]).kernel.num.wf()
            && self.sv_diff@[k].kernel.num.spec_order() == 3
    }

    pub closed spec fn spec_state(&self) -> State {
        self.state
    }

    pub closed spec fn is_first_epoch(&self) -> bool {
        self.first_epoch
    }

    pub closed spec fn descriptor_lines(&self) -> nat {
        self.epoch_ptr as nat
    }

    pub closed spec fn vehicule_index(&self) -> nat {
        self.vehicule_ptr as nat
    }

    pub closed spec fn vehicule_count(&self) -> nat {
        self.nb_vehicules as nat
    }

    pub closed spec fn current_obs(&self) -> nat {
        self.obs_ptr as nat
    }

    /// The last descriptor the epoch differentiator saw.
    pub closed spec fn epoch_state(&self) -> Seq<char> {
        self.epoch_diff.state()
    }

    /// The current epoch descriptor, as gathered so far.
    pub closed spec fn descriptor(&self) -> Seq<char> {
        self.epoch_descriptor@
    }

    /// Flags gathered for the current satellite.
    pub closed spec fn flags(&self) -> Seq<char> {
        self.flags_descriptor@
    }

    /// Whether the data kernel of observable `i` of `sv` is re-seeded at its
    /// next sample.
    pub closed spec fn pending(&self, sv: Sv, i: nat) -> bool {
        i <= usize::MAX && self.forced_init@.contains((sv, i as usize))
    }

    /// Whether observable `i` of `sv` has its kernels.
    pub closed spec fn has_kernel(&self, sv: Sv, i: nat) -> bool {
        find_slot(self.sv_diff@, sv, i) is Some
    }

    /// Whether some observable of `sv` has its kernels.
    pub closed spec fn knows(&self, sv: Sv) -> bool {
        sv_known(self.sv_diff@, sv)
    }

    /// State of the loss-of-lock flag kernel of observable `i` of `sv`.
    pub closed spec fn lli_state(&self, sv: Sv, i: nat) -> Seq<char> {
        match find_slot(self.sv_diff@, sv, i) {
            Some(k) => self.sv_diff@[k as int].kernel.lli.state(),
            None => Seq::empty(),
        }
    }

    /// State of the signal strength flag kernel of observable `i` of `sv`.
    pub closed spec fn ssi_state(&self, sv: Sv, i: nat) -> Seq<char> {
        match find_slot(self.sv_diff@, sv, i) {
            Some(k) => self.sv_diff@[k as int].kernel.ssi.state(),
            None => Seq::empty(),
        }
    }

    /// What the data field `d` of observable `i` of `sv` emits: a space when
    /// it holds no value; `3&<x> ` when the observable has no kernel yet or
    /// is to be re-seeded; otherwise the kernel's difference and a space.
    pub open spec fn data_token(&self, sv: Sv, i: nat, d: Seq<char>) -> Seq<char> {
        match milli_value(trim(d)) {
            None => seq![' '],
            Some(x) => if !self.has_kernel(sv, i) || self.pending(sv, i) {
                seq!['3', '&'] + int_text(x) + seq![' ']
            } else {
                let h = self.history(sv, i);
                int_text(delta(h.push(x), h.len())) + seq![' ']
            },
        }
    }

    /// The two flag characters that observable `i` of `sv` adds, given its
    /// data field `d` and its flags `f`: two spaces when the value or both
    /// flags are missing; the flags as their kernels encode them when the
    /// observable has kernels; the flags themselves when it has none, a
    /// space standing for a missing signal strength flag.
    pub open spec fn flag_token(&self, sv: Sv, i: nat, d: Seq<char>, f: Seq<char>) -> Seq<char> {
        if milli_value(trim(d)) is None || trim(f).len() == 0 {
            seq![' ', ' ']
        } else if self.has_kernel(sv, i) {
            text_delta(self.lli_state(sv, i), seq![f[0]]) + (if f.len() >= 2 {
                text_delta(self.ssi_state(sv, i), seq![f[1]])
            } else {
                seq![' ']
            })
        } else {
            seq![f[0]] + (if f.len() >= 2 { seq![f[1]] } else { seq![' '] })
        }
    }

    /// Whether `self` and `o` agree on everything the encoding reads.
    pub closed spec fn same_views(&self, o: &Compressor) -> bool {
        &&& self.state == o.state
        &&& self.first_epoch == o.first_epoch
        &&& self.epoch_ptr == o.epoch_ptr
        &&& self.epoch_descriptor@ == o.epoch_descriptor@
        &&& self.flags_descriptor@ == o.flags_descriptor@
        &&& self.nb_vehicules == o.nb_vehicules
        &&& self.vehicule_ptr == o.vehicule_ptr
        &&& self.obs_ptr == o.obs_ptr
        &&& self.sv_diff@ == o.sv_diff@
        &&& self.forced_init@ == o.forced_init@
    }

    /// Data tokens of the first `m` fields of body line `line`, for
    /// observables `p`, `p + 1`, ... of `sv`.
    pub open spec fn line_data(&self, sv: Sv, p: nat, line: Seq<char>, m: nat) -> Seq<char>
        decreases m,
    {
        if m == 0 {
            Seq::empty()
        } else {
            self.line_data(sv, p, line, (m - 1) as nat) + self.data_token(sv, (p + m - 1) as nat, field_data(line, (m - 1) as nat))
        }
    }

    /// Flag characters of the first `m` fields of body line `line`.
    pub open spec fn line_flags(&self, sv: Sv, p: nat, line: Seq<char>, m: nat) -> Seq<char>
        decreases m,
    {
        if m == 0 {
            Seq::empty()
        } else {
            self.line_flags(sv, p, line, (m - 1) as nat) + self.flag_token(sv, (p + m - 1) as nat,
                field_data(line, (m - 1) as nat), field_flags(line, (m - 1) as nat))
        }
    }

    /// The current satellite and its observable count, when body line of
    /// `len` characters fits in what is left of the satellite.
    pub open spec fn body_fit(&self, header: &Header, len: nat) -> Option<(Sv, nat)> {
        match vehicule_at(self.descriptor(), self.vehicule_index(), header.constellation) {
            Some(sv) => match header.nb_obs(sv.constellation) {
                Some(n) => if self.current_obs() + nb_fields(len) <= n {
                    Some((sv, n))
                } else {
                    None
                },
                None => None,
            },
            None => None,
        }
    }

    /// The current satellite and its observable count, when a body line can
    /// be taken for it: the satellite is identified, its constellation
    /// declares its observables, and it is not past its last one.
    pub open spec fn body_target(&self, header: &Header) -> Option<(Sv, nat)> {
        match vehicule_at(self.descriptor(), self.vehicule_index(), header.constellation) {
            Some(sv) => match header.nb_obs(sv.constellation) {
                Some(n) => if self.current_obs() <= n {
                    Some((sv, n))
                } else {
                    None
                },
                None => None,
            },
            None => None,
        }
    }

    /// Samples kept by the data kernel of observable `i` of `sv`.
    pub closed spec fn history(&self, sv: Sv, i: nat) -> Seq<int> {
        match find_slot(self.sv_diff@, sv, i) {
            Some(k) => self.sv_diff@[k as int].kernel.num.history(),
            None => Seq::empty(),
        }
    }

    /// Creates a compressor that has seen nothing yet.
    pub fn new() -> (r: Compressor)
        ensures
            r.wf(),
            r.spec_state() == State::EpochDescriptor,
            r.is_first_epoch(),
            r.descriptor_lines() == 0,
            r.descriptor() == Seq::<char>::empty(),
            r.flags() == Seq::<char>::empty(),
            r.vehicule_count() == 0,
            r.vehicule_index() == 0,
            r.current_obs() == 0,
            forall|sv: Sv, i: nat| !r.has_kernel(sv, i) && !r.pending(sv, i),
    {
        let clock_diff = match NumDiff::new(MAX_COMPRESSION_ORDER) {
            Ok(k) => k,
            Err(_) => vstd::pervasive::unreached(),
        };
        Compressor {
            state: State::default(),
            first_epoch: true,
            epoch_ptr: 0,
            epoch_descriptor: Vec::new(),
            flags_descriptor: Vec::new(),
            nb_vehicules: 0,
            vehicule_ptr: 0,
            obs_ptr: 0,
            epoch_diff: TextDiff::new(),
            clock_diff,
            sv_diff: Vec::new(),
            forced_init: Vec::new(),
        }
    }

    /// Satellite of the current body line, read from the stored descriptor.
    fn current_vehicule(&self, header: &Header) -> (r: Result<Sv, Error>)
        requires
            self.wf(),
        ensures
            match vehicule_at(self.epoch_descriptor@, self.vehicule_ptr as nat, header.constellation) {
                Some(sv) => r == Ok::<Sv, Error>(sv),
                None => r == Err::<Sv, Error>(Error::VehiculeIdentificationError),
            },
    {
        let min: usize = 32 + 3 * self.vehicule_ptr;
        if min + 3 > self.epoch_descriptor.len() {
            return Err(Error::VehiculeIdentificationError);
        }
        let (b, e) = trim_bounds(&self.epoch_descriptor, min, min + 3);
        if b == e {
            return Err(Error::VehiculeIdentificationError);
        }
        let t = slice_chars(&self.epoch_descriptor, b, e);
        let c0 = t[0];
        if '0' <= c0 && c0 <= '9' {
            match header.constellation {
                Some(c) => {
                    let mut full: Vec<char> = Vec::new();
                    full.push(c);
                    push_all(&mut full, &t);
                    proof {
                        assert(full@ =~= seq![c] + t@);
                    }
                    match Sv::parse(&full) {
                        Some(sv) => Ok(sv),
                        None => Err(Error::VehiculeIdentificationError),
                    }
                },
                None => Err(Error::VehiculeIdentificationError),
            }
        } else {
            match Sv::parse(&t) {
                Some(sv) => Ok(sv),
                None => Err(Error::VehiculeIdentificationError),
            }
        }
    }

    /// Concludes the current epoch.
    fn conclude_epoch(&mut self)
        ensures
            final(self).state == State::EpochDescriptor,
            final(self).epoch_ptr == 0,
            final(self).vehicule_ptr == 0,
            final(self).epoch_descriptor@.len() == 0,
            final(self).first_epoch == old(self).first_epoch,
            final(self).obs_ptr == old(self).obs_ptr,
            final(self).flags_descriptor == old(self).flags_descriptor,
            final(self).nb_vehicules == old(self).nb_vehicules,
            final(self).clock_diff == old(self).clock_diff,
            final(self).epoch_diff == old(self).epoch_diff,
            final(self).sv_diff == old(self).sv_diff,
            final(self).forced_init == old(self).forced_init,
    {
        self.epoch_ptr = 0;
        self.vehicule_ptr = 0;
        self.epoch_descriptor.clear();
        self.state.reset();
    }

    /// Concludes the current satellite: its flags, right-trimmed, end its
    /// line; the epoch concludes with its last satellite.
    fn conclude_vehicule(&mut self, out: &mut Vec<char>)
        requires
            old(self).wf(),
            old(self).state == State::Body,
        ensures
            final(self).wf(),
            final(out)@ == old(out)@ + trim_end(old(self).flags_descriptor@) + seq!['\n'],
            final(self).obs_ptr == 0,
            final(self).vehicule_ptr == (if old(self).vehicule_ptr + 1 == old(self).nb_vehicules { 0 } else { old(self).vehicule_ptr + 1 }),
            final(self).state == (if old(self).vehicule_ptr + 1 == old(self).nb_vehicules { State::EpochDescriptor } else { State::Body }),
            final(self).state == State::EpochDescriptor ==> final(self).epoch_ptr == 0
                && final(self).epoch_descriptor@.len() == 0,
            final(self).state == State::Body ==> final(self).epoch_ptr == old(self).epoch_ptr
                && final(self).epoch_descriptor == old(self).epoch_descriptor,
            final(self).flags_descriptor@.len() == 0,
            final(self).epoch_diff == old(self).epoch_diff,
            final(self).clock_diff == old(self).clock_diff,
            final(self).first_epoch == old(self).first_epoch,
            final(self).sv_diff == old(self).sv_diff,
            final(self).forced_init == old(self).forced_init,
            final(self).nb_vehicules == old(self).nb_vehicules,
    {
        let (_, e) = trim_bounds(&self.flags_descriptor, 0, self.flags_descriptor.len());
        proof {
            assert(self.flags_descriptor@.subrange(0, self.flags_descriptor@.len() as int) =~= self.flags_descriptor@);
        }
        push_range(out, &self.flags_descriptor, 0, e);
        out.push('\n');
        self.flags_descriptor.clear();
        self.obs_ptr = 0;
        self.vehicule_ptr = self.vehicule_ptr + 1;
        if self.vehicule_ptr == self.nb_vehicules {
            self.conclude_epoch();
        }
    }

    /// Handles a line of an epoch descriptor. With the descriptor's last line
    /// the reshaped descriptor is emitted (literally for the first epoch,
    /// through the differentiator after it) with the clock offset line, and
    /// the body begins. A descriptor that never ends (it announces no
    /// satellite) is refused once its line count would overflow.
    fn descriptor_line(&mut self, line: &Vec<char>, out: &mut Vec<char>) -> (r: Result<(), Error>)
        requires
            old(self).wf(),
            old(self).state == State::EpochDescriptor,
        ensures
            final(self).wf(),
            r != Err::<(), Error>(Error::NotObsRinexData),
            old(self).epoch_ptr == 0 && sat_count(line@) is None ==> r == Err::<(), Error>(Error::MalformedEpochDescriptor),
            r is Ok && old(self).first_epoch && final(self).state == State::Body ==>
                final(out)@ == old(out)@ + reshaped(old(self).epoch_descriptor@ + line@ + seq!['\n']) + seq!['\n'],
            ({
                let d1 = old(self).epoch_descriptor@ + line@ + seq!['\n'];
                let nb: nat = if old(self).epoch_ptr == 0 { match sat_count(line@) { Some(k) => k, None => 0 } } else { old(self).nb_vehicules as nat };
                let complete = old(self).epoch_ptr + 1 == nb / 12 + (if nb % 12 == 0 { 0nat } else { 1nat });
                &&& (old(self).epoch_ptr != 0 || sat_count(line@) is Some) && old(self).epoch_ptr < usize::MAX ==> r is Ok
                &&& r is Ok ==> final(self).nb_vehicules == nb && final(self).first_epoch == (old(self).first_epoch && !complete)
                &&& r is Ok && complete ==> final(self).state == State::Body && final(self).vehicule_ptr == 0
                    && final(self).obs_ptr == 0 && final(self).epoch_descriptor@ == reshaped(d1)
                    && final(self).epoch_diff.state() == reshaped(d1)
                    && final(out)@ == old(out)@ + (if old(self).first_epoch { reshaped(d1) + seq!['\n'] } else {
                        trim_end(text_delta(old(self).epoch_diff.state(), reshaped(d1))) + seq!['\n', '\n']
                    })
                &&& r is Ok && !complete ==> final(self).state == State::EpochDescriptor && final(out)@ == old(out)@
                    && final(self).epoch_descriptor@ == d1 && final(self).epoch_ptr == old(self).epoch_ptr + 1
                    && final(self).epoch_diff == old(self).epoch_diff
            }),
            old(self).epoch_ptr == 0 && (sat_count(line@) matches Some(k) && 1 <= k <= 12) ==> r is Ok
                && final(self).state == State::Body && !final(self).first_epoch
                && final(self).vehicule_ptr == 0 && final(self).obs_ptr == 0
                && final(self).epoch_descriptor@ == reshaped(old(self).epoch_descriptor@ + line@ + seq!['\n']),
            final(self).sv_diff == old(self).sv_diff,
            final(self).forced_init == old(self).forced_init,
    {
        if self.epoch_ptr == 0 {
            self.nb_vehicules = determine_nb_vehicules(line)?;
        }
        if self.epoch_ptr == usize::MAX {
            return Err(Error::MalformedEpochDescriptor);
        }
        self.epoch_ptr = self.epoch_ptr + 1;
        let ghost d0 = self.epoch_descriptor@;
        push_all(&mut self.epoch_descriptor, line);
        self.epoch_descriptor.push('\n');
        proof {
            assert(self.epoch_descriptor@ =~= d0 + line@ + seq!['\n']);
        }
        let nb_lines = div_ceil(self.nb_vehicules, 12);
        if self.epoch_ptr == nb_lines {
            let d = reshape(&self.epoch_descriptor);
            if self.first_epoch {
                self.epoch_diff.init(&d);
                push_all(out, &d);
                out.push('\n');
                self.first_epoch = false;
            } else {
                let c = self.epoch_diff.compress(&d);
                let (_, e) = trim_bounds(&c, 0, c.len());
                push_range(out, &c, 0, e);
                out.push('\n');
                out.push('\n');
                proof {
                    assert(c@.subrange(0, c@.len() as int) =~= c@);
                }
            }
            self.epoch_descriptor = d;
            self.obs_ptr = 0;
            self.vehicule_ptr = 0;
            self.flags_descriptor.clear();
            self.state = State::Body;
        }
        Ok(())
    }

    /// Appends `3&<x> `, the text of a sample that seeds its kernel.
    fn push_seed(out: &mut Vec<char>, x: i64)
        ensures
            final(out)@ == old(out)@ + seq!['3', '&'] + int_text(x as int) + seq![' '],
    {
        out.push('3');
        out.push('&');
        push_int(out, x);
        out.push(' ');
        proof {
            assert(final(out)@ =~= old(out)@ + seq!['3', '&'] + int_text(x as int) + seq![' ']);
        }
    }

    /// Encodes observable field `line[from..to]` (data in its first 14
    /// characters, then the two flags) of satellite `sv`: the data goes to
    /// `out`, the flags to the satellite's flag descriptor. The satellite's
    /// next observable follows.
    #[verifier::rlimit(100)]
    pub fn encode_observable(&mut self, sv: Sv, line: &Vec<char>, from: usize, to: usize, out: &mut Vec<char>)
        requires
            old(self).wf(),
            from <= to <= line@.len(),
            to - from <= 16,
            old(self).current_obs() < usize::MAX,
            old(self).spec_state() == State::Body,
        ensures
            final(self).wf(),
            final(self).spec_state() == old(self).spec_state(),
            final(self).current_obs() == old(self).current_obs() + 1,
            final(self).vehicule_index() == old(self).vehicule_index(),
            final(self).vehicule_count() == old(self).vehicule_count(),
            final(self).descriptor_lines() == old(self).descriptor_lines(),
            final(self).descriptor() == old(self).descriptor(),
            final(self).is_first_epoch() == old(self).is_first_epoch(),
            final(self).flags().len() == old(self).flags().len() + 2,
            ({
                let de = if to - from < 14 { to as int } else { from + 14 };
                let d = line@.subrange(from as int, de);
                let f = line@.subrange(de, to as int);
                let p = old(self).current_obs();
                &&& forall|s2: Sv| #[trigger] final(self).knows(s2) == (old(self).knows(s2) || (s2 == sv && milli_value(trim(d)) is Some))
                &&& final(out)@ == old(out)@ + old(self).data_token(sv, p, d)
                &&& final(self).flags() == old(self).flags() + old(self).flag_token(sv, p, d, f)
                &&& forall|s2: Sv, i2: nat| !(s2 == sv && i2 == p) ==> {
                    &&& final(self).has_kernel(s2, i2) == old(self).has_kernel(s2, i2)
                    &&& final(self).history(s2, i2) == old(self).history(s2, i2)
                    &&& final(self).lli_state(s2, i2) == old(self).lli_state(s2, i2)
                    &&& final(self).ssi_state(s2, i2) == old(self).ssi_state(s2, i2)
                    &&& final(self).pending(s2, i2) == old(self).pending(s2, i2)
                }
                &&& milli_value(trim(d)) is None ==> final(self).has_kernel(sv, p) == old(self).has_kernel(sv, p)
                    && final(self).history(sv, p) == old(self).history(sv, p)
                    && final(self).lli_state(sv, p) == old(self).lli_state(sv, p)
                    && final(self).ssi_state(sv, p) == old(self).ssi_state(sv, p)
                &&& milli_value(trim(d)) is Some && !old(self).has_kernel(sv, p) && trim(f).len() == 0 ==> {
                    let seed = if old(self).knows(sv) { seq![' '] } else { seq!['&'] };
                    final(self).lli_state(sv, p) == seed && final(self).ssi_state(sv, p) == seed
                }
                &&& milli_value(trim(d)) is Some && trim(f).len() > 0 ==> final(self).lli_state(sv, p) == seq![f[0]]
                    && final(self).ssi_state(sv, p) == (if f.len() >= 2 { seq![f[1]] } else if old(self).has_kernel(sv, p) {
                        old(self).ssi_state(sv, p)
                    } else {
                        seq!['&']
                    })
                &&& milli_value(trim(d)) is Some && old(self).has_kernel(sv, p) && trim(f).len() == 0 ==>
                    final(self).lli_state(sv, p) == old(self).lli_state(sv, p)
                    && final(self).ssi_state(sv, p) == old(self).ssi_state(sv, p)
            }),
            ({
                let de = if to - from < 14 { to as int } else { from + 14 };
                let p = old(self).current_obs();
                let h = old(self).history(sv, p);
                &&& trim(line@.subrange(de, to as int)).len() == 0 ==> final(self).flags() == old(self).flags() + seq![' ', ' ']
                &&& match milli_value(trim(line@.subrange(from as int, de))) {
                    None => final(out)@ == old(out)@ + seq![' ']
                        && final(self).flags() == old(self).flags() + seq![' ', ' ']
                        && final(self).pending(sv, p),
                    Some(x) => {
                        &&& (!old(self).has_kernel(sv, p) || old(self).pending(sv, p)) ==>
                            final(out)@ == old(out)@ + seq!['3', '&'] + int_text(x) + seq![' ']
                            && final(self).history(sv, p) == seq![x]
                        &&& !final(self).pending(sv, p)
                        &&& old(self).has_kernel(sv, p) && !old(self).pending(sv, p) ==>
                            final(out)@ == old(out)@ + int_text(delta(h.push(x), h.len())) + seq![' ']
                            && final(self).history(sv, p) == shift_in(h, x, 3)
                        &&& final(self).has_kernel(sv, p)
                    },
                }
            }),
    {
        let de: usize = if to - from < 14 { to } else { from + 14 };
        let (b, e) = trim_bounds(line, from, de);
        let p = self.obs_ptr;
        match parse_milli(line, b, e) {
            None => {
                out.push(' ');
                self.flags_descriptor.push(' ');
                self.flags_descriptor.push(' ');
                schedule(&mut self.forced_init, sv, p);
                proof {
                    assert(final(out)@ =~= old(out)@ + seq![' ']);
                    assert(self.flags_descriptor@ =~= old(self).flags_descriptor@ + seq![' ', ' ']);
                    assert(self.forced_init@.contains((sv, p)));
                    assert forall|s2: Sv, i2: nat| !(s2 == sv && i2 == p) implies
                        self.pending(s2, i2) == old(self).pending(s2, i2) by {
                        if i2 <= usize::MAX {
                            assert((s2, i2 as usize) != (sv, p));
                        }
                    }
                }
            },
            Some(x) => {
                let (fb, fe) = trim_bounds(line, de, to);
                let blank = fb == fe;
                let lli: char = if de < to { line[de] } else { ' ' };
                let has_ssi = to - de >= 2;
                let ssi: char = if has_ssi { line[de + 1] } else { ' ' };
                proof {
                    let f = line@.subrange(de as int, to as int);
                    if de < to {
                        assert(f[0] == lli);
                    }
                    if has_ssi {
                        assert(f[1] == ssi);
                    }
                }
                match lookup(&self.sv_diff, sv, p) {
                    Some(k) => {
                        let ghost old_slots = self.sv_diff@;
                        proof {
                            lemma_find_in_bounds(self.sv_diff@, sv, p as nat);
                        }
                        if is_pending(&self.forced_init, sv, p) {
                            Self::push_seed(out, x);
                            let _ = self.sv_diff[k].kernel.num.init(3, x);
                            consume(&mut self.forced_init, sv, p);
                        } else {
                            let d = self.sv_diff[k].kernel.num.compress(x);
                            push_int(out, d);
                            out.push(' ');
                        }
                        if blank {
                            self.flags_descriptor.push(' ');
                            self.flags_descriptor.push(' ');
                            assert(self.flags_descriptor@ =~= old(self).flags_descriptor@ + seq![' ', ' ']);
                        } else {
                            let a = self.sv_diff[k].kernel.lli.compress(&vec![lli]);
                            push_all(&mut self.flags_descriptor, &a);
                            if has_ssi {
                                let c = self.sv_diff[k].kernel.ssi.compress(&vec![ssi]);
                                push_all(&mut self.flags_descriptor, &c);
                            } else {
                                self.flags_descriptor.push(' ');
                            }
                        }
                        proof {
                            assert forall|j: int| 0 <= j < self.sv_diff@.len() implies (#[trigger] self.sv_diff@[j]).kernel.num.wf()
                                && self.sv_diff@[j].kernel.num.spec_order() == 3 by {
                                if j != k {
                                    assert(self.sv_diff@[j] == old_slots[j]);
                                }
                            }
                            assert(same_keys(old_slots, self.sv_diff@));
                            lemma_find_same_keys(old_slots, self.sv_diff@, sv, p as nat);
                            assert forall|s2: Sv, i2: nat| !(s2 == sv && i2 == p) implies {
                                &&& self.has_kernel(s2, i2) == old(self).has_kernel(s2, i2)
                                &&& self.history(s2, i2) == old(self).history(s2, i2)
                                &&& self.lli_state(s2, i2) == old(self).lli_state(s2, i2)
                                &&& self.ssi_state(s2, i2) == old(self).ssi_state(s2, i2)
                                &&& self.pending(s2, i2) == old(self).pending(s2, i2)
                            } by {
                                lemma_find_same_keys(old_slots, self.sv_diff@, s2, i2);
                                lemma_find_in_bounds(old_slots, s2, i2);
                                if let Some(k2) = find_slot(old_slots, s2, i2) {
                                    assert(k2 != k);
                                    assert(self.sv_diff@[k2 as int] == old_slots[k2 as int]);
                                }
                                if i2 <= usize::MAX {
                                    assert((s2, i2 as usize) != (sv, p));
                                }
                            }
                        }
                    },
                    None => {
                        let known = knows_sv(&self.sv_diff, sv);
                        let mut num = match NumDiff::new(MAX_COMPRESSION_ORDER) {
                            Ok(n) => n,
                            Err(_) => vstd::pervasive::unreached(),
                        };
                        let _ = num.init(3, x);
                        Self::push_seed(out, x);
                        let mut lli_td = TextDiff::new();
                        let mut ssi_td = TextDiff::new();
                        if blank {
                            let seed = if known { vec![' '] } else { vec!['&'] };
                            lli_td.init(&seed);
                            ssi_td.init(&seed);
                            self.flags_descriptor.push(' ');
                            self.flags_descriptor.push(' ');
                            assert(self.flags_descriptor@ =~= old(self).flags_descriptor@ + seq![' ', ' ']);
                        } else {
                            lli_td.init(&vec![lli]);
                            self.flags_descriptor.push(lli);
                            if has_ssi {
                                ssi_td.init(&vec![ssi]);
                                self.flags_descriptor.push(ssi);
                            } else {
                                ssi_td.init(&vec!['&']);
                                self.flags_descriptor.push(' ');
                            }
                        }
                        consume(&mut self.forced_init, sv, p);
                        let ghost old_slots = self.sv_diff@;
                        self.sv_diff.push(Slot { sv, index: p, kernel: Kernel { num, lli: lli_td, ssi: ssi_td } });
                        proof {
                            assert forall|j: int| 0 <= j < self.sv_diff@.len() implies (#[trigger] self.sv_diff@[j]).kernel.num.wf()
                                && self.sv_diff@[j].kernel.num.spec_order() == 3 by {
                                if j < old_slots.len() {
                                    assert(self.sv_diff@[j] == old_slots[j]);
                                }
                            }
                            assert(self.sv_diff@.drop_last() =~= old_slots);
                            assert forall|s2: Sv, i2: nat| !(s2 == sv && i2 == p) implies {
                                &&& self.has_kernel(s2, i2) == old(self).has_kernel(s2, i2)
                                &&& self.history(s2, i2) == old(self).history(s2, i2)
                                &&& self.lli_state(s2, i2) == old(self).lli_state(s2, i2)
                                &&& self.ssi_state(s2, i2) == old(self).ssi_state(s2, i2)
                                &&& self.pending(s2, i2) == old(self).pending(s2, i2)
                            } by {
                                lemma_find_in_bounds(old_slots, s2, i2);
                                if let Some(k2) = find_slot(old_slots, s2, i2) {
                                    assert(self.sv_diff@[k2 as int] == old_slots[k2 as int]);
                                }
                                if i2 <= usize::MAX {
                                    assert((s2, i2 as usize) != (sv, p));
                                }
                            }
                        }
                    },
                }
            },
        }
        self.obs_ptr = self.obs_ptr + 1;
    }

    /// The satellite under way and its observable count, when a blank line
    /// now stands for omitted observables: in a body, past the satellite's
    /// first observable and before its last one.
    pub open spec fn blank_target(&self, header: &Header) -> Option<(Sv, nat)> {
        if self.spec_state() == State::Body && self.current_obs() > 0 {
            match vehicule_at(self.descriptor(), self.vehicule_index(), header.constellation) {
                Some(sv) => match header.nb_obs(sv.constellation) {
                    Some(n) => if self.current_obs() < n {
                        Some((sv, n))
                    } else {
                        None
                    },
                    None => None,
                },
                None => None,
            }
        } else {
            None
        }
    }

    /// A blank line while a satellite is under way: up to five of its
    /// observables were omitted. Each gets a space in the output, two in the
    /// flags and a re-seed mark; the satellite concludes with its last
    /// observable. Returns whether the line was taken so.
    fn early_blank(&mut self, header: &Header, out: &mut Vec<char>) -> (r: bool)
        requires
            old(self).wf(),
        ensures
            final(self).wf(),
            r == old(self).blank_target(header) is Some,
            !r ==> *final(self) == *old(self) && final(out)@ == old(out)@,
            r ==> old(self).state == State::Body,
            old(self).blank_target(header) matches Some((sv, n)) ==> {
                let o = old(self).current_obs();
                let m: nat = if n - o < 5 { (n - o) as nat } else { 5 };
                &&& final(out)@ == old(out)@ + blanks(m) + (if o + m == n {
                    trim_end(old(self).flags() + blanks(2 * m)) + seq!['\n']
                } else {
                    Seq::empty()
                })
                &&& forall|j: nat| o <= j < o + m ==> final(self).pending(sv, j)
                &&& forall|s2: Sv, i2: nat| !(s2 == sv && o <= i2 < o + m) ==> final(self).pending(s2, i2) == old(self).pending(s2, i2)
                &&& final(self).sv_diff == old(self).sv_diff
                &&& final(self).first_epoch == old(self).first_epoch
                &&& final(self).epoch_diff == old(self).epoch_diff
                &&& final(self).nb_vehicules == old(self).nb_vehicules
                &&& final(self).state == State::Body ==> final(self).epoch_descriptor == old(self).epoch_descriptor
                &&& final(self).state == State::EpochDescriptor ==> final(self).epoch_descriptor@.len() == 0 && final(self).epoch_ptr == 0
                &&& o + m < n ==> final(self).obs_ptr == o + m && final(self).flags() == old(self).flags() + blanks(2 * m)
                    && final(self).vehicule_ptr == old(self).vehicule_ptr && final(self).state == State::Body
                    && final(self).epoch_descriptor == old(self).epoch_descriptor
                &&& o + m == n ==> final(self).obs_ptr == 0 && final(self).flags().len() == 0
                    && final(self).vehicule_ptr == (if old(self).vehicule_ptr + 1 == old(self).nb_vehicules { 0 } else { old(self).vehicule_ptr + 1 })
                    && final(self).state == (if old(self).vehicule_ptr + 1 == old(self).nb_vehicules { State::EpochDescriptor } else { State::Body })
            },
    {
        if self.state != State::Body || self.obs_ptr == 0 {
            return false;
        }
        let sv = match self.current_vehicule(header) {
            Ok(sv) => sv,
            Err(_) => return false,
        };
        let n = match header.nb_observables(sv.constellation) {
            Some(n) => n,
            None => return false,
        };
        if self.obs_ptr >= n {
            return false;
        }
        let nb_missing: usize = if n - self.obs_ptr < 5 { n - self.obs_ptr } else { 5 };
        let o: usize = self.obs_ptr;
        let stop: usize = self.obs_ptr + nb_missing;
        let ghost out0 = out@;
        let ghost flags0 = self.flags_descriptor@;
        while self.obs_ptr < stop
            invariant
                self.wf(),
                self.state == State::Body,
                o <= self.obs_ptr <= stop <= n,
                out@ == out0 + blanks((self.obs_ptr - o) as nat),
                self.flags_descriptor@ == flags0 + blanks((2 * (self.obs_ptr - o)) as nat),
                self.sv_diff == old(self).sv_diff,
                self.first_epoch == old(self).first_epoch,
                self.vehicule_ptr == old(self).vehicule_ptr,
                self.nb_vehicules == old(self).nb_vehicules,
                self.epoch_descriptor == old(self).epoch_descriptor,
                self.epoch_diff == old(self).epoch_diff,
                forall|j: nat| o <= j < self.obs_ptr ==> self.pending(sv, j),
                forall|s2: Sv, i2: nat| !(s2 == sv && o <= i2 < self.obs_ptr) ==> self.pending(s2, i2) == old(self).pending(s2, i2),
            decreases stop - self.obs_ptr,
        {
            let ghost top = *self;
            out.push(' ');
            self.flags_descriptor.push(' ');
            self.flags_descriptor.push(' ');
            let ghost before = *self;
            let cur: usize = self.obs_ptr;
            schedule(&mut self.forced_init, sv, cur);
            self.obs_ptr = cur + 1;
            proof {
                assert(out@ =~= out0 + blanks((cur + 1 - o) as nat));
                assert(self.flags_descriptor@ =~= flags0 + blanks((2 * (cur + 1 - o)) as nat));
                assert forall|s2: Sv, i2: nat| !(s2 == sv && o <= i2 < cur + 1) implies
                    self.pending(s2, i2) == old(self).pending(s2, i2) by {
                    assert(top.pending(s2, i2) == old(self).pending(s2, i2));
                    assert(before.forced_init == top.forced_init);
                    if i2 <= usize::MAX {
                        assert((s2, i2 as usize) != (sv, cur));
                    }
                }
                assert(self.pending(sv, cur as nat));
                assert forall|j: nat| o <= j < cur + 1 implies self.pending(sv, j) by {
                    if j < cur {
                        assert(top.pending(sv, j));
                        assert(before.forced_init == top.forced_init);
                        assert(before.pending(sv, j));
                    }
                }
            }
        }
        if self.obs_ptr == n {
            let ghost mid = *self;
            self.conclude_vehicule(out);
            proof {
                assert(self.forced_init == mid.forced_init);
                assert forall|j: nat| o <= j < stop implies self.pending(sv, j) by {
                    assert(mid.pending(sv, j));
                }
                assert forall|s2: Sv, i2: nat| !(s2 == sv && o <= i2 < stop) implies
                    self.pending(s2, i2) == old(self).pending(s2, i2) by {
                    assert(mid.pending(s2, i2) == old(self).pending(s2, i2));
                }
            }
        }
        true
    }

    /// Handles a body line: each of its observable fields is encoded for the
    /// current satellite, which concludes with its last observable. When the
    /// line holds more fields than the satellite has left, the remaining
    /// ones were omitted: each gets a space and a re-seed mark, the satellite
    /// concludes, and `Ok(true)` asks for the line again, for the next
    /// satellite or as the next epoch's descriptor.
    fn body_line(&mut self, header: &Header, line: &Vec<char>, out: &mut Vec<char>) -> (r: Result<bool, Error>)
        requires
            old(self).wf(),
            old(self).state == State::Body,
        ensures
            final(self).wf(),
            r != Err::<bool, Error>(Error::NotObsRinexData),
            r == Ok::<bool, Error>(true) ==> final(self).nb_vehicules == old(self).nb_vehicules
                && (final(self).state == State::EpochDescriptor || final(self).vehicule_ptr == old(self).vehicule_ptr + 1),
            body_error(old(self).epoch_descriptor@, old(self).vehicule_ptr as nat, old(self).obs_ptr as nat, header)
                matches Some(e) ==> r == Err::<bool, Error>(e),
            old(self).body_fit(header, line@.len()) matches Some((sv, n)) ==> {
                let o = old(self).current_obs();
                let m = nb_fields(line@.len());
                let fl = old(self).flags() + old(self).line_flags(sv, o, line@, m);
                &&& forall|j: nat| j < m ==> #[trigger] field_effect(*old(self), *final(self), sv, o + j, field_data(line@, j), field_flags(line@, j),
                    sv_known_before(*old(self), sv, line@, j))
                &&& forall|s2: Sv, i2: nat| !(s2 == sv && o <= i2 < o + m) ==> #[trigger] kernel_same_at(*old(self), *final(self), s2, i2)
                    && final(self).pending(s2, i2) == old(self).pending(s2, i2)
                &&& forall|s2: Sv| s2 != sv ==> #[trigger] final(self).knows(s2) == old(self).knows(s2)
                &&& final(self).knows(sv) == sv_known_before(*old(self), sv, line@, m)
                &&& r == Ok::<bool, Error>(false)
                &&& final(out)@ == old(out)@ + old(self).line_data(sv, o, line@, m)
                    + (if o + m == n { trim_end(fl) + seq!['\n'] } else { Seq::empty() })
                &&& o + m < n ==> final(self).obs_ptr == o + m && final(self).flags() == fl
                    && final(self).state == State::Body && final(self).vehicule_ptr == old(self).vehicule_ptr
                &&& o + m == n ==> final(self).obs_ptr == 0 && final(self).flags().len() == 0
                    && final(self).vehicule_ptr == (if old(self).vehicule_ptr + 1 == old(self).nb_vehicules { 0 } else { old(self).vehicule_ptr + 1 })
                    && final(self).state == (if old(self).vehicule_ptr + 1 == old(self).nb_vehicules { State::EpochDescriptor } else { State::Body })
            },
            old(self).body_target(header) matches Some((sv, n)) ==> (old(self).body_fit(header, line@.len()) is None ==> {
                let o = old(self).current_obs();
                let m = (n - o) as nat;
                &&& r == Ok::<bool, Error>(true)
                &&& final(out)@ == old(out)@ + blanks(m) + trim_end(old(self).flags() + blanks(2 * m)) + seq!['\n']
                &&& forall|j: nat| o <= j < n ==> final(self).pending(sv, j)
                &&& forall|s2: Sv, i2: nat| !(s2 == sv && o <= i2 < n) ==> final(self).pending(s2, i2) == old(self).pending(s2, i2)
                &&& final(self).sv_diff == old(self).sv_diff
                &&& final(self).first_epoch == old(self).first_epoch
                &&& final(self).epoch_diff == old(self).epoch_diff
                &&& final(self).nb_vehicules == old(self).nb_vehicules
                &&& final(self).obs_ptr == 0 && final(self).flags().len() == 0
                &&& final(self).vehicule_ptr == (if old(self).vehicule_ptr + 1 == old(self).nb_vehicules { 0 } else { old(self).vehicule_ptr + 1 })
                &&& final(self).state == (if old(self).vehicule_ptr + 1 == old(self).nb_vehicules { State::EpochDescriptor } else { State::Body })
                &&& final(self).state == State::Body ==> final(self).epoch_descriptor == old(self).epoch_descriptor
                &&& final(self).state == State::EpochDescriptor ==> final(self).epoch_descriptor@.len() == 0 && final(self).epoch_ptr == 0
            }),
    {
        let nb_obs_line = div_ceil(line.len(), 17);
        let sv = match self.current_vehicule(header) {
            Ok(v) => v,
            Err(e) => return Err(e),
        };
        let n = match header.nb_observables(sv.constellation) {
            Some(n) => n,
            None => return Err(Error::VehiculeIdentificationError),
        };
        if self.obs_ptr > n {
            return Err(Error::MalformedEpochBody);
        }
        if nb_obs_line > n - self.obs_ptr {
            let o: usize = self.obs_ptr;
            let ghost out0 = out@;
            let ghost flags0 = self.flags_descriptor@;
            while self.obs_ptr < n
                invariant
                    self.wf(),
                    self.state == State::Body,
                    o <= self.obs_ptr <= n,
                    out@ == out0 + blanks((self.obs_ptr - o) as nat),
                    self.flags_descriptor@ == flags0 + blanks((2 * (self.obs_ptr - o)) as nat),
                    self.sv_diff == old(self).sv_diff,
                    self.first_epoch == old(self).first_epoch,
                    self.vehicule_ptr == old(self).vehicule_ptr,
                    self.nb_vehicules == old(self).nb_vehicules,
                    self.epoch_descriptor == old(self).epoch_descriptor,
                    self.epoch_diff == old(self).epoch_diff,
                    forall|j: nat| o <= j < self.obs_ptr ==> self.pending(sv, j),
                    forall|s2: Sv, i2: nat| !(s2 == sv && o <= i2 < self.obs_ptr) ==> self.pending(s2, i2) == old(self).pending(s2, i2),
                decreases n - self.obs_ptr,
            {
                let ghost top = *self;
                out.push(' ');
                self.flags_descriptor.push(' ');
                self.flags_descriptor.push(' ');
                let ghost before = *self;
                let cur: usize = self.obs_ptr;
                schedule(&mut self.forced_init, sv, cur);
                self.obs_ptr = cur + 1;
                proof {
                    assert(out@ =~= out0 + blanks((cur + 1 - o) as nat));
                    assert(self.flags_descriptor@ =~= flags0 + blanks((2 * (cur + 1 - o)) as nat));
                    assert forall|s2: Sv, i2: nat| !(s2 == sv && o <= i2 < cur + 1) implies
                        self.pending(s2, i2) == old(self).pending(s2, i2) by {
                        assert(top.pending(s2, i2) == old(self).pending(s2, i2));
                        assert(before.forced_init == top.forced_init);
                        if i2 <= usize::MAX {
                            assert((s2, i2 as usize) != (sv, cur));
                        }
                    }
                    assert(self.pending(sv, cur as nat));
                    assert forall|j: nat| o <= j < cur + 1 implies self.pending(sv, j) by {
                        if j < cur {
                            assert(top.pending(sv, j));
                            assert(before.forced_init == top.forced_init);
                            assert(before.pending(sv, j));
                        }
                    }
                }
            }
            let ghost mid = *self;
            self.conclude_vehicule(out);
            proof {
                assert(self.forced_init == mid.forced_init);
                assert forall|j: nat| o <= j < n implies self.pending(sv, j) by {
                    assert(mid.pending(sv, j));
                }
                assert forall|s2: Sv, i2: nat| !(s2 == sv && o <= i2 < n) implies
                    self.pending(s2, i2) == old(self).pending(s2, i2) by {
                    assert(mid.pending(s2, i2) == old(self).pending(s2, i2));
                }
            }
            return Ok(true);
        }
        let mut pos: usize = 0;
        let mut f: usize = 0;
        let ghost c0 = *self;
        let ghost out1 = out@;
        let o: usize = self.obs_ptr;
        while f < nb_obs_line
            invariant
                self.wf(),
                self.state == State::Body,
                self.obs_ptr + (nb_obs_line - f) <= n,
                self.obs_ptr == o + f,
                f <= nb_obs_line,
                pos == field_start(line@.len(), f as nat),
                out@ == out1 + c0.line_data(sv, o as nat, line@, f as nat),
                self.flags() == c0.flags() + c0.line_flags(sv, o as nat, line@, f as nat),
                self.vehicule_ptr == c0.vehicule_ptr,
                self.nb_vehicules == c0.nb_vehicules,
                self.first_epoch == c0.first_epoch,
                self.epoch_descriptor@ == c0.epoch_descriptor@,
                self.epoch_ptr == c0.epoch_ptr,
                forall|j: nat| j < f ==> #[trigger] field_effect(c0, *self, sv, (o as nat + j), field_data(line@, j), field_flags(line@, j),
                    sv_known_before(c0, sv, line@, j)),
                forall|s2: Sv, i2: nat| !(s2 == sv && o <= i2 < o + f) ==> #[trigger] kernel_same_at(c0, *self, s2, i2)
                    && self.pending(s2, i2) == c0.pending(s2, i2),
                forall|s2: Sv| s2 != sv ==> #[trigger] self.knows(s2) == c0.knows(s2),
                self.knows(sv) == sv_known_before(c0, sv, line@, f as nat),
                forall|i: nat| i >= o + f ==> {
                    &&& #[trigger] self.has_kernel(sv, i) == c0.has_kernel(sv, i)
                    &&& self.history(sv, i) == c0.history(sv, i)
                    &&& self.lli_state(sv, i) == c0.lli_state(sv, i)
                    &&& self.ssi_state(sv, i) == c0.ssi_state(sv, i)
                    &&& self.pending(sv, i) == c0.pending(sv, i)
                },
            decreases nb_obs_line - f,
        {
            let end: usize = if line.len() - pos < 16 { line.len() } else { pos + 16 };
            let ghost before = *self;
            self.encode_observable(sv, line, pos, end, out);
            proof {
                let i = (o + f) as nat;
                assert(before.has_kernel(sv, i) == c0.has_kernel(sv, i));
                assert(before.data_token(sv, i, field_data(line@, f as nat)) == c0.data_token(sv, i, field_data(line@, f as nat)));
                assert(before.flag_token(sv, i, field_data(line@, f as nat), field_flags(line@, f as nat))
                    == c0.flag_token(sv, i, field_data(line@, f as nat), field_flags(line@, f as nat)));
                assert(out@ =~= out1 + c0.line_data(sv, o as nat, line@, (f + 1) as nat));
                assert(self.flags() =~= c0.flags() + c0.line_flags(sv, o as nat, line@, (f + 1) as nat));
                let d = field_data(line@, f as nat);
                let fl = field_flags(line@, f as nat);
                lemma_field_effect(before, *self, sv, i, d, fl);
                assert(kernel_same_at(c0, before, sv, i));
                assert(field_effect(c0, *self, sv, i, d, fl, sv_known_before(c0, sv, line@, f as nat)));
                assert forall|j: nat| j < f + 1 implies #[trigger] field_effect(c0, *self, sv, (o as nat + j), field_data(line@, j), field_flags(line@, j),
                    sv_known_before(c0, sv, line@, j)) by {
                    if j < f {
                        assert(field_effect(c0, before, sv, (o as nat + j), field_data(line@, j), field_flags(line@, j), sv_known_before(c0, sv, line@, j)));
                        assert(kernel_same_at(before, *self, sv, (o as nat + j)));
                        assert(self.pending(sv, (o as nat + j)) == before.pending(sv, (o as nat + j)));
                    }
                }
                assert forall|s2: Sv, i2: nat| !(s2 == sv && o <= i2 < o + f + 1) implies #[trigger] kernel_same_at(c0, *self, s2, i2)
                    && self.pending(s2, i2) == c0.pending(s2, i2) by {
                    assert(kernel_same_at(c0, before, s2, i2));
                }
                assert forall|s2: Sv| s2 != sv implies #[trigger] self.knows(s2) == c0.knows(s2) by {
                    assert(before.knows(s2) == c0.knows(s2));
                }
                assert forall|j: nat| j >= o + f + 1 implies {
                    &&& #[trigger] self.has_kernel(sv, j) == c0.has_kernel(sv, j)
                    &&& self.history(sv, j) == c0.history(sv, j)
                    &&& self.lli_state(sv, j) == c0.lli_state(sv, j)
                    &&& self.ssi_state(sv, j) == c0.ssi_state(sv, j)
                    &&& self.pending(sv, j) == c0.pending(sv, j)
                } by {
                    assert(before.has_kernel(sv, j) == c0.has_kernel(sv, j));
                }
            }
            pos = end;
            f = f + 1;
        }
        let ghost c1 = *self;
        let ghost out2 = out@;
        if self.obs_ptr == n {
            self.conclude_vehicule(out);
        }
        proof {
            lemma_same_views_line(c0, *old(self), sv, o as nat, line@, nb_obs_line as nat);
            assert(c0 == *old(self));
            assert(self.sv_diff@ == c1.sv_diff@ && self.forced_init@ == c1.forced_init@);
            assert(self.knows(sv) == c1.knows(sv));
            assert forall|j: nat| j < nb_obs_line implies #[trigger] field_effect(c0, *self, sv, (o as nat + j), field_data(line@, j), field_flags(line@, j),
                sv_known_before(c0, sv, line@, j)) by {
                assert(field_effect(c0, c1, sv, (o as nat + j), field_data(line@, j), field_flags(line@, j), sv_known_before(c0, sv, line@, j)));
                assert(kernel_same_at(c1, *self, sv, (o as nat + j)));
                assert(self.pending(sv, (o as nat + j)) == c1.pending(sv, (o as nat + j)));
            }
            assert forall|s2: Sv, i2: nat| !(s2 == sv && o <= i2 < o + nb_obs_line) implies #[trigger] kernel_same_at(c0, *self, s2, i2)
                && self.pending(s2, i2) == c0.pending(s2, i2) by {
                assert(kernel_same_at(c0, c1, s2, i2));
            }
            assert forall|s2: Sv| s2 != sv implies #[trigger] self.knows(s2) == c0.knows(s2) by {
                assert(c1.knows(s2) == c0.knows(s2));
            }
        }
        Ok(false)
    }

    /// A line read as part of an epoch descriptor, as one step.
    #[verifier::rlimit(100)]
    fn descriptor_step(&mut self, header: &Header, line: &Vec<char>, out: &mut Vec<char>) -> (r: Result<bool, Error>)
        requires
            old(self).wf(),
            old(self).state == State::EpochDescriptor,
            !is_comment(line@),
        ensures
            final(self).wf(),
            line_step(*old(self), header, line@, old(out)@, *final(self), final(out)@, r),
            r != Ok::<bool, Error>(true),
    {
        let r = self.descriptor_line(line, out);
        proof {
            lemma_kernels_kept(*old(self), *self);
            lemma_pending_kept(*old(self), *self);
        }
        match r {
            Ok(()) => Ok(false),
            Err(e) => Err(e),
        }
    }

    /// A line read in a body, as one step.
    #[verifier::rlimit(100)]
    fn body_step(&mut self, header: &Header, line: &Vec<char>, out: &mut Vec<char>) -> (r: Result<bool, Error>)
        requires
            old(self).wf(),
            old(self).state == State::Body,
            !is_comment(line@),
            trim(line@).len() > 0 || old(self).blank_target(header) is None,
        ensures
            final(self).wf(),
            line_step(*old(self), header, line@, old(out)@, *final(self), final(out)@, r),
            r == Ok::<bool, Error>(true) ==> again_measure(*final(self)) < again_measure(*old(self)),
    {
        let r = self.body_line(header, line, out);
        proof {
            if self.sv_diff@ == old(self).sv_diff@ {
                lemma_kernels_kept(*old(self), *self);
            }
        }
        r
    }

    /// Compresses one line of the input onto `out`. Comment lines pass
    /// through as they are; a file splice comment makes the next line the
    /// first one of an epoch descriptor. `Ok(true)` asks for the same line
    /// again: it ended a satellite whose last fields were omitted, and
    /// belongs to the next satellite or to the next epoch's descriptor.
    #[verifier::rlimit(100)]
    pub fn compress_line(&mut self, header: &Header, line: &Vec<char>, out: &mut Vec<char>) -> (r: Result<bool, Error>)
        requires
            old(self).wf(),
        ensures
            final(self).wf(),
            line_step(*old(self), header, line@, old(out)@, *final(self), final(out)@, r),
            r == Ok::<bool, Error>(true) ==> again_measure(*final(self)) < again_measure(*old(self)),
    {
        let cm = vec!['C', 'O', 'M', 'M', 'E', 'N', 'T'];
        let sm = vec!['R', 'I', 'N', 'E', 'X', ' ', 'F', 'I', 'L', 'E', ' ', 'S', 'P', 'L', 'I', 'C', 'E'];
        proof {
            assert(cm@ =~= comment_marker());
            assert(sm@ =~= splice_marker());
            assert(line@.subrange(0, line@.len() as int) =~= line@);
        }
        let comment = line.len() > 60 && occurs_from(line, 60, &cm);
        if comment {
            if occurs_from(line, 0, &sm) {
                self.flags_descriptor.clear();
                self.obs_ptr = 0;
                self.conclude_epoch();
            }
            push_all(out, line);
            out.push('\n');
            proof {
                assert(line@.subrange(0, line@.len() as int) =~= line@);
                assert(out@ =~= old(out)@ + line@ + seq!['\n']);
                lemma_kernels_kept(*old(self), *self);
                lemma_pending_kept(*old(self), *self);
            }
            return Ok(false);
        }
        let (b, e) = trim_bounds(line, 0, line.len());
        if b == e {
            if self.early_blank(header, out) {
                proof {
                    lemma_kernels_kept(*old(self), *self);
                }
                return Ok(false);
            }
        }
        match self.state {
            State::EpochDescriptor => self.descriptor_step(header, line, out),
            State::Body => self.body_step(header, line, out),
        }
    }

    /// Compresses observation records, line by line, into the compact format.
    /// The compressor keeps its state between calls, so successive chunks of
    /// a file may be given in turn.
    pub fn compress(&mut self, header: &Header, content: &str) -> (r: Result<String, Error>)
        requires
            old(self).wf(),
        ensures
            final(self).wf(),
            header.rinex_type != RinexType::ObservationData ==> r == Err::<String, Error>(Error::NotObsRinexData)
                && *final(self) == *old(self),
            header.rinex_type == RinexType::ObservationData && content@.len() == 0 ==> (r matches Ok(o) && o@.len() == 0),
            header.rinex_type == RinexType::ObservationData
                && (forall|i: int| 0 <= i < lines(content@).len() ==> is_comment(#[trigger] lines(content@)[i]))
                ==> (r matches Ok(o) && o@ == passed_through(lines(content@))),
            header.rinex_type == RinexType::ObservationData ==> r != Err::<String, Error>(Error::NotObsRinexData),
            header.rinex_type == RinexType::ObservationData && r is Ok ==> exists|cs: Seq<Compressor>, outs: Seq<Seq<char>>|
                #[trigger] trace(cs, outs, header, lines(content@)) && cs[0] == *old(self) && outs[0] == Seq::<char>::empty()
                && cs.last() == *final(self) && r->Ok_0@ == outs.last(),
            header.rinex_type == RinexType::ObservationData ==> (r matches Err(e) ==> exists|cs: Seq<Compressor>, outs: Seq<Seq<char>>, o1: Seq<char>|
                #[trigger] trace(cs, outs, header, lines(content@).take(cs.len() - 1)) && cs.len() <= lines(content@).len()
                && cs[0] == *old(self) && outs[0] == Seq::<char>::empty()
                && #[trigger] line_run(cs.last(), header, lines(content@)[cs.len() - 1], outs.last(), *final(self), o1, Err(e))),
    {
        if header.rinex_type != RinexType::ObservationData {
            return Err(Error::NotObsRinexData);
        }
        let s = chars_of(content);
        let mut out: Vec<char> = Vec::new();
        let mut pos: usize = 0;
        let ghost mut done: Seq<Seq<char>> = Seq::empty();
        let ghost all_comments = forall|i: int| 0 <= i < lines(content@).len() ==> is_comment(#[trigger] lines(content@)[i]);
        let ghost mut cs: Seq<Compressor> = seq![*self];
        let ghost mut outs: Seq<Seq<char>> = seq![Seq::<char>::empty()];
        proof {
            assert(lines(s@) =~= done + lines_from(s@, 0));
            assert(out@ =~= Seq::<char>::empty());
        }
        while pos < s.len()
            invariant
                self.wf(),
                pos <= s@.len(),
                s@ == content@,
                lines(s@) == done + lines_from(s@, pos as int),
                all_comments == forall|i: int| 0 <= i < lines(content@).len() ==> is_comment(#[trigger] lines(content@)[i]),
                all_comments ==> out@ == passed_through(done),
                header.rinex_type == RinexType::ObservationData,
                s@.len() == 0 ==> out@.len() == 0,
                trace(cs, outs, header, done),
                cs[0] == *old(self),
                outs[0] == Seq::<char>::empty(),
                cs.last() == *self,
                outs.last() == out@,
            decreases s@.len() - pos,
        {
            let (stop, next) = next_line(&s, pos);
            let line = slice_chars(&s, pos, stop);
            let ghost rest = lines_from(s@, next as int);
            proof {
                assert(lines(s@) =~= done.push(line@) + rest);
                assert(lines(s@)[done.len() as int] == line@);
                assert(lines(content@).take(done.len() as int) =~= done);
            }
            let ghost c_line = *self;
            let ghost o_line = out@;
            let ghost mut rcs: Seq<Compressor> = seq![*self];
            let ghost mut ros: Seq<Seq<char>> = seq![out@];
            loop
                invariant_except_break
                    rcs.last() == *self,
                    ros.last() == out@,
                invariant
                    self.wf(),
                    run_trace(rcs, ros, header, line@),
                    rcs[0] == c_line,
                    ros[0] == o_line,
                    is_comment(line@) ==> rcs.len() == 1,
                    trace(cs, outs, header, done),
                    cs[0] == *old(self),
                    outs[0] == Seq::<char>::empty(),
                    cs.last() == c_line,
                    outs.last() == o_line,
                    lines(content@)[done.len() as int] == line@,
                    lines(content@).len() > done.len(),
                    lines(content@).take(done.len() as int) == done,
                    header.rinex_type == RinexType::ObservationData,
                    s@ == content@,
                    pos < next <= s@.len(),
                    lines(s@) == done + lines_from(s@, pos as int),
                    lines(s@) == done.push(line@) + rest,
                    rest == lines_from(s@, next as int),
                    all_comments == forall|i: int| 0 <= i < lines(content@).len() ==> is_comment(#[trigger] lines(content@)[i]),
                    all_comments ==> o_line == passed_through(done),
                ensures
                    self.wf(),
                    line_run(c_line, header, line@, o_line, *self, out@, Ok(())),
                    is_comment(line@) ==> out@ == o_line + line@ + seq!['\n'],
                decreases again_measure(*self),
            {
                match self.compress_line(header, &line, &mut out) {
                    Ok(true) => {
                        proof {
                            let rcs2 = rcs.push(*self);
                            let ros2 = ros.push(out@);
                            assert forall|k: int| 0 <= k < rcs2.len() - 1 implies #[trigger] line_step(rcs2[k], header, line@, ros2[k], rcs2[k + 1], ros2[k + 1], Ok(true)) by {
                                if k < rcs.len() - 1 {
                                    assert(rcs2[k] == rcs[k] && rcs2[k + 1] == rcs[k + 1] && ros2[k] == ros[k] && ros2[k + 1] == ros[k + 1]);
                                }
                            }
                            rcs = rcs2;
                            ros = ros2;
                        }
                    },
                    Ok(false) => {
                        proof {
                            assert(run_trace(rcs, ros, header, line@));
                        }
                        break;
                    },
                    Err(e) => {
                        proof {
                            assert(run_trace(rcs, ros, header, line@));
                            assert(line_run(c_line, header, line@, o_line, *self, out@, Err(e)));
                            assert(lines(content@).take(cs.len() - 1) =~= done);
                            assert(trace(cs, outs, header, lines(content@).take(cs.len() - 1)));
                            assert(lines(content@)[cs.len() - 1] == line@);
                            assert(cs.len() <= lines(content@).len());
                        }
                        return Err(e);
                    },
                }
            }
            proof {
                assert(done.push(line@).drop_last() =~= done);
                let cs2 = cs.push(*self);
                let outs2 = outs.push(out@);
                let d2 = done.push(line@);
                assert forall|k: int| 0 <= k < d2.len() implies #[trigger] line_run(cs2[k], header, d2[k], outs2[k], cs2[k + 1], outs2[k + 1], Ok(())) by {
                    if k < done.len() {
                        assert(cs2[k] == cs[k] && cs2[k + 1] == cs[k + 1] && outs2[k] == outs[k] && outs2[k + 1] == outs[k + 1] && d2[k] == done[k]);
                    }
                }
                cs = cs2;
                outs = outs2;
                done = d2;
            }
            pos = next;
        }
        proof {
            assert(lines_from(s@, pos as int) == Seq::<Seq<char>>::empty());
            assert(lines(s@) =~= done);
            assert(trace(cs, outs, header, lines(content@)));
        }
        Ok(string_of(&out))
    }
}

/// The flag descriptor holds two characters for each observable of the
/// current satellite seen so far: a satellite concludes once all `N` of its
/// observables are seen, so its flag block is `2·N` characters long before it
/// is right-trimmed.
pub proof fn lemma_flag_block_length(c: &Compressor)
    requires
        c.wf(),
    ensures
        c.flags().len() == 2 * c.current_obs(),
{
}

proof fn lemma_same_views_line(a: Compressor, b: Compressor, sv: Sv, p: nat, line: Seq<char>, m: nat)
    requires
        a.same_views(&b),
    ensures
        a.line_data(sv, p, line, m) == b.line_data(sv, p, line, m),
        a.line_flags(sv, p, line, m) == b.line_flags(sv, p, line, m),
    decreases m,
{
    if m > 0 {
        lemma_same_views_line(a, b, sv, p, line, (m - 1) as nat);
    }
}

} // verus!
