//! Character-level helpers: whitespace trimming, line splitting, decimal
//! formatting and parsing of fixed-point observation values.
use vstd::prelude::*;

verus! {

pub open spec fn is_ws(c: char) -> bool {
    c == ' ' || c == '\t' || c == '\n' || c == '\r' || c == '\x0b' || c == '\x0c'
}

pub fn is_whitespace(c: char) -> (r: bool)
    ensures
        r == is_ws(c),
{
    c == ' ' || c == '\t' || c == '\n' || c == '\r' || c == '\x0b' || c == '\x0c'
}

/// `s` without its trailing whitespace.
pub open spec fn trim_end(s: Seq<char>) -> Seq<char>
    decreases s.len(),
{
    if s.len() > 0 && is_ws(s.last()) {
        trim_end(s.drop_last())
    } else {
        s
    }
}

/// `s` without its leading whitespace.
pub open spec fn trim_start(s: Seq<char>) -> Seq<char>
    decreases s.len(),
{
    if s.len() > 0 && is_ws(s[0]) {
        trim_start(s.drop_first())
    } else {
        s
    }
}

pub open spec fn trim(s: Seq<char>) -> Seq<char> {
    trim_start(trim_end(s))
}

/// Dropping trailing whitespace from a prefix of `s` that leaves out only
/// whitespace gives the same result as from `s` itself.
proof fn lemma_trim_end_prefix(s: Seq<char>, e: int)
    requires
        0 <= e <= s.len(),
        forall|i: int| e <= i < s.len() ==> is_ws(#[trigger] s[i]),
    ensures
        trim_end(s) == trim_end(s.subrange(0, e)),
    decreases s.len() - e,
{
    if e < s.len() {
        assert(s.drop_last() =~= s.subrange(0, s.len() - 1));
        assert(s.drop_last().subrange(0, e) =~= s.subrange(0, e));
        lemma_trim_end_prefix(s.drop_last(), e);
    } else {
        assert(s.subrange(0, e) =~= s);
    }
}

/// Symmetric to `lemma_trim_end_prefix`, for leading whitespace.
proof fn lemma_trim_start_suffix(s: Seq<char>, b: int)
    requires
        0 <= b <= s.len(),
        forall|i: int| 0 <= i < b ==> is_ws(#[trigger] s[i]),
    ensures
        trim_start(s) == trim_start(s.subrange(b, s.len() as int)),
    decreases b,
{
    if b > 0 {
        assert(s.drop_first().subrange(b - 1, s.len() - 1) =~= s.subrange(b, s.len() as int));
        lemma_trim_start_suffix(s.drop_first(), b - 1);
    } else {
        assert(s.subrange(0, s.len() as int) =~= s);
    }
}

/// Bounds `[b, e)` of the trimmed part of `s[from..to]`.
pub fn trim_bounds(s: &Vec<char>, from: usize, to: usize) -> (r: (usize, usize))
    requires
        from <= to <= s@.len(),
    ensures
        from <= r.0 <= r.1 <= to,
        s@.subrange(r.0 as int, r.1 as int) == trim(s@.subrange(from as int, to as int)),
        s@.subrange(from as int, r.1 as int) == trim_end(s@.subrange(from as int, to as int)),
{
    let ghost t = s@.subrange(from as int, to as int);
    let mut e: usize = to;
    while e > from && is_whitespace(s[e - 1])
        invariant
            from <= e <= to <= s@.len(),
            forall|i: int| e <= i < to ==> is_ws(#[trigger] s@[i]),
        decreases e,
    {
        e = e - 1;
    }
    proof {
        assert forall|i: int| e - from <= i < t.len() implies is_ws(#[trigger] t[i]) by {
            assert(t[i] == s@[from + i]);
        }
        lemma_trim_end_prefix(t, e - from);
        let u = t.subrange(0, e - from);
        assert(u =~= s@.subrange(from as int, e as int));
        if u.len() > 0 {
            assert(u.last() == s@[e - 1]);
        }
        assert(trim_end(u) == u);
    }
    let mut b: usize = from;
    while b < e && is_whitespace(s[b])
        invariant
            from <= b <= e <= to <= s@.len(),
            forall|i: int| from <= i < b ==> is_ws(#[trigger] s@[i]),
        decreases e - b,
    {
        b = b + 1;
    }
    proof {
        let u = s@.subrange(from as int, e as int);
        assert forall|i: int| 0 <= i < b - from implies is_ws(#[trigger] u[i]) by {
            assert(u[i] == s@[from + i]);
        }
        lemma_trim_start_suffix(u, b - from);
        let v = u.subrange(b - from, u.len() as int);
        assert(v =~= s@.subrange(b as int, e as int));
        if v.len() > 0 {
            assert(v[0] == s@[b as int]);
        }
        assert(trim_start(v) == v);
    }
    (b, e)
}

/// Copy of `s[from..to]`.
pub fn slice_chars(s: &Vec<char>, from: usize, to: usize) -> (r: Vec<char>)
    requires
        from <= to <= s@.len(),
    ensures
        r@ == s@.subrange(from as int, to as int),
{
    let mut r: Vec<char> = Vec::new();
    let mut i: usize = from;
    while i < to
        invariant
            from <= i <= to <= s@.len(),
            r@ == s@.subrange(from as int, i as int),
        decreases to - i,
    {
        r.push(s[i]);
        i = i + 1;
        proof {
            assert(r@ =~= s@.subrange(from as int, i as int));
        }
    }
    r
}

/// Appends `s[from..to]` to `out`.
pub fn push_range(out: &mut Vec<char>, s: &Vec<char>, from: usize, to: usize)
    requires
        from <= to <= s@.len(),
    ensures
        final(out)@ == old(out)@ + s@.subrange(from as int, to as int),
{
    let mut i: usize = from;
    while i < to
        invariant
            from <= i <= to <= s@.len(),
            out@ == old(out)@ + s@.subrange(from as int, i as int),
        decreases to - i,
    {
        out.push(s[i]);
        i = i + 1;
        proof {
            assert(out@ =~= old(out)@ + s@.subrange(from as int, i as int));
        }
    }
}

/// Appends every character of `s` to `out`.
pub fn push_all(out: &mut Vec<char>, s: &Vec<char>)
    ensures
        final(out)@ == old(out)@ + s@,
{
    push_range(out, s, 0, s.len());
    proof {
        assert(s@.subrange(0, s@.len() as int) =~= s@);
    }
}

/// Index of the first line feed at or after `i`, or the length of `s`.
pub open spec fn line_end(s: Seq<char>, i: int) -> int
    decreases s.len() - i,
{
    if i >= s.len() || i < 0 || s[i] == '\n' {
        i
    } else {
        line_end(s, i + 1)
    }
}

/// A line without the carriage return that may end it.
pub open spec fn strip_cr(l: Seq<char>) -> Seq<char> {
    if l.len() > 0 && l.last() == '\r' {
        l.drop_last()
    } else {
        l
    }
}

/// The lines of `s` from position `start` on: separated by line feeds, a
/// carriage return before the feed dropped, no empty line after a final feed.
pub open spec fn lines_from(s: Seq<char>, start: int) -> Seq<Seq<char>>
    decreases s.len() - start,
{
    if start >= s.len() || start < 0 {
        Seq::empty()
    } else {
        let e = line_end(s, start);
        if e < start || e > s.len() {
            Seq::empty()
        } else if e == s.len() {
            seq![strip_cr(s.subrange(start, e))]
        } else {
            seq![strip_cr(s.subrange(start, e))] + lines_from(s, e + 1)
        }
    }
}

pub open spec fn lines(s: Seq<char>) -> Seq<Seq<char>> {
    lines_from(s, 0)
}

proof fn lemma_line_end(s: Seq<char>, i: int, e: int)
    requires
        0 <= i <= e <= s.len(),
        e == s.len() || s[e] == '\n',
        forall|j: int| i <= j < e ==> #[trigger] s[j] != '\n',
    ensures
        line_end(s, i) == e,
    decreases e - i,
{
    if i < e {
        lemma_line_end(s, i + 1, e);
    }
}

/// Bounds of the line that starts at `start`: its end (carriage return
/// excluded) and the position after its line feed.
pub fn next_line(s: &Vec<char>, start: usize) -> (r: (usize, usize))
    requires
        start < s@.len(),
    ensures
        start <= r.0 <= r.1 <= s@.len(),
        r.1 > start,
        r.1 == line_end(s@, start as int) + 1 || (r.1 == s@.len() && line_end(s@, start as int) == s@.len()),
        s@.subrange(start as int, r.0 as int) == strip_cr(s@.subrange(start as int, line_end(s@, start as int))),
        lines_from(s@, start as int) == seq![s@.subrange(start as int, r.0 as int)] + lines_from(s@, r.1 as int),
{
    let mut e: usize = start;
    while e < s.len() && s[e] != '\n'
        invariant
            start <= e <= s@.len(),
            forall|j: int| start <= j < e ==> #[trigger] s@[j] != '\n',
        decreases s@.len() - e,
    {
        e = e + 1;
    }
    proof {
        lemma_line_end(s@, start as int, e as int);
    }
    let next: usize = if e < s.len() { e + 1 } else { e };
    let mut stop: usize = e;
    if e > start && s[e - 1] == '\r' {
        stop = e - 1;
    }
    proof {
        let l = s@.subrange(start as int, e as int);
        if e > start {
            assert(l.last() == s@[e - 1]);
        }
        assert(s@.subrange(start as int, stop as int) =~= strip_cr(l));
        if next == e {
            assert(lines_from(s@, e + 1) == Seq::<Seq<char>>::empty());
            assert(lines_from(s@, e as int) == Seq::<Seq<char>>::empty());
        }
    }
    (stop, next)
}

pub open spec fn is_digit(c: char) -> bool {
    '0' <= c && c <= '9'
}

pub open spec fn digit_value(c: char) -> nat {
    (c as u32 - '0' as u32) as nat
}

pub open spec fn digit_char(d: nat) -> char {
    ((d + 48) as u8) as char
}

/// Decimal digits of `n`, most significant first, without leading zeros.
pub open spec fn dec(n: nat) -> Seq<char>
    decreases n,
{
    if n < 10 {
        seq![digit_char(n)]
    } else {
        dec(n / 10).push(digit_char(n % 10))
    }
}

/// Decimal text of an integer, with a minus sign when negative.
pub open spec fn int_text(x: int) -> Seq<char> {
    if x < 0 {
        seq!['-'] + dec((-x) as nat)
    } else {
        dec(x as nat)
    }
}

fn push_dec(out: &mut Vec<char>, n: u64)
    ensures
        final(out)@ == old(out)@ + dec(n as nat),
    decreases n,
{
    if n >= 10 {
        push_dec(out, n / 10);
    }
    let d: u8 = (n % 10) as u8;
    out.push((d + 48) as char);
    proof {
        assert(final(out)@ =~= old(out)@ + dec(n as nat));
    }
}

/// Appends the decimal text of `x` to `out`.
pub fn push_int(out: &mut Vec<char>, x: i64)
    ensures
        final(out)@ == old(out)@ + int_text(x as int),
{
    if x < 0 {
        out.push('-');
        let m: u64 = (0i128 - x as i128) as u64;
        push_dec(out, m);
        proof {
            assert(final(out)@ =~= old(out)@ + int_text(x as int));
        }
    } else {
        push_dec(out, x as u64);
    }
}

/// Value of a run of decimal digits.
pub open spec fn digits_value(s: Seq<char>) -> nat
    decreases s.len(),
{
    if s.len() == 0 {
        0
    } else {
        digits_value(s.drop_last()) * 10 + digit_value(s.last())
    }
}

pub open spec fn all_digits(s: Seq<char>) -> bool {
    forall|i: int| 0 <= i < s.len() ==> is_digit(#[trigger] s[i])
}

pub open spec fn pow10(n: nat) -> nat
    decreases n,
{
    if n == 0 {
        1
    } else {
        10 * pow10((n - 1) as nat)
    }
}

/// Index of the first `.` in `s`, or its length.
pub open spec fn dot_index(s: Seq<char>) -> int
    decreases s.len(),
{
    if s.len() == 0 {
        0
    } else if dot_index(s.drop_last()) < s.len() - 1 {
        dot_index(s.drop_last())
    } else if s.last() == '.' {
        s.len() - 1
    } else {
        s.len() as int
    }
}

/// Thousandths carried by the fraction digits `f`, rounded half away from zero.
pub open spec fn frac_milli(f: Seq<char>) -> nat {
    let d = |i: int| if i < f.len() { digit_value(f[i]) } else { 0nat };
    let up: nat = if f.len() > 3 && digit_value(f[3]) >= 5 { 1 } else { 0 };
    d(0) * 100 + d(1) * 10 + d(2) + up
}

/// Value in thousandths of a decimal number written as an optional sign,
/// digits, and an optional point followed by digits, with at least one digit;
/// `None` for any other text.
pub open spec fn milli_value(t: Seq<char>) -> Option<int> {
    let neg = t.len() > 0 && t[0] == '-';
    let b = if t.len() > 0 && (t[0] == '-' || t[0] == '+') { t.drop_first() } else { t };
    let d = dot_index(b);
    let ip = b.subrange(0, d);
    let fp = if d < b.len() { b.subrange(d + 1, b.len() as int) } else { Seq::empty() };
    if all_digits(ip) && all_digits(fp) && ip.len() + fp.len() > 0 {
        let m = digits_value(ip) * 1000 + frac_milli(fp);
        Some(if neg { -m } else { m as int })
    } else {
        None
    }
}

proof fn lemma_digits_bound(s: Seq<char>)
    requires
        all_digits(s),
    ensures
        digits_value(s) < pow10(s.len()),
    decreases s.len(),
{
    if s.len() > 0 {
        assert(all_digits(s.drop_last())) by {
            assert forall|i: int| 0 <= i < s.len() - 1 implies is_digit(#[trigger] s.drop_last()[i]) by {
                assert(s.drop_last()[i] == s[i]);
            }
        }
        lemma_digits_bound(s.drop_last());
        assert(is_digit(s[s.len() - 1]));
    }
}

proof fn lemma_pow10_mono(a: nat, b: nat)
    requires
        a <= b,
    ensures
        pow10(a) <= pow10(b),
    decreases b,
{
    if a < b {
        lemma_pow10_mono(a, (b - 1) as nat);
    }
}

proof fn lemma_dot_index(s: Seq<char>)
    ensures
        0 <= dot_index(s) <= s.len(),
        dot_index(s) < s.len() ==> s[dot_index(s)] == '.',
        forall|i: int| 0 <= i < dot_index(s) ==> #[trigger] s[i] != '.',
    decreases s.len(),
{
    if s.len() > 0 {
        lemma_dot_index(s.drop_last());
        assert forall|i: int| 0 <= i < dot_index(s) implies #[trigger] s[i] != '.' by {
            if i < s.len() - 1 {
                assert(s[i] == s.drop_last()[i]);
            }
        }
    }
}

proof fn lemma_dot_index_exact(s: Seq<char>, d: int)
    requires
        0 <= d <= s.len(),
        d < s.len() ==> s[d] == '.',
        forall|i: int| 0 <= i < d ==> #[trigger] s[i] != '.',
    ensures
        dot_index(s) == d,
{
    lemma_dot_index(s);
    if dot_index(s) < d {
        assert(s[dot_index(s)] == '.');
    } else if dot_index(s) > d {
        assert(s[d] != '.');
    }
}

/// Value of the digits `s[from..to]`.
fn read_digits(s: &Vec<char>, from: usize, to: usize) -> (r: Option<u64>)
    requires
        from <= to <= s@.len(),
        to - from <= 14,
    ensures
        r is Some <==> all_digits(s@.subrange(from as int, to as int)),
        r matches Some(v) ==> v as nat == digits_value(s@.subrange(from as int, to as int))
            && v < 100_000_000_000_000,
{
    let mut v: u64 = 0;
    let mut i: usize = from;
    proof {
        lemma_pow10_mono((to - from) as nat, 14);
        reveal_with_fuel(pow10, 15);
        assert(s@.subrange(from as int, from as int) =~= Seq::<char>::empty());
    }
    while i < to
        invariant
            from <= i <= to <= s@.len(),
            to - from <= 14,
            pow10(14) == 100_000_000_000_000,
            all_digits(s@.subrange(from as int, i as int)),
            v as nat == digits_value(s@.subrange(from as int, i as int)),
            v < pow10((i - from) as nat),
            pow10((i - from) as nat) <= pow10(14),
        decreases to - i,
    {
        let c = s[i];
        if !('0' <= c && c <= '9') {
            proof {
                let u = s@.subrange(from as int, to as int);
                assert(u[i - from] == c);
            }
            return None;
        }
        let ghost p = s@.subrange(from as int, i as int);
        let ghost q = s@.subrange(from as int, i + 1);
        proof {
            assert(q.drop_last() =~= p);
            lemma_pow10_mono((i + 1 - from) as nat, 14);
            assert(pow10((i + 1 - from) as nat) == 10 * pow10((i - from) as nat));
        }
        v = v * 10 + (c as u32 - '0' as u32) as u64;
        i = i + 1;
        proof {
            assert forall|k: int| 0 <= k < q.len() implies is_digit(#[trigger] q[k]) by {
                if k < p.len() {
                    assert(q[k] == p[k]);
                }
            }
        }
    }
    Some(v)
}

/// Thousandths carried by the fraction digits `s[from..to]`.
fn read_fraction(s: &Vec<char>, from: usize, to: usize) -> (m: u64)
    requires
        from <= to <= s@.len(),
        all_digits(s@.subrange(from as int, to as int)),
    ensures
        m as nat == frac_milli(s@.subrange(from as int, to as int)),
        m <= 1000,
{
    let f0 = from;
    let ghost fs = s@.subrange(f0 as int, to as int);
    let mut m: u64 = 0;
    let mut k: usize = 0;
    while k < 3
        invariant
            k <= 3,
            f0 <= to <= s@.len(),
            fs == s@.subrange(f0 as int, to as int),
            all_digits(fs),
            m as nat == (if 0 < k { if 0 < fs.len() { digit_value(fs[0]) * 100 } else { 0 } } else { 0 })
                + (if 1 < k { if 1 < fs.len() { digit_value(fs[1]) * 10 } else { 0 } } else { 0 })
                + (if 2 < k { if 2 < fs.len() { digit_value(fs[2]) } else { 0 } } else { 0 }),
            m <= (if k == 0 { 0u64 } else if k == 1 { 900u64 } else if k == 2 { 990u64 } else { 999u64 }),
        decreases 3 - k,
    {
        let w: u64 = if k == 0 { 100 } else if k == 1 { 10 } else { 1 };
        if k < to - f0 {
            let c = s[f0 + k];
            proof {
                assert(fs[k as int] == c);
                assert(is_digit(fs[k as int]));
            }
            let dv: u64 = (c as u32 - '0' as u32) as u64;
            m = m + w * dv;
        }
        k = k + 1;
    }
    if to - f0 > 3 {
        let c = s[f0 + 3];
        proof {
            assert(fs[3] == c);
            assert(is_digit(fs[3]));
        }
        if (c as u32 - '0' as u32) >= 5 {
            m = m + 1;
        }
    }
    proof {
        assert(m as nat == frac_milli(fs));
    }
    m
}

/// Parses `s[from..to]` as a decimal number and gives its value in
/// thousandths (see `milli_value`).
#[verifier::rlimit(40)]
pub fn parse_milli(s: &Vec<char>, from: usize, to: usize) -> (r: Option<i64>)
    requires
        from <= to <= s@.len(),
        to - from <= 14,
    ensures
        r is Some <==> milli_value(s@.subrange(from as int, to as int)) is Some,
        r matches Some(v) ==> milli_value(s@.subrange(from as int, to as int)) == Some(v as int)
            && -100_000_000_000_000_000 <= v <= 100_000_000_000_000_000,
{
    let ghost t = s@.subrange(from as int, to as int);
    let mut b: usize = from;
    let mut neg: bool = false;
    if from < to && (s[from] == '-' || s[from] == '+') {
        neg = s[from] == '-';
        b = from + 1;
    }
    let ghost bs = s@.subrange(b as int, to as int);
    proof {
        if b > from {
            assert(bs =~= t.drop_first());
        } else {
            assert(bs =~= t);
        }
    }
    let mut d: usize = b;
    while d < to && s[d] != '.'
        invariant
            b <= d <= to <= s@.len(),
            forall|j: int| b <= j < d ==> #[trigger] s@[j] != '.',
        decreases to - d,
    {
        d = d + 1;
    }
    proof {
        assert forall|j: int| 0 <= j < d - b implies #[trigger] bs[j] != '.' by {
            assert(bs[j] == s@[b + j]);
        }
        lemma_dot_index_exact(bs, d - b);
        assert(bs.subrange(0, d - b) =~= s@.subrange(b as int, d as int));
    }
    let f0: usize = if d < to { d + 1 } else { to };
    proof {
        if d < to {
            assert(bs.subrange(d - b + 1, bs.len() as int) =~= s@.subrange(f0 as int, to as int));
        } else {
            assert(s@.subrange(f0 as int, to as int) =~= Seq::<char>::empty());
        }
    }
    let ip = read_digits(s, b, d);
    let fp = read_digits(s, f0, to);
    match (ip, fp) {
        (Some(iv), Some(_)) => {
            if d - b + (to - f0) == 0 {
                return None;
            }
            let m = read_fraction(s, f0, to);
            proof {
                reveal_with_fuel(pow10, 15);
            }
            let total: i64 = (iv * 1000 + m) as i64;
            if neg {
                Some(-total)
            } else {
                Some(total)
            }
        },
        _ => None,
    }
}

} // verus!
