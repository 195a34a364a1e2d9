//! Probabilities, and the parser that reads them from percentages.
//!
//! A probability is held exactly in fixed point: `ONE` units stand for 1.0
//! (100%), so a percentage is kept to sixteen decimal places.
use vstd::prelude::*;
use vstd::arithmetic::div_mod::lemma_fundamental_div_mod_converse;
use crate::text::{chars_of, is_white, trim_bounds, trim_end, trim_start, trimmed};

verus! {

/// Units that make up the certain event (10^18).
pub const ONE: u64 = 1000000000000000000;

/// Units that make up one percent (10^16).
pub const PER_PERCENT: u64 = 10000000000000000;

/// A probability as a count of `ONE`-ths.
#[derive(Clone, Copy, Debug, PartialEq, Eq, Structural)]
pub struct Probability {
    pub units: u64,
}

impl Probability {
    /// A probability lies in the closed interval [0, 1].
    pub open spec fn wf(self) -> bool {
        self.units <= ONE
    }

    /// The probability of `units` `ONE`-ths, if that is at most one.
    pub fn from_units(units: u64) -> (r: Option<Probability>)
        ensures
            r == (if units <= ONE { Some(Probability { units }) } else { None::<Probability> }),
    {
        if units <= ONE {
            Some(Probability { units })
        } else {
            None
        }
    }

    pub fn units(&self) -> (r: u64)
        ensures
            r == self.units,
    {
        self.units
    }
}

pub open spec fn pow10(n: nat) -> nat
    decreases n,
{
    if n == 0 {
        1
    } else {
        10 * pow10((n - 1) as nat)
    }
}

pub open spec fn is_digit(c: char) -> bool {
    '0' <= c && c <= '9'
}

pub open spec fn digit_value(c: char) -> nat {
    ((c as u32) - ('0' as u32)) as nat
}

pub open spec fn all_digits(s: Seq<char>) -> bool {
    forall|i: int| 0 <= i < s.len() ==> is_digit(#[trigger] s[i])
}

/// The number that the decimal digits `s` spell.
pub open spec fn digits_value(s: Seq<char>) -> nat
    decreases s.len(),
{
    if s.len() == 0 {
        0
    } else {
        digits_value(s.drop_last()) * 10 + digit_value(s.last())
    }
}

/// `s` without one trailing `%`, if it has one.
pub open spec fn without_percent(s: Seq<char>) -> Seq<char> {
    if s.len() > 0 && s.last() == '%' {
        s.drop_last()
    } else {
        s
    }
}

/// The text of the number that an input line holds.
pub open spec fn literal(line: Seq<char>) -> Seq<char> {
    without_percent(trimmed(line))
}

pub open spec fn sign_len(u: Seq<char>) -> int {
    if u.len() > 0 && (u[0] == '+' || u[0] == '-') {
        1
    } else {
        0
    }
}

pub open spec fn is_negative(u: Seq<char>) -> bool {
    u.len() > 0 && u[0] == '-'
}

/// A number's text without its sign.
pub open spec fn mantissa(u: Seq<char>) -> Seq<char> {
    u.subrange(sign_len(u), u.len() as int)
}

/// Where the first `.` of `m` stands, or `m.len()` if it has none.
pub open spec fn dot_index(m: Seq<char>) -> nat
    decreases m.len(),
{
    if m.len() == 0 || m[0] == '.' {
        0
    } else {
        1 + dot_index(m.subrange(1, m.len() as int))
    }
}

pub open spec fn int_digits(m: Seq<char>) -> Seq<char> {
    m.subrange(0, dot_index(m) as int)
}

pub open spec fn frac_digits(m: Seq<char>) -> Seq<char> {
    if dot_index(m) < m.len() {
        m.subrange(dot_index(m) as int + 1, m.len() as int)
    } else {
        Seq::empty()
    }
}

/// A decimal numeral: digits, then at most one point and more digits, with
/// at least one digit in all.
pub open spec fn is_numeral(m: Seq<char>) -> bool {
    &&& all_digits(int_digits(m))
    &&& all_digits(frac_digits(m))
    &&& int_digits(m).len() + frac_digits(m).len() > 0
}

/// The numeral's value is `numer(m) / denom(m)`.
pub open spec fn numer(m: Seq<char>) -> nat {
    digits_value(int_digits(m) + frac_digits(m))
}

pub open spec fn denom(m: Seq<char>) -> nat {
    pow10(frac_digits(m).len())
}

/// The text `u` is a decimal number between 0 and 100.
pub open spec fn is_valid_number(u: Seq<char>) -> bool {
    let m = mantissa(u);
    &&& is_numeral(m)
    &&& (is_negative(u) ==> numer(m) == 0)
    &&& numer(m) <= 100 * denom(m)
}

/// The units of the percentage `u`, its digits past the sixteenth decimal
/// place cut off.
pub open spec fn number_units(u: Seq<char>) -> nat {
    let m = mantissa(u);
    numer(m) * (PER_PERCENT as nat) / denom(m)
}

/// The line holds a decimal number (with an optional `%`) between 0 and 100.
pub open spec fn is_valid_percentage(line: Seq<char>) -> bool {
    is_valid_number(literal(line))
}

pub open spec fn percentage_units(line: Seq<char>) -> nat {
    number_units(literal(line))
}

/// What parsing the line gives.
pub open spec fn parse_percentage(line: Seq<char>) -> Option<Probability> {
    if is_valid_percentage(line) {
        Some(Probability { units: percentage_units(line) as u64 })
    } else {
        None
    }
}

pub proof fn lemma_pow10_add(a: nat, b: nat)
    ensures
        pow10(a + b) == pow10(a) * pow10(b),
    decreases a,
{
    if a > 0 {
        lemma_pow10_add((a - 1) as nat, b);
        assert(pow10(a + b) == 10 * pow10((a - 1 + b) as nat));
        assert(pow10(a + b) == pow10(a) * pow10(b)) by (nonlinear_arith)
            requires
                pow10(a + b) == 10 * pow10((a - 1 + b) as nat),
                pow10((a - 1 + b) as nat) == pow10((a - 1) as nat) * pow10(b),
                pow10(a) == 10 * pow10((a - 1) as nat),
        ;
    } else {
        assert(pow10(0) == 1);
        assert(a + b == b);
    }
}

pub proof fn lemma_pow10_positive(n: nat)
    ensures
        pow10(n) >= 1,
    decreases n,
{
    if n > 0 {
        lemma_pow10_positive((n - 1) as nat);
    }
}

/// Appending digits shifts the value left by their count.
pub proof fn lemma_digits_append(a: Seq<char>, b: Seq<char>)
    ensures
        digits_value(a + b) == digits_value(a) * pow10(b.len()) + digits_value(b),
    decreases b.len(),
{
    if b.len() == 0 {
        assert(a + b =~= a);
        assert(pow10(0) == 1);
        assert(digits_value(b) == 0);
    } else {
        let b0 = b.drop_last();
        lemma_digits_append(a, b0);
        assert((a + b).drop_last() =~= a + b0);
        assert((a + b).last() == b.last());
        let (x, y, p) = (digits_value(a), digits_value(b0), pow10(b0.len()));
        assert(pow10(b.len()) == 10 * p);
        assert((x * p + y) * 10 + digit_value(b.last()) == x * (10 * p) + (y * 10
            + digit_value(b.last()))) by (nonlinear_arith);
    }
}

/// A numeral of `n` digits is below `10^n`.
pub proof fn lemma_digits_bound(s: Seq<char>)
    requires
        all_digits(s),
    ensures
        digits_value(s) < pow10(s.len()),
    decreases s.len(),
{
    if s.len() > 0 {
        let s0 = s.drop_last();
        assert(is_digit(s[s.len() - 1]));
        lemma_digits_bound(s0);
        assert(digits_value(s0) * 10 + digit_value(s.last()) < 10 * pow10(s0.len()))
            by (nonlinear_arith)
            requires
                digits_value(s0) < pow10(s0.len()),
                digit_value(s.last()) < 10,
        ;
    }
}

pub proof fn lemma_digits_step(s: Seq<char>, i: int)
    requires
        0 <= i < s.len(),
    ensures
        digits_value(s.subrange(0, i + 1)) == digits_value(s.subrange(0, i)) * 10
            + digit_value(s[i]),
{
    assert(s.subrange(0, i + 1).drop_last() =~= s.subrange(0, i));
}

pub proof fn lemma_pow10_16()
    ensures
        pow10(16) == PER_PERCENT as nat,
{
    reveal_with_fuel(pow10, 17);
}

pub proof fn lemma_pow10_monotone(a: nat, b: nat)
    requires
        a <= b,
    ensures
        pow10(a) <= pow10(b),
{
    lemma_pow10_add(a, (b - a) as nat);
    lemma_pow10_positive(a);
    lemma_pow10_positive((b - a) as nat);
    assert(pow10(a) * pow10((b - a) as nat) >= pow10(a)) by (nonlinear_arith)
        requires
            pow10(a) >= 1,
            pow10((b - a) as nat) >= 1,
    ;
}

/// `n`, held at most at 101: enough to tell where it stands against 100.
pub open spec fn capped(n: nat) -> nat {
    if n > 101 {
        101
    } else {
        n
    }
}

/// The first sixteen digits of a fraction, padded with zeros: the fraction
/// in units of 10^-16, cut off.
pub open spec fn fraction_units(fd: Seq<char>) -> nat {
    let g = if fd.len() < 16 {
        fd.len()
    } else {
        16
    };
    digits_value(fd.subrange(0, g as int)) * pow10((16 - g) as nat)
}

/// The value of an integer part `id` and fraction part `fd` in units: the
/// integer part scaled, plus the first sixteen fraction digits (padded with
/// zeros); and the range tests on the whole value read from the two parts.
proof fn lemma_split_value(id: Seq<char>, fd: Seq<char>)
    requires
        all_digits(id),
        all_digits(fd),
    ensures
        digits_value(id + fd) <= 100 * pow10(fd.len()) <==> (digits_value(id) < 100 || (
        digits_value(id) == 100 && digits_value(fd) == 0)),
        digits_value(id + fd) == 0 <==> (digits_value(id) == 0 && digits_value(fd) == 0),
        digits_value(id + fd) * (PER_PERCENT as nat) / pow10(fd.len()) == digits_value(id) * (
        PER_PERCENT as nat) + fraction_units(fd),
        fraction_units(fd) < PER_PERCENT,
        digits_value(fd) == 0 ==> fraction_units(fd) == 0,
{
    let n = digits_value(id + fd);
    let p = pow10(fd.len());
    let i = digits_value(id);
    let f = digits_value(fd);
    let g: nat = if fd.len() < 16 { fd.len() } else { 16 };
    let head = fd.subrange(0, g as int);
    let tail = fd.subrange(g as int, fd.len() as int);
    let gv = digits_value(head);
    let r = digits_value(tail);
    let t = gv * pow10((16 - g) as nat);
    let s = PER_PERCENT as nat;
    lemma_digits_append(id, fd);
    lemma_digits_bound(fd);
    lemma_pow10_positive(fd.len());
    assert(n <= 100 * p <==> (i < 100 || (i == 100 && f == 0))) by (nonlinear_arith)
        requires
            n == i * p + f,
            f < p,
            p >= 1,
    ;
    assert(n == 0 <==> (i == 0 && f == 0)) by (nonlinear_arith)
        requires
            n == i * p + f,
            p >= 1,
    ;
    assert(head + tail =~= fd);
    assert(all_digits(head));
    assert(all_digits(tail));
    lemma_digits_append(head, tail);
    lemma_digits_bound(head);
    lemma_digits_bound(tail);
    let k = (fd.len() - g) as nat;
    let u = (16 - g) as nat;
    lemma_pow10_16();
    lemma_pow10_add(u, fd.len());
    lemma_pow10_add(k, 16);
    lemma_pow10_add(g, u);
    lemma_pow10_positive(k);
    lemma_pow10_positive(u);
    assert(u + fd.len() == k + 16);
    assert(g + u == 16);
    // the digits past the sixteenth fall below one unit
    assert(r * s < p) by {
        if fd.len() <= 16 {
            assert(tail.len() == 0);
            assert(r == 0);
        } else {
            assert(k + 16 == fd.len());
            assert(r * s < pow10(k) * s) by (nonlinear_arith)
                requires
                    r < pow10(k),
                    s >= 1,
            ;
        }
    }
    assert(n * s == (i * s + t) * p + r * s) by (nonlinear_arith)
        requires
            n == i * p + f,
            f == gv * pow10(k) + r,
            t == gv * pow10(u),
            pow10(u) * p == pow10(k) * s,
    ;
    lemma_fundamental_div_mod_converse((n * s) as int, p as int, (i * s + t) as int, (r * s) as int);
    assert(t < s) by (nonlinear_arith)
        requires
            gv < pow10(g),
            t == gv * pow10(u),
            pow10(g) * pow10(u) == s,
            pow10(u) >= 1,
    ;
    assert(f == 0 ==> t == 0) by (nonlinear_arith)
        requires
            f == gv * pow10(k) + r,
            pow10(k) >= 1,
            t == gv * pow10(u),
    ;
}

/// Where the first `.` of `v[start..hi]` stands, or `hi`.
fn find_point(v: &Vec<char>, start: usize, hi: usize) -> (p: usize)
    requires
        start <= hi <= v.len(),
    ensures
        start <= p <= hi,
        p == start + dot_index(v@.subrange(start as int, hi as int)),
{
    let ghost m = v@.subrange(start as int, hi as int);
    let mut p: usize = start;
    assert(v@.subrange(p as int, hi as int) =~= m);
    while p < hi && v[p] != '.'
        invariant
            start <= p <= hi <= v.len(),
            m == v@.subrange(start as int, hi as int),
            dot_index(m) == (p - start) + dot_index(v@.subrange(p as int, hi as int)),
        decreases hi - p,
    {
        assert(v@.subrange(p as int, hi as int).subrange(1, (hi - p) as int) =~= v@.subrange(
            p + 1,
            hi as int,
        ));
        p = p + 1;
    }
    p
}

/// The value of the digits `v[start..end]`, held at most at 101, or `None`
/// where one of them is not a digit.
fn scan_whole(v: &Vec<char>, start: usize, end: usize) -> (r: Option<u64>)
    requires
        start <= end <= v.len(),
    ensures
        r is Some <==> all_digits(v@.subrange(start as int, end as int)),
        r matches Some(w) ==> w == capped(digits_value(v@.subrange(start as int, end as int))),
{
    let ghost id = v@.subrange(start as int, end as int);
    let mut whole: u64 = 0;
    let mut i: usize = start;
    assert(id.subrange(0, 0) =~= Seq::<char>::empty());
    while i < end
        invariant
            start <= i <= end <= v.len(),
            id == v@.subrange(start as int, end as int),
            all_digits(id.subrange(0, i - start)),
            whole == capped(digits_value(id.subrange(0, i - start))),
        decreases end - i,
    {
        let c = v[i];
        if !('0' <= c && c <= '9') {
            assert(id[i - start] == c);
            return None;
        }
        let d = (c as u32 - '0' as u32) as u64;
        proof {
            lemma_digits_step(id, i - start);
            assert(id.subrange(0, i - start + 1) =~= id.subrange(0, i - start).push(c));
        }
        whole = if whole * 10 + d > 101 {
            101
        } else {
            whole * 10 + d
        };
        i = i + 1;
    }
    assert(id.subrange(0, end - start) =~= id);
    Some(whole)
}

/// The fraction digits `v[start..end]` in units of 10^-16 and whether any
/// of them is not zero, or `None` where one of them is not a digit.
fn scan_fraction(v: &Vec<char>, start: usize, end: usize) -> (r: Option<(u64, bool)>)
    requires
        start <= end <= v.len(),
    ensures
        r is Some <==> all_digits(v@.subrange(start as int, end as int)),
        r matches Some((t, nonzero)) ==> t == fraction_units(
            v@.subrange(start as int, end as int),
        ) && nonzero == (digits_value(v@.subrange(start as int, end as int)) > 0),
{
    let ghost fd = v@.subrange(start as int, end as int);
    let mut j: usize = start;
    let mut t: u64 = 0;
    let mut nonzero = false;
    proof {
        lemma_pow10_16();
    }
    assert(fd.subrange(0, 0) =~= Seq::<char>::empty());
    while j < end
        invariant
            start <= j <= end <= v.len(),
            fd == v@.subrange(start as int, end as int),
            pow10(16) == PER_PERCENT as nat,
            all_digits(fd.subrange(0, j - start)),
            t == digits_value(fd.subrange(0, if j - start < 16 { j - start } else { 16 })),
            nonzero == (digits_value(fd.subrange(0, j - start)) > 0),
        decreases end - j,
    {
        let c = v[j];
        let k: usize = j - start;
        if !('0' <= c && c <= '9') {
            assert(fd[k as int] == c);
            return None;
        }
        let d = (c as u32 - '0' as u32) as u64;
        proof {
            lemma_digits_step(fd, k as int);
            assert(fd.subrange(0, k + 1) =~= fd.subrange(0, k as int).push(c));
        }
        if k < 16 {
            proof {
                assert(all_digits(fd.subrange(0, k as int)));
                lemma_digits_bound(fd.subrange(0, k as int));
                lemma_pow10_monotone((k + 1) as nat, 16);
                reveal_with_fuel(pow10, 2);
                assert(pow10((k + 1) as nat) == 10 * pow10(k as nat));
            }
            t = t * 10 + d;
        }
        nonzero = nonzero || d != 0;
        j = j + 1;
    }
    assert(fd.subrange(0, end - start) =~= fd);
    let g: usize = if end - start < 16 {
        end - start
    } else {
        16
    };
    let ghost gv = digits_value(fd.subrange(0, g as int));
    proof {
        assert(all_digits(fd.subrange(0, g as int)));
        lemma_digits_bound(fd.subrange(0, g as int));
    }
    assert(pow10(0) == 1);
    assert(t == gv * pow10(0));
    let mut q: usize = g;
    while q < 16
        invariant
            g <= q <= 16,
            pow10(16) == PER_PERCENT as nat,
            t == gv * pow10((q - g) as nat),
            t < pow10(q as nat),
        decreases 16 - q,
    {
        proof {
            reveal_with_fuel(pow10, 2);
            assert(pow10((q + 1) as nat) == 10 * pow10(q as nat));
            assert(pow10((q + 1 - g) as nat) == 10 * pow10((q - g) as nat));
            lemma_pow10_monotone((q + 1) as nat, 16);
            assert(t * 10 == gv * pow10((q + 1 - g) as nat)) by (nonlinear_arith)
                requires
                    t == gv * pow10((q - g) as nat),
                    pow10((q + 1 - g) as nat) == 10 * pow10((q - g) as nat),
            ;
        }
        t = t * 10;
        q = q + 1;
    }
    Some((t, nonzero))
}

/// The outcome for a numeral with integer digits `id` and fraction digits
/// `fd`, from what the scans found of them.
fn settle(
    neg: bool,
    whole: u64,
    t: u64,
    nonzero: bool,
    Ghost(id): Ghost<Seq<char>>,
    Ghost(fd): Ghost<Seq<char>>,
) -> (r: Option<Probability>)
    requires
        all_digits(id),
        all_digits(fd),
        whole == capped(digits_value(id)),
        t == fraction_units(fd),
        nonzero == (digits_value(fd) > 0),
    ensures
        r == (if (neg ==> digits_value(id + fd) == 0) && digits_value(id + fd) <= 100 * pow10(
            fd.len(),
        ) {
            Some(
                Probability {
                    units: (digits_value(id + fd) * (PER_PERCENT as nat) / pow10(
                        fd.len(),
                    )) as u64,
                },
            )
        } else {
            None::<Probability>
        }),
        r matches Some(p) ==> p.wf() && p.units == digits_value(id + fd) * (PER_PERCENT as nat)
            / pow10(fd.len()),
{
    proof {
        lemma_split_value(id, fd);
    }
    if neg && (whole != 0 || nonzero) {
        return None;
    }
    if whole > 100 || (whole == 100 && nonzero) {
        return None;
    }
    Some(Probability { units: whole * PER_PERCENT + t })
}

/// The bounds of the number that the line `v` holds: `v` without whitespace
/// at either end and without one trailing `%`.
fn literal_bounds(v: &Vec<char>) -> (r: (usize, usize))
    ensures
        r.0 <= r.1 <= v.len(),
        v@.subrange(r.0 as int, r.1 as int) == literal(v@),
{
    let (lo, hi0) = trim_bounds(v);
    let hi: usize = if hi0 > lo && v[hi0 - 1] == '%' {
        hi0 - 1
    } else {
        hi0
    };
    if hi < hi0 {
        assert(v@.subrange(lo as int, hi0 as int).drop_last() =~= v@.subrange(lo as int, hi0 - 1));
    }
    (lo, hi)
}

/// The probability that the number text `v[lo..hi]` gives.
fn parse_number(v: &Vec<char>, lo: usize, hi: usize) -> (r: Option<Probability>)
    requires
        lo <= hi <= v.len(),
    ensures
        r is Some <==> is_valid_number(v@.subrange(lo as int, hi as int)),
        r matches Some(p) ==> p.wf() && p.units == number_units(v@.subrange(lo as int, hi as int)),
{
    let ghost u = v@.subrange(lo as int, hi as int);
    let neg = lo < hi && v[lo] == '-';
    let start: usize = if lo < hi && (v[lo] == '+' || v[lo] == '-') {
        lo + 1
    } else {
        lo
    };
    let ghost m = v@.subrange(start as int, hi as int);
    assert(mantissa(u) =~= m);
    assert(neg == is_negative(u));
    let p = find_point(v, start, hi);
    let fstart: usize = if p < hi {
        p + 1
    } else {
        hi
    };
    let ghost id = v@.subrange(start as int, p as int);
    let ghost fd = v@.subrange(fstart as int, hi as int);
    assert(int_digits(m) =~= id);
    assert(frac_digits(m) =~= fd);
    let whole = match scan_whole(v, start, p) {
        Some(w) => w,
        None => {
            return None;
        },
    };
    let (t, nonzero) = match scan_fraction(v, fstart, hi) {
        Some(x) => x,
        None => {
            return None;
        },
    };
    if p == start && hi <= fstart {
        return None;
    }
    settle(neg, whole, t, nonzero, Ghost(id), Ghost(fd))
}

/// Reads a probability from a line that holds a percentage: whitespace at
/// either end and one trailing `%` are dropped, and what remains must be a
/// decimal number between 0 and 100, which is divided by 100.
pub fn get_percentage(input: &str) -> (r: Option<Probability>)
    ensures
        r == parse_percentage(input@),
        r is Some <==> is_valid_percentage(input@),
        r matches Some(p) ==> p.units == percentage_units(input@) && p.wf(),
{
    let v = chars_of(input);
    let (lo, hi) = literal_bounds(&v);
    parse_number(&v, lo, hi)
}

proof fn lemma_dot_index(m: Seq<char>)
    ensures
        dot_index(m) <= m.len(),
        dot_index(m) < m.len() ==> m[dot_index(m) as int] == '.',
    decreases m.len(),
{
    if m.len() > 0 && m[0] != '.' {
        lemma_dot_index(m.subrange(1, m.len() as int));
    }
}

/// A numeral is not empty, and each of its characters is a digit or the point.
proof fn lemma_numeral_chars(m: Seq<char>)
    requires
        is_numeral(m),
    ensures
        m.len() > 0,
        forall|i: int| 0 <= i < m.len() ==> is_digit(#[trigger] m[i]) || m[i] == '.',
{
    lemma_dot_index(m);
    let d = dot_index(m) as int;
    assert forall|i: int| 0 <= i < m.len() implies is_digit(#[trigger] m[i]) || m[i] == '.' by {
        if i < d {
            assert(int_digits(m)[i] == m[i]);
        } else if i > d {
            assert(frac_digits(m)[i - d - 1] == m[i]);
        }
    }
}

/// The text of a number, signed or not, is its own literal, and so is the
/// same text followed by `%`.
proof fn lemma_number_is_literal(s: Seq<char>)
    requires
        is_numeral(mantissa(s)),
    ensures
        literal(s) == s,
        literal(s.push('%')) == s,
{
    let m = mantissa(s);
    lemma_numeral_chars(m);
    let k = sign_len(s);
    assert(m[0] == s[k]);
    assert(m[m.len() - 1] == s[s.len() - 1]);
    assert(!is_white(s[0]));
    assert(!is_white(s.last()));
    assert(trim_start(s) == s);
    assert(trim_end(s) == s);
    let t = s.push('%');
    assert(t[0] == s[0]);
    assert(trim_start(t) == t);
    assert(trim_end(t) == t);
    assert(t.drop_last() =~= s);
}

/// A decimal number `s` between 0 and 100 (a minus sign only on zero),
/// written with or without a trailing `%`, is accepted and read as `s / 100`:
/// exactly where it has at most sixteen decimal places, and otherwise cut
/// off below one unit.
pub proof fn lemma_in_range_accepted(s: Seq<char>)
    requires
        is_numeral(mantissa(s)),
        is_negative(s) ==> numer(mantissa(s)) == 0,
        numer(mantissa(s)) <= 100 * denom(mantissa(s)),
    ensures
        parse_percentage(s) is Some,
        parse_percentage(s.push('%')) == parse_percentage(s),
        ({
            let units = parse_percentage(s)->0.units as nat;
            let m = mantissa(s);
            &&& units * denom(m) <= numer(m) * (PER_PERCENT as nat)
            &&& numer(m) * (PER_PERCENT as nat) < (units + 1) * denom(m)
            &&& (frac_digits(m).len() <= 16 ==> units * denom(m) == numer(m) * (
            PER_PERCENT as nat))
        }),
{
    let m = mantissa(s);
    lemma_number_is_literal(s);
    lemma_split_value(int_digits(m), frac_digits(m));
    lemma_pow10_positive(frac_digits(m).len());
    let x = numer(m) * (PER_PERCENT as nat);
    let d = denom(m);
    let q = x / d;
    assert(q <= 101 * (PER_PERCENT as nat));
    assert(parse_percentage(s)->0.units as nat == q);
    vstd::arithmetic::div_mod::lemma_fundamental_div_mod(x as int, d as int);
    vstd::arithmetic::div_mod::lemma_mod_bound(x as int, d as int);
    assert(q * d <= x < (q + 1) * d) by (nonlinear_arith)
        requires
            x == d * q + x % d,
            0 <= x % d < d,
    ;
    let f = frac_digits(m).len();
    if f <= 16 {
        lemma_pow10_16();
        lemma_pow10_add((16 - f) as nat, f);
        assert(x == (numer(m) * pow10((16 - f) as nat)) * d) by (nonlinear_arith)
            requires
                x == numer(m) * pow10(16),
                pow10(16) == pow10((16 - f) as nat) * d,
        ;
        lemma_fundamental_div_mod_converse(x as int, d as int, (numer(m) * pow10((16 - f) as nat)) as int, 0);
    }
}

/// A decimal number below 0 or above 100 is rejected.
pub proof fn lemma_out_of_range_rejected(line: Seq<char>)
    requires
        is_numeral(mantissa(literal(line))),
        (is_negative(literal(line)) && numer(mantissa(literal(line))) > 0) || numer(
            mantissa(literal(line)),
        ) > 100 * denom(mantissa(literal(line))),
    ensures
        parse_percentage(line) is None,
{
}

/// A line whose text, once trimmed and without its `%`, is no decimal number
/// is rejected.
pub proof fn lemma_non_numeral_rejected(line: Seq<char>)
    requires
        !is_numeral(mantissa(literal(line))),
    ensures
        parse_percentage(line) is None,
{
}

/// Parsing depends on the text alone: the same text gives the same outcome.
pub proof fn lemma_parse_deterministic(a: Seq<char>, b: Seq<char>)
    requires
        a == b,
    ensures
        parse_percentage(a) == parse_percentage(b),
{
}

} // verus!
