//! Exact decimal numbers: `[+-]digits[.digits]`, the grammar of a plain
//! decimal literal, scaled to an integer unit with rounding half away from
//! zero. Lengths, drill sizes and via names are read with it, so a board
//! file written in millimetres lands on whole nanometres without any
//! binary floating point in between.

use vstd::prelude::*;
use vstd::arithmetic::div_mod::*;
use vstd::arithmetic::mul::*;
use crate::text::is_ascii_digit;

verus! {

pub open spec fn pow10(k: nat) -> nat
    decreases k,
{
    if k == 0 { 1 } else { 10 * pow10((k - 1) as nat) }
}

pub open spec fn digit(c: char) -> nat {
    ((c as u32) - ('0' as u32)) as nat
}

pub open spec fn all_digits(s: Seq<char>) -> bool {
    forall|i: int| 0 <= i < s.len() ==> #[trigger] is_ascii_digit(s[i])
}

/// Value of a string of decimal digits.
pub open spec fn digits_val(s: Seq<char>) -> nat
    decreases s.len(),
{
    if s.len() == 0 { 0 } else { digits_val(s.drop_last()) * 10 + digit(s.last()) }
}

/// Index of the first `c` in `s`, or `s.len()` when there is none.
pub open spec fn find_char(s: Seq<char>, c: char) -> int
    decreases s.len(),
{
    if s.len() == 0 { 0 } else if s[0] == c { 0 } else { 1 + find_char(s.drop_first(), c) }
}

pub open spec fn sign_split(s: Seq<char>) -> (bool, Seq<char>) {
    if s.len() > 0 && s[0] == '-' {
        (true, s.drop_first())
    } else if s.len() > 0 && s[0] == '+' {
        (false, s.drop_first())
    } else {
        (false, s)
    }
}

/// A decimal literal `[+-]int[.frac]` with at least one digit: the sign,
/// the integer digits and the fraction digits.
pub open spec fn parse_decimal(s: Seq<char>) -> Option<(bool, Seq<char>, Seq<char>)> {
    let (neg, b) = sign_split(s);
    let d = find_char(b, '.');
    let ip = b.take(d);
    let fp = if d < b.len() { b.skip(d + 1) } else { Seq::<char>::empty() };
    if all_digits(ip) && all_digits(fp) && ip.len() + fp.len() > 0 {
        Some((neg, ip, fp))
    } else {
        None
    }
}

/// `unit * (int.frac)` rounded half up, for a non-negative decimal.
pub open spec fn scaled_magnitude(ip: Seq<char>, fp: Seq<char>, unit: nat) -> nat {
    let p = pow10(fp.len());
    (2 * unit * (digits_val(ip) * p + digits_val(fp)) + p) as nat / (2 * p)
}

pub open spec fn clamp_i64(x: int) -> i64 {
    if x > i64::MAX { i64::MAX } else if x < i64::MIN { i64::MIN } else { x as i64 }
}

/// The decimal scaled to `unit`, rounded half away from zero and saturated
/// to the `i64` range.
pub open spec fn decimal_scaled(d: (bool, Seq<char>, Seq<char>), unit: nat) -> i64 {
    let m = scaled_magnitude(d.1, d.2, unit) as int;
    clamp_i64(if d.0 { -m } else { m })
}

/// `parse_decimal` then `decimal_scaled`.
pub open spec fn decimal_to_units(s: Seq<char>, unit: nat) -> Option<i64> {
    match parse_decimal(s) {
        Some(d) => Some(decimal_scaled(d, unit)),
        None => None,
    }
}

/// Right-to-left fold that computes `floor(m * 0.d1d2...dk)` with bounded state.
pub open spec fn frac_fold(ds: Seq<char>, m: nat) -> nat
    decreases ds.len(),
{
    if ds.len() == 0 { 0 } else { (m * digit(ds[0]) + frac_fold(ds.drop_first(), m)) / 10 }
}

pub proof fn lemma_pow10_pos(k: nat)
    ensures pow10(k) >= 1,
    decreases k,
{
    if k > 0 { lemma_pow10_pos((k - 1) as nat); }
}

pub proof fn lemma_digit_bound(c: char)
    requires is_ascii_digit(c),
    ensures digit(c) <= 9,
{
}

pub proof fn lemma_digits_val_front(s: Seq<char>)
    requires s.len() > 0, all_digits(s),
    ensures digits_val(s) == digit(s[0]) * pow10((s.len() - 1) as nat) + digits_val(s.drop_first()),
    decreases s.len(),
{
    if s.len() == 1 {
        assert(s.drop_last().len() == 0);
        assert(s.drop_first().len() == 0);
        assert(pow10(0) == 1);
        assert(s.last() == s[0]);
        assert(digits_val(s.drop_last()) == 0);
        assert(digits_val(s) == digit(s[0]));
        assert(digit(s[0]) * pow10(0) == digit(s[0]));
    } else {
        let t = s.drop_last();
        assert(all_digits(t)) by {
            assert forall|i: int| 0 <= i < t.len() implies is_ascii_digit(t[i]) by { assert(t[i] == s[i]); }
        }
        lemma_digits_val_front(t);
        assert(t[0] == s[0]);
        assert(t.drop_first() == s.drop_first().drop_last());
        assert(s.drop_first().last() == s.last());
        let k = (s.len() - 2) as nat;
        assert((t.len() - 1) as nat == k);
        assert(((s.len() - 1) as nat) == k + 1);
        assert(pow10(k + 1) == 10 * pow10(k));
        let d0 = digit(s[0]);
        let vt = digits_val(t.drop_first());
        let l = digit(s.last());
        let pk = pow10(k);
        assert(digits_val(t) == d0 * pk + vt);
        assert(digits_val(s) == digits_val(t) * 10 + l);
        assert(digits_val(s.drop_first()) == vt * 10 + l);
        assert((d0 * pk + vt) * 10 + l == d0 * (10 * pk) + (vt * 10 + l)) by (nonlinear_arith);
    }
}

pub proof fn lemma_digits_val_bound(s: Seq<char>)
    requires all_digits(s),
    ensures digits_val(s) < pow10(s.len()),
    decreases s.len(),
{
    if s.len() > 0 {
        let t = s.drop_last();
        assert(all_digits(t)) by {
            assert forall|i: int| 0 <= i < t.len() implies is_ascii_digit(t[i]) by { assert(t[i] == s[i]); }
        }
        lemma_digits_val_bound(t);
        assert(is_ascii_digit(s[s.len() - 1]));
        assert(pow10(s.len()) == 10 * pow10(t.len()));
    }
}

pub proof fn lemma_frac_fold(ds: Seq<char>, m: nat)
    requires all_digits(ds),
    ensures frac_fold(ds, m) == (m * digits_val(ds)) / pow10(ds.len()),
    decreases ds.len(),
{
    if ds.len() == 0 {
        assert(pow10(0) == 1);
        assert(digits_val(ds) == 0);
        assert(m * 0 == 0);
    } else {
        let r = ds.drop_first();
        assert(all_digits(r)) by {
            assert forall|i: int| 0 <= i < r.len() implies is_ascii_digit(r[i]) by { assert(r[i] == ds[i + 1]); }
        }
        lemma_frac_fold(r, m);
        lemma_digits_val_front(ds);
        let k = r.len();
        assert((ds.len() - 1) as nat == k);
        let p = pow10(k);
        lemma_pow10_pos(k);
        let d = digit(ds[0]);
        let pi = p as int;
        let x: int = (m * digits_val(r)) as int;
        let a: int = (m * d) as int;
        assert(frac_fold(r, m) as int == x / pi);
        assert(frac_fold(ds, m) as int == (a + x / pi) / 10);
        lemma_hoist_over_denominator(x, a, p);
        assert(a + x / pi == (x + a * pi) / pi);
        let big: int = x + a * pi;
        assert(big >= 0) by (nonlinear_arith) requires x >= 0, a >= 0, pi >= 1, big == x + a * pi;
        lemma_div_denominator(big, pi, 10);
        assert(pow10(ds.len()) == 10 * p);
        assert((m * digits_val(ds)) as int == big) by (nonlinear_arith)
            requires digits_val(ds) == d * p + digits_val(r), x == (m * digits_val(r)) as int,
                a == (m * d) as int, pi == p as int, big == x + a * pi;
        assert(pi * 10 == (10 * p) as int);
        assert((big / pi) / 10 == big / (pi * 10));
        assert(frac_fold(ds, m) as int == big / (pi * 10));
        assert(((m * digits_val(ds)) / pow10(ds.len())) as int == big / (pi * 10));
    }
}

proof fn lemma_frac_fold_bound(ds: Seq<char>, m: nat)
    requires all_digits(ds), m > 0,
    ensures frac_fold(ds, m) < m,
    decreases ds.len(),
{
    if ds.len() > 0 {
        let r = ds.drop_first();
        assert(all_digits(r)) by {
            assert forall|i: int| 0 <= i < r.len() implies is_ascii_digit(r[i]) by { assert(r[i] == ds[i + 1]); }
        }
        lemma_frac_fold_bound(r, m);
        assert(is_ascii_digit(ds[0]));
        let d = digit(ds[0]);
        assert(m * d <= m * 9) by (nonlinear_arith) requires d <= 9;
    }
}

/// The rounded magnitude splits into the integer part times the unit and
/// the rounded fraction part.
proof fn lemma_magnitude_split(i: nat, f: nat, p: nat, u: nat, a: nat)
    requires p >= 1, a == (2 * u * f) / p,
    ensures (2 * u * (i * p + f) + p) as nat / (2 * p) == u * i + (a + 1) / 2,
{
    let x = (2 * u * f) as int;
    let pp = p as int;
    let r = x % pp;
    lemma_fundamental_div_mod(x, pp);
    assert(x == pp * (a as int) + r);
    assert(0 <= r < pp) by { lemma_mod_pos_bound(x, pp); }
    let big_q = 2 * u * i + a + 1;
    let q = u * i + (a + 1) / 2;
    let rem = (a + 1) % 2;
    assert(a + 1 == 2 * ((a + 1) / 2) + rem);
    let n = (2 * u * (i * p + f) + p) as int;
    assert(2 * u * (i * p + f) == pp * (2 * u * i) as int + x) by (nonlinear_arith)
        requires x == (2 * u * f) as int, pp == p as int;
    assert(pp * (big_q as int) == pp * (2 * u * i) as int + pp * (a as int) + pp) by (nonlinear_arith)
        requires big_q == 2 * u * i + a + 1;
    assert(n == pp * (big_q as int) + r);
    assert(n == (q as int) * (2 * pp) + (pp * (rem as int) + r)) by (nonlinear_arith)
        requires n == pp * (big_q as int) + r, big_q == 2 * u * i + a + 1, q == u * i + (a + 1) / 2,
            a + 1 == 2 * ((a + 1) / 2) + rem;
    assert(0 <= pp * (rem as int) + r < 2 * pp) by (nonlinear_arith)
        requires 0 <= r < pp, 0 <= rem <= 1, pp >= 1;
    lemma_fundamental_div_mod_converse(n, 2 * pp, q as int, pp * (rem as int) + r);
}

proof fn lemma_magnitude_lower(ip: Seq<char>, fp: Seq<char>, u: nat)
    ensures scaled_magnitude(ip, fp, u) >= u * digits_val(ip),
{
    let p = pow10(fp.len());
    lemma_pow10_pos(fp.len());
    let i = digits_val(ip);
    let f = digits_val(fp);
    let n = (2 * u * (i * p + f) + p) as int;
    assert(n >= (u * i) as int * (2 * p as int)) by (nonlinear_arith)
        requires n == (2 * u * (i * p + f) + p) as int, p >= 1;
    lemma_div_is_ordered((u * i) as int * (2 * p as int), n, 2 * p as int);
    lemma_div_multiples_vanish((u * i) as int, 2 * p as int);
    assert((u * i) as int * (2 * p as int) == (2 * p as int) * (u * i) as int) by (nonlinear_arith);
}

/// Where a parsed decimal sits in the characters it came from.
#[derive(Clone, Copy, Debug, PartialEq, Eq)]
pub struct DecimalSpan {
    pub neg: bool,
    pub int_start: usize,
    pub int_end: usize,
    pub frac_start: usize,
    pub frac_end: usize,
}

impl DecimalSpan {
    pub open spec fn wf(&self, s: Seq<char>) -> bool {
        &&& self.int_start <= self.int_end <= s.len()
        &&& self.frac_start <= self.frac_end <= s.len()
        &&& parse_decimal(s) == Some((self.neg, s.subrange(self.int_start as int, self.int_end as int),
                s.subrange(self.frac_start as int, self.frac_end as int)))
    }
}

proof fn lemma_find_char(s: Seq<char>, c: char, i: int)
    requires 0 <= i <= s.len(), forall|j: int| 0 <= j < i ==> s[j] != c, i == s.len() || s[i] == c,
    ensures find_char(s, c) == i,
    decreases s.len(),
{
    if s.len() > 0 && i > 0 {
        let t = s.drop_first();
        assert forall|j: int| 0 <= j < i - 1 implies t[j] != c by { assert(t[j] == s[j + 1]); }
        lemma_find_char(t, c, i - 1);
    }
}

/// Recognise a decimal literal in `s` (no surrounding whitespace allowed).
pub fn scan_decimal(s: &[char]) -> (r: Option<DecimalSpan>)
    ensures
        r is None <==> parse_decimal(s@) is None,
        r matches Some(d) ==> d.wf(s@),
{
    let n = s.len();
    let mut start: usize = 0;
    let mut neg = false;
    if n > 0 && s[0] == '-' {
        neg = true;
        start = 1;
    } else if n > 0 && s[0] == '+' {
        start = 1;
    }
    let ghost b = sign_split(s@).1;
    assert(b == s@.subrange(start as int, n as int));
    assert(neg == sign_split(s@).0);
    let mut i = start;
    while i < n && s[i] != '.'
        invariant
            start <= i <= n, n == s@.len(), b == s@.subrange(start as int, n as int),
            forall|j: int| start <= j < i ==> s@[j] != '.',
        decreases n - i,
    {
        i += 1;
    }
    let dot = i;
    proof {
        assert forall|j: int| 0 <= j < dot - start implies b[j] != '.' by { assert(b[j] == s@[start + j]); }
        if dot < n { assert(b[dot - start] == s@[dot as int]); }
        lemma_find_char(b, '.', dot - start);
    }
    let (fs, fe) = if dot < n { (dot + 1, n) } else { (n, n) };
    let ghost ip = b.take(dot - start);
    let ghost fp = if (dot - start) < b.len() { b.skip(dot - start + 1) } else { Seq::<char>::empty() };
    assert(ip == s@.subrange(start as int, dot as int));
    assert(fp == s@.subrange(fs as int, fe as int));
    let mut ok = true;
    let mut j = start;
    while j < dot
        invariant
            start <= j <= dot <= n, n == s@.len(),
            ok <==> (forall|k: int| start <= k < j ==> is_ascii_digit(s@[k])),
        decreases dot - j,
    {
        if !(s[j] >= '0' && s[j] <= '9') {
            ok = false;
        }
        j += 1;
    }
    let mut j = fs;
    while j < fe
        invariant
            fs <= j <= fe <= n, n == s@.len(),
            ok <==> ((forall|k: int| start <= k < dot ==> is_ascii_digit(s@[k]))
                && (forall|k: int| fs <= k < j ==> is_ascii_digit(s@[k]))),
        decreases fe - j,
    {
        if !(s[j] >= '0' && s[j] <= '9') {
            ok = false;
        }
        j += 1;
    }
    proof {
        if ok {
            assert forall|k: int| 0 <= k < ip.len() implies is_ascii_digit(ip[k]) by { assert(ip[k] == s@[start + k]); }
            assert forall|k: int| 0 <= k < fp.len() implies is_ascii_digit(fp[k]) by { assert(fp[k] == s@[fs + k]); }
        } else {
            if all_digits(ip) && all_digits(fp) {
                assert forall|k: int| start <= k < dot implies is_ascii_digit(s@[k]) by { assert(s@[k] == ip[k - start]); }
                assert forall|k: int| fs <= k < fe implies is_ascii_digit(s@[k]) by { assert(s@[k] == fp[k - fs]); }
                assert(false);
            }
        }
    }
    if ok && (dot - start) + (fe - fs) > 0 {
        Some(DecimalSpan { neg, int_start: start, int_end: dot, frac_start: fs, frac_end: fe })
    } else {
        None
    }
}

pub fn digit_of(c: char) -> (d: u8)
    requires is_ascii_digit(c),
    ensures d as nat == digit(c), d <= 9,
{
    ((c as u32) - ('0' as u32)) as u8
}

/// The decimal that `d` spans in `s`, times `unit`, rounded half away from
/// zero and saturated to the `i64` range.
pub fn scale_decimal(s: &[char], d: &DecimalSpan, unit: u64) -> (r: i64)
    requires
        d.wf(s@),
        1 <= unit <= 1_000_000_000,
    ensures
        r == decimal_scaled(parse_decimal(s@)->0, unit as nat),
{
    let ghost ip = s@.subrange(d.int_start as int, d.int_end as int);
    let ghost fp = s@.subrange(d.frac_start as int, d.frac_end as int);
    let two63: u128 = 0x8000_0000_0000_0000;
    let mut acc: u128 = 0;
    let mut sat = false;
    let mut j = d.int_start;
    while j < d.int_end
        invariant
            d.int_start <= j <= d.int_end <= s@.len(),
            all_digits(ip), ip == s@.subrange(d.int_start as int, d.int_end as int),
            two63 == 0x8000_0000_0000_0000u128,
            !sat ==> acc == digits_val(ip.take(j - d.int_start)) && acc <= two63,
            sat ==> digits_val(ip.take(j - d.int_start)) > two63,
        decreases d.int_end - j,
    {
        let ghost k = j - d.int_start;
        proof {
            assert(ip.take(k + 1).drop_last() == ip.take(k));
            assert(ip.take(k + 1).last() == s@[j as int]);
            assert(is_ascii_digit(ip[k]));
        }
        let dg = digit_of(s[j]);
        if !sat {
            acc = acc * 10 + dg as u128;
            if acc > two63 {
                sat = true;
            }
        } else {
            proof {
                assert(digits_val(ip.take(k + 1)) == digits_val(ip.take(k)) * 10 + digit(s@[j as int]));
            }
        }
        j += 1;
    }
    proof { assert(ip.take(ip.len() as int) == ip); }
    let m: u128 = 2 * (unit as u128);
    let mut f: u128 = 0;
    let mut i = d.frac_end;
    proof { assert(fp.skip(fp.len() as int).len() == 0); }
    while i > d.frac_start
        invariant
            d.frac_start <= i <= d.frac_end <= s@.len(),
            all_digits(fp), fp == s@.subrange(d.frac_start as int, d.frac_end as int),
            m == 2 * unit, 1 <= unit <= 1_000_000_000,
            f == frac_fold(fp.skip(i - d.frac_start), m as nat),
            f < m,
        decreases i - d.frac_start,
    {
        let ghost k = i - d.frac_start;
        let ghost t = fp.skip(k - 1);
        proof {
            assert(t.drop_first() == fp.skip(k));
            assert(t[0] == s@[i - 1]);
            assert(is_ascii_digit(fp[k - 1]));
        }
        let dg = digit_of(s[i - 1]);
        assert(m * (dg as u128) <= m * 9) by (nonlinear_arith) requires dg <= 9;
        f = (m * (dg as u128) + f) / 10;
        proof {
            assert(all_digits(t)) by {
                assert forall|q: int| 0 <= q < t.len() implies is_ascii_digit(t[q]) by { assert(t[q] == fp[k - 1 + q]); }
            }
            lemma_frac_fold_bound(t, m as nat);
        }
        i -= 1;
    }
    proof {
        assert(fp.skip(0) == fp);
        lemma_frac_fold(fp, m as nat);
        lemma_pow10_pos(fp.len());
        lemma_magnitude_split(digits_val(ip), digits_val(fp), pow10(fp.len()), unit as nat, f as nat);
        lemma_magnitude_lower(ip, fp, unit as nat);
    }
    let half: u128 = (f + 1) / 2;
    let ghost mag = scaled_magnitude(ip, fp, unit as nat);
    if sat {
        proof {
            assert(unit as nat * digits_val(ip) >= digits_val(ip)) by (nonlinear_arith) requires unit >= 1;
        }
        if d.neg { i64::MIN } else { i64::MAX }
    } else {
        assert((unit as u128) * acc <= 1_000_000_000u128 * two63) by (nonlinear_arith)
            requires unit <= 1_000_000_000, acc <= two63;
        let mg: u128 = (unit as u128) * acc + half;
        assert(mg == mag);
        if d.neg {
            if mg >= two63 { i64::MIN } else { -(mg as i64) }
        } else {
            if mg > 0x7fff_ffff_ffff_ffffu128 { i64::MAX } else { mg as i64 }
        }
    }
}

} // verus!
