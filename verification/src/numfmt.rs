//! Integer to decimal text, and nanometres written as millimetres.

use vstd::prelude::*;
use crate::text::push_char;

verus! {

pub open spec fn digit_char(d: nat) -> char {
    ((d + ('0' as u32)) as u32) as char
}

/// Decimal digits of `n`, most significant first, `"0"` for zero.
pub open spec fn nat_digits(n: nat) -> Seq<char>
    decreases n,
{
    if n < 10 { seq![digit_char(n)] } else { nat_digits(n / 10).push(digit_char(n % 10)) }
}

/// Exactly `width` digits of `n` (the low ones), zero padded on the left.
pub open spec fn padded_digits(n: nat, width: nat) -> Seq<char>
    decreases width,
{
    if width == 0 { Seq::empty() } else { padded_digits(n / 10, (width - 1) as nat).push(digit_char(n % 10)) }
}

/// `s` without trailing `'0'`s.
pub open spec fn strip_zeros(s: Seq<char>) -> Seq<char>
    decreases s.len(),
{
    if s.len() > 0 && s.last() == '0' { strip_zeros(s.drop_last()) } else { s }
}

/// Integer part, then a point and the fraction digits without trailing
/// zeros when there is a fraction: `n / 10^scale` written out exactly.
pub open spec fn fixed_text(n: nat, scale: nat) -> Seq<char> {
    let p = crate::decimal::pow10(scale);
    let frac = strip_zeros(padded_digits(n % p, scale));
    if frac.len() == 0 { nat_digits(n / p) } else { nat_digits(n / p) + seq!['.'] + frac }
}

/// A signed integer `v / 10^scale` as exact decimal text; zero has no sign.
pub open spec fn signed_fixed_text(v: int, scale: nat) -> Seq<char> {
    if v < 0 { seq!['-'] + fixed_text((-v) as nat, scale) } else { fixed_text(v as nat, scale) }
}

fn digit_to_char(d: u64) -> (c: char)
    requires d < 10,
    ensures c == digit_char(d as nat),
{
    let b: u8 = (d as u8) + 48;
    b as char
}

/// Appends the decimal digits of `n`.
pub fn push_nat(s: &mut String, n: u64)
    ensures final(s)@ == old(s)@ + nat_digits(n as nat),
    decreases n,
{
    if n >= 10 {
        push_nat(s, n / 10);
        push_char(s, digit_to_char(n % 10));
    } else {
        push_char(s, digit_to_char(n));
    }
}

/// The decimal text of `n`.
pub fn nat_text(n: u64) -> (s: String)
    ensures s@ == nat_digits(n as nat),
{
    let mut s = String::new();
    push_nat(&mut s, n);
    s
}

proof fn lemma_strip_padded(n: nat, width: nat)
    requires width > 0, n % 10 == 0,
    ensures strip_zeros(padded_digits(n, width)) == strip_zeros(padded_digits(n / 10, (width - 1) as nat)),
{
    let s = padded_digits(n, width);
    assert(s.last() == digit_char(0));
    assert(s.drop_last() == padded_digits(n / 10, (width - 1) as nat));
}

proof fn lemma_strip_done(n: nat, width: nat)
    requires width == 0 || n % 10 != 0,
    ensures strip_zeros(padded_digits(n, width)) == padded_digits(n, width),
{
    if width > 0 {
        let s = padded_digits(n, width);
        assert(s.last() == digit_char(n % 10));
        assert((n % 10) + 48 != 48);
    }
}

/// Appends the last `width` digits of `n`, zero padded.
pub fn push_padded(s: &mut String, n: u64, width: u64)
    ensures final(s)@ == old(s)@ + padded_digits(n as nat, width as nat),
    decreases width,
{
    if width > 0 {
        push_padded(s, n / 10, width - 1);
        push_char(s, digit_to_char(n % 10));
    }
}

/// Appends `n / 10^scale` as exact decimal text.
pub fn push_fixed(s: &mut String, n: u64, scale: u64)
    requires scale <= 18,
    ensures final(s)@ == old(s)@ + fixed_text(n as nat, scale as nat),
{
    let mut p: u64 = 1;
    let mut k: u64 = 0;
    while k < scale
        invariant k <= scale <= 18, p == crate::decimal::pow10(k as nat), p <= 1_000_000_000_000_000_000u64,
        decreases scale - k,
    {
        proof {
            lemma_pow10_le((k + 1) as nat, 18);
            reveal_with_fuel(crate::decimal::pow10, 19);
            assert(crate::decimal::pow10(18) == 1_000_000_000_000_000_000);
        }
        p = p * 10;
        k += 1;
    }
    proof { crate::decimal::lemma_pow10_pos(scale as nat); }
    let ip = n / p;
    let mut f = n % p;
    let mut w = scale;
    assert(f < p);
    while w > 0 && f % 10 == 0
        invariant
            w <= scale,
            strip_zeros(padded_digits(f as nat, w as nat)) == strip_zeros(padded_digits((n % p) as nat, scale as nat)),
        decreases w,
    {
        proof { lemma_strip_padded(f as nat, w as nat); }
        f = f / 10;
        w = w - 1;
    }
    proof { lemma_strip_done(f as nat, w as nat); }
    push_nat(s, ip);
    if w > 0 {
        push_char(s, '.');
        push_padded(s, f, w);
        proof {
            assert(padded_digits(f as nat, w as nat).len() > 0) by { lemma_padded_len(f as nat, w as nat); }
        }
    } else {
        assert(padded_digits(f as nat, 0) == Seq::<char>::empty());
    }
}

proof fn lemma_padded_len(n: nat, w: nat)
    ensures padded_digits(n, w).len() == w,
    decreases w,
{
    if w > 0 { lemma_padded_len(n / 10, (w - 1) as nat); }
}

proof fn lemma_pow10_le(k: nat, m: nat)
    requires k <= m,
    ensures crate::decimal::pow10(k) <= crate::decimal::pow10(m),
    decreases m - k,
{
    if k < m {
        lemma_pow10_le(k, (m - 1) as nat);
        crate::decimal::lemma_pow10_pos((m - 1) as nat);
    }
}

/// `v / 10^scale` as exact decimal text, `-` for negatives.
pub fn signed_fixed(v: i64, scale: u64) -> (s: String)
    requires scale <= 18,
    ensures s@ == signed_fixed_text(v as int, scale as nat),
{
    let mut s = String::new();
    if v < 0 {
        push_char(&mut s, '-');
        let m: u64 = ((-(v as i128)) as u128) as u64;
        push_fixed(&mut s, m, scale);
    } else {
        push_fixed(&mut s, v as u64, scale);
    }
    s
}


/// An integer as decimal text, `-` before a negative one.
pub open spec fn int_text(v: int) -> Seq<char> {
    if v < 0 { seq!['-'] + nat_digits((-v) as nat) } else { nat_digits(v as nat) }
}

/// Appends `v` as decimal text.
pub fn push_int(s: &mut String, v: i64)
    ensures final(s)@ == old(s)@ + int_text(v as int),
{
    if v < 0 {
        push_char(s, '-');
        let m: u64 = ((-(v as i128)) as u128) as u64;
        push_nat(s, m);
        proof { assert(old(s)@ + seq!['-'] + nat_digits(m as nat) =~= old(s)@ + int_text(v as int)); }
    } else {
        push_nat(s, v as u64);
    }
}

} // verus!
