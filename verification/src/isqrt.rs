//! Integer square roots, for exact distances between integer points.

use vstd::prelude::*;

verus! {

/// `floor(sqrt(n))`.
pub open spec fn isqrt(n: nat) -> nat
    decreases n,
{
    if n == 0 {
        0
    } else {
        let r = 2 * isqrt(n / 4);
        if (r + 1) * (r + 1) <= n { (r + 1) as nat } else { r }
    }
}

/// The integer nearest to `sqrt(n)` (never a tie for integer `n`).
pub open spec fn round_sqrt(n: nat) -> nat {
    let r = isqrt(n);
    if n > r * r + r { r + 1 } else { r }
}

pub proof fn lemma_isqrt(n: nat)
    ensures isqrt(n) * isqrt(n) <= n < (isqrt(n) + 1) * (isqrt(n) + 1),
    decreases n,
{
    if n > 0 {
        lemma_isqrt(n / 4);
        let q = isqrt(n / 4);
        let r = 2 * q;
        assert(r * r <= n) by (nonlinear_arith) requires q * q <= n / 4, r == 2 * q;
        assert(n < (r + 2) * (r + 2)) by (nonlinear_arith) requires n / 4 < (q + 1) * (q + 1), r == 2 * q;
        let s = isqrt(n);
        if (r + 1) * (r + 1) <= n {
            assert(s == r + 1);
            assert(s * s <= n < (s + 1) * (s + 1)) by (nonlinear_arith)
                requires s == r + 1, (r + 1) * (r + 1) <= n, n < (r + 2) * (r + 2);
        } else {
            assert(s == r);
            assert(s * s <= n < (s + 1) * (s + 1)) by (nonlinear_arith)
                requires s == r, r * r <= n, n < (r + 1) * (r + 1);
        }
    } else {
        assert(isqrt(n) == 0);
        assert(0nat * 0nat == 0 && (0nat + 1) * (0nat + 1) == 1) by (nonlinear_arith);
    }
}

pub proof fn lemma_isqrt_unique(n: nat, a: nat)
    requires a * a <= n < (a + 1) * (a + 1),
    ensures isqrt(n) == a,
{
    lemma_isqrt(n);
    let b = isqrt(n);
    if a < b {
        assert((a + 1) * (a + 1) <= b * b) by (nonlinear_arith) requires a < b;
    } else if b < a {
        assert((b + 1) * (b + 1) <= a * a) by (nonlinear_arith) requires b < a;
    }
}

/// The integer nearest to `sqrt(n)`.
pub fn nearest_sqrt(n: u128) -> (r: u128)
    requires n <= 0x8000_0000_0000_0000_0000_0000_0000_0000u128,
    ensures r == round_sqrt(n as nat), r <= 0x1_0000_0000_0000_0000u128,
{
    let mut lo: u128 = 0;
    let mut hi: u128 = 0x1_0000_0000_0000_0000u128;
    assert(n < hi * hi) by (nonlinear_arith)
        requires n <= 0x8000_0000_0000_0000_0000_0000_0000_0000u128, hi == 0x1_0000_0000_0000_0000u128;
    while hi - lo > 1
        invariant
            lo < hi <= 0x1_0000_0000_0000_0000u128,
            lo * lo <= n, n < hi * hi,
        decreases hi - lo,
    {
        let mid = lo + (hi - lo) / 2;
        assert(mid * mid <= 0xffff_ffff_ffff_ffffu128 * 0xffff_ffff_ffff_ffffu128) by (nonlinear_arith)
            requires mid < 0x1_0000_0000_0000_0000u128;
        if mid * mid <= n {
            lo = mid;
        } else {
            hi = mid;
        }
    }
    proof {
        assert(hi == lo + 1);
        lemma_isqrt_unique(n as nat, lo as nat);
    }
    assert(lo * lo + lo <= n + lo);
    if n > lo * lo + lo { lo + 1 } else { lo }
}

} // verus!
