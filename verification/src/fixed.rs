//! Fixed-point arithmetic for the scoring engine.
//!
//! Every similarity score, term weight and configuration knob in this crate
//! is an integer scaled by [`SCALE`]: a stored value `v` stands for the real
//! number `v / SCALE`. This module provides the two non-trivial pieces:
//! an exact integer square root and a deterministic fixed-point natural
//! logarithm, each pinned down to the unit by its specification.

use vstd::arithmetic::power2::pow2;
use vstd::prelude::*;

verus! {

/// The fixed-point scale: a score `v` stands for the real number `v / SCALE`.
pub const SCALE: u64 = 1_000_000;

/// `SCALE` times the natural logarithm of two, rounded to the nearest unit.
pub const LN2_SCALED: u64 = 693_147;

/// An upper bound on every value [`ln_scaled_u64`] can return (it is
/// approached only as `num/den` approaches `2^64`).
pub const LN_MAX: u64 = 44_361_408;

/// `r` is the integer square root of `x`.
pub open spec fn is_sqrt(x: nat, r: nat) -> bool {
    r * r <= x < (r + 1) * (r + 1)
}

/// The integer square root: the unique `r` with `r * r <= x < (r+1) * (r+1)`.
pub closed spec fn sqrt_nat(x: nat) -> nat {
    choose|r: nat| #[trigger] is_sqrt(x, r)
}

proof fn lemma_sqrt_exists(x: nat)
    ensures
        exists|r: nat| #[trigger] is_sqrt(x, r),
    decreases x,
{
    if x == 0 {
        assert(is_sqrt(0, 0)) by {
            assert((0 + 1) * (0 + 1) == 1) by (nonlinear_arith);
        }
    } else {
        lemma_sqrt_exists((x - 1) as nat);
        let r = choose|r: nat| #[trigger] is_sqrt((x - 1) as nat, r);
        if x < (r + 1) * (r + 1) {
            assert(is_sqrt(x, r));
        } else {
            assert(x == (r + 1) * (r + 1));
            assert((r + 1) * (r + 1) < (r + 2) * (r + 2)) by (nonlinear_arith);
            assert(is_sqrt(x, r + 1));
        }
    }
}

/// The defining property of [`sqrt_nat`].
pub proof fn lemma_sqrt_nat(x: nat)
    ensures
        is_sqrt(x, sqrt_nat(x)),
{
    lemma_sqrt_exists(x);
}

/// The integer square root is unique.
pub proof fn lemma_sqrt_unique(x: nat, r: nat)
    requires
        is_sqrt(x, r),
    ensures
        r == sqrt_nat(x),
{
    lemma_sqrt_nat(x);
    let s = sqrt_nat(x);
    if r < s {
        assert((r + 1) * (r + 1) <= s * s) by (nonlinear_arith)
            requires
                r + 1 <= s,
        ;
    } else if s < r {
        assert((s + 1) * (s + 1) <= r * r) by (nonlinear_arith)
            requires
                s + 1 <= r,
        ;
    }
}

/// The integer square root, by binary search.
pub fn isqrt(x: u128) -> (r: u128)
    ensures
        r as nat == sqrt_nat(x as nat),
        (r as nat) * (r as nat) <= x as nat,
        (x as nat) < (r as nat + 1) * (r as nat + 1),
{
    let mut lo: u128 = 0;
    let mut hi: u128 = 0x1_0000_0000_0000_0000;
    proof {
        assert((0x1_0000_0000_0000_0000 as nat) * (0x1_0000_0000_0000_0000 as nat) > u128::MAX
            as nat) by (nonlinear_arith);
    }
    while hi - lo > 1
        invariant
            lo < hi <= 0x1_0000_0000_0000_0000,
            (lo as nat) * (lo as nat) <= x as nat,
            (x as nat) < (hi as nat) * (hi as nat),
        decreases hi - lo,
    {
        let mid = lo + (hi - lo) / 2;
        proof {
            assert(lo < mid < hi);
            assert((mid as nat) * (mid as nat) <= 0xffff_ffff_ffff_ffff * 0xffff_ffff_ffff_ffff)
                by (nonlinear_arith)
                requires
                    mid <= 0xffff_ffff_ffff_ffff,
            ;
            assert(0xffff_ffff_ffff_ffff * 0xffff_ffff_ffff_ffff <= u128::MAX as nat)
                by (nonlinear_arith);
        }
        if mid * mid <= x {
            lo = mid;
        } else {
            hi = mid;
        }
    }
    proof {
        lemma_sqrt_unique(x as nat, lo as nat);
    }
    lo
}

/// The largest `k` with `den * 2^k <= num` (zero when `den` is zero).
pub open spec fn log2_floor(num: nat, den: nat) -> nat
    recommends
        1 <= den <= num,
    decreases num - den,
{
    if den == 0 || num < 2 * den {
        0
    } else {
        1 + log2_floor(num, 2 * den)
    }
}

/// The first `i` fractional bits of the base-two logarithm of `m / 2^31`
/// (for a mantissa `m` in `[2^31, 2^32)`), read as an `i`-bit integer.
/// Each step squares the mantissa; a bit records whether the square
/// crossed two.
pub open spec fn log2_frac(m: nat, i: nat) -> nat
    decreases i,
{
    if i == 0 {
        0
    } else {
        let s = (m * m) / 0x8000_0000;
        if s >= 0x1_0000_0000 {
            pow2((i - 1) as nat) + log2_frac(s / 2, (i - 1) as nat)
        } else {
            log2_frac(s, (i - 1) as nat)
        }
    }
}

/// `SCALE` times the natural logarithm of `num / den`, computed from the
/// base-two logarithm with twenty fractional bits and the constant
/// [`LN2_SCALED`], rounding down at each division.
pub open spec fn ln_scaled(num: nat, den: nat) -> nat
    recommends
        1 <= den <= num,
{
    let k = log2_floor(num, den);
    let m = (num * 0x8000_0000) / (den * pow2(k));
    let frac = log2_frac(m, 20);
    ((k * 0x10_0000 + frac) * (LN2_SCALED as nat)) / 0x10_0000
}

proof fn lemma_log2_frac_bound(m: nat, i: nat)
    ensures
        log2_frac(m, i) < pow2(i),
    decreases i,
{
    vstd::arithmetic::power2::lemma_pow2_pos(i);
    if i != 0 {
        let s = (m * m) / 0x8000_0000;
        vstd::arithmetic::power2::lemma_pow2_unfold(i);
        if s >= 0x1_0000_0000 {
            lemma_log2_frac_bound(s / 2, (i - 1) as nat);
        } else {
            lemma_log2_frac_bound(s, (i - 1) as nat);
        }
    }
}

proof fn lemma_log2_floor_bound(num: nat, den: nat)
    requires
        1 <= den <= num,
        num <= u64::MAX,
    ensures
        log2_floor(num, den) < 64,
        den * pow2(log2_floor(num, den)) <= num,
    decreases num - den,
{
    let k = log2_floor(num, den);
    if num < 2 * den {
        vstd::arithmetic::power2::lemma2_to64();
        assert(den * pow2(0) == den) by (nonlinear_arith)
            requires
                pow2(0) == 1,
        ;
    } else {
        lemma_log2_floor_bound(num, 2 * den);
        let k2 = log2_floor(num, 2 * den);
        vstd::arithmetic::power2::lemma_pow2_unfold(k);
        assert(den * pow2(k) == (2 * den) * pow2(k2)) by (nonlinear_arith)
            requires
                pow2(k) == 2 * pow2(k2),
                k2 + 1 == k,
        ;
        if k >= 64 {
            vstd::arithmetic::power2::lemma2_to64_rest();
            if k > 64 {
                vstd::arithmetic::power2::lemma_pow2_strictly_increases(64, k);
            }
            assert(den * pow2(k) >= pow2(k)) by (nonlinear_arith)
                requires
                    den >= 1,
                    pow2(k) >= 0,
            ;
            assert(false);
        }
    }
}

/// `SCALE` times the natural logarithm of `num / den`, exactly as
/// [`ln_scaled`] defines it.
pub fn ln_scaled_u64(num: u64, den: u64) -> (r: u64)
    requires
        1 <= den <= num,
    ensures
        r as nat == ln_scaled(num as nat, den as nat),
        r < LN_MAX,
{
    proof {
        vstd::arithmetic::power2::lemma2_to64();
        lemma_log2_floor_bound(num as nat, den as nat);
    }
    let mut k: u64 = 0;
    let mut d: u64 = den;
    while d <= num / 2
        invariant
            1 <= den <= d <= num,
            d as nat == den as nat * pow2(k as nat),
            log2_floor(num as nat, den as nat) == k as nat + log2_floor(num as nat, d as nat),
            k < 64,
        decreases num - d,
    {
        proof {
            vstd::arithmetic::power2::lemma_pow2_unfold(k as nat + 1);
            assert(2 * d as nat == den as nat * pow2(k as nat + 1)) by (nonlinear_arith)
                requires
                    d as nat == den as nat * pow2(k as nat),
                    pow2(k as nat + 1) == 2 * pow2(k as nat),
            ;
            if k as nat + 1 >= 64 {
                vstd::arithmetic::power2::lemma2_to64_rest();
                assert(den as nat * pow2(64) >= pow2(64)) by (nonlinear_arith)
                    requires
                        den >= 1,
                        pow2(64) >= 0,
                ;
                assert(false);
            }
        }
        d = d * 2;
        k = k + 1;
    }
    proof {
        assert(num < 2 * d);
        assert(log2_floor(num as nat, d as nat) == 0);
        assert(k as nat == log2_floor(num as nat, den as nat));
    }
    let m128: u128 = ((num as u128) * 0x8000_0000) / (d as u128);
    proof {
        let n31 = num as int * 0x8000_0000;
        assert(n31 < d as int * 0x1_0000_0000) by (nonlinear_arith)
            requires
                (num as int) < 2 * (d as int),
                d >= 1,
                n31 == (num as int) * 0x8000_0000,
        ;
        vstd::arithmetic::div_mod::lemma_multiply_divide_lt(n31, d as int, 0x1_0000_0000);
        assert(d as int * 0x8000_0000 <= n31) by (nonlinear_arith)
            requires
                d <= num,
                n31 == (num as int) * 0x8000_0000,
        ;
        vstd::arithmetic::div_mod::lemma_div_is_ordered(d as int * 0x8000_0000, n31, d as int);
        vstd::arithmetic::div_mod::lemma_div_multiples_vanish(0x8000_0000, d as int);
        assert(m128 >= 0x8000_0000);
    }
    let mut m: u64 = m128 as u64;
    let ghost m0: nat = m as nat;
    let mut frac: u64 = 0;
    let mut j: u64 = 0;
    while j < 20
        invariant
            j <= 20,
            0x8000_0000 <= m < 0x1_0000_0000,
            frac < pow2(j as nat),
            frac as nat * pow2((20 - j) as nat) + log2_frac(m as nat, (20 - j) as nat) == log2_frac(
                m0,
                20,
            ),
        decreases 20 - j,
    {
        let ghost old_frac = frac as nat;
        let ghost old_m = m as nat;
        let ghost rem = (20 - j) as nat;
        proof {
            assert(old_m * old_m < 0x1_0000_0000 * 0x1_0000_0000) by (nonlinear_arith)
                requires
                    (old_m as nat) < 0x1_0000_0000,
            ;
            assert(0x1_0000_0000 * 0x1_0000_0000 <= u64::MAX as nat + 1) by (nonlinear_arith);
        }
        let s: u64 = (m * m) / 0x8000_0000;
        proof {
            assert((old_m as int) * (old_m as int) >= 0x8000_0000int * 0x8000_0000)
                by (nonlinear_arith)
                requires
                    (old_m as int) >= 0x8000_0000,
            ;
            vstd::arithmetic::div_mod::lemma_div_is_ordered(
                0x8000_0000int * 0x8000_0000,
                (old_m as int) * (old_m as int),
                0x8000_0000,
            );
            assert(0x8000_0000 * 0x8000_0000 / 0x8000_0000 == 0x8000_0000) by (nonlinear_arith);
            assert(s >= 0x8000_0000);
            vstd::arithmetic::power2::lemma_pow2_unfold(rem);
            vstd::arithmetic::power2::lemma_pow2_unfold(j as nat + 1);
            vstd::arithmetic::power2::lemma_pow2_strictly_increases(j as nat, 20);
            vstd::arithmetic::power2::lemma2_to64();
            assert(old_frac * pow2(rem) == (2 * old_frac) * pow2((rem - 1) as nat))
                by (nonlinear_arith)
                requires
                    pow2(rem) == 2 * pow2((rem - 1) as nat),
            ;
            assert((2 * old_frac + 1) * pow2((rem - 1) as nat) == (2 * old_frac) * pow2(
                (rem - 1) as nat,
            ) + pow2((rem - 1) as nat)) by (nonlinear_arith);
        }
        if s >= 0x1_0000_0000 {
            frac = frac * 2 + 1;
            m = s / 2;
        } else {
            frac = frac * 2;
            m = s;
        }
        j = j + 1;
    }
    proof {
        vstd::arithmetic::power2::lemma2_to64();
        assert(log2_frac(m as nat, (20 - j) as nat) == 0);
        assert(frac as nat * pow2((20 - j) as nat) == frac as nat) by (nonlinear_arith)
            requires
                pow2((20 - j) as nat) == 1,
        ;
        assert(frac as nat == log2_frac(m0, 20));
        lemma_log2_frac_bound(m0, 20);
    }
    let combined: u64 = k * 0x10_0000 + frac;
    let r: u64 = (combined * LN2_SCALED) / 0x10_0000;
    proof {
        assert(combined as nat * (LN2_SCALED as nat) < 0x400_0000 * 693_147) by (nonlinear_arith)
            requires
                (combined as nat) < 0x400_0000,
        ;
        vstd::arithmetic::div_mod::lemma_div_is_ordered(
            (combined as int) * (LN2_SCALED as int),
            0x400_0000 * 693_147 - 1,
            0x10_0000,
        );
        assert((0x400_0000 * 693_147 - 1) / 0x10_0000 < 44_361_408) by (nonlinear_arith);
    }
    r
}

/// The logarithm of one is zero: `ln_scaled(x, x) == 0`.
pub proof fn lemma_ln_scaled_same(x: nat)
    requires
        x >= 1,
    ensures
        ln_scaled(x, x) == 0,
{
    assert(log2_floor(x, x) == 0);
    vstd::arithmetic::power2::lemma2_to64();
    assert(x * 0x8000_0000 == 0x8000_0000 * x) by (nonlinear_arith);
    vstd::arithmetic::div_mod::lemma_div_multiples_vanish(0x8000_0000, x as int);
    assert((x * 0x8000_0000) / (x * 1) == 0x8000_0000);
    lemma_log2_frac_exact(20);
    assert((0 * (LN2_SCALED as nat)) / 0x10_0000 == 0) by (nonlinear_arith);
}

proof fn lemma_log2_frac_exact(i: nat)
    ensures
        log2_frac(0x8000_0000, i) == 0,
    decreases i,
{
    if i != 0 {
        assert((0x8000_0000 * 0x8000_0000) / 0x8000_0000 == 0x8000_0000) by (nonlinear_arith);
        lemma_log2_frac_exact((i - 1) as nat);
    }
}

} // verus!
