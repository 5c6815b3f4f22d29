//! Fixed-point arithmetic for the ranker.
//!
//! All scores and weights in this crate are nonnegative fixed-point numbers:
//! an integer `w` stands for the real number `w / SCALE`. The two pieces of
//! real analysis the ranker needs — a square root for vector magnitudes and a
//! natural logarithm for inverse document frequencies — are computed here in
//! integer arithmetic, and each result is pinned exactly to a spec-level
//! recurrence.

use vstd::prelude::*;
use vstd::arithmetic::div_mod::{
    lemma_div_is_ordered, lemma_div_multiples_vanish, lemma_multiply_divide_lt,
};
use vstd::arithmetic::mul::lemma_mul_inequality;
use vstd::arithmetic::power2::{
    pow2, lemma_pow2_pos, lemma_pow2_unfold, lemma_pow2_adds, lemma_pow2_strictly_increases,
};

verus! {

/// Fixed-point scale: an integer `w` stands for the real `w / SCALE`,
/// so `SCALE` itself stands for 1.0.
pub const SCALE: u64 = 1_000_000;

/// `ln(2) * SCALE`, rounded to the nearest integer.
pub const LN2_SCALED: u64 = 693_147;

/// Upper bound on every value `ln_scaled` can return: `64 * LN2_SCALED`,
/// the scaled logarithm of the largest representable ratio.
pub const LN_MAX_SCALED: u64 = 44_361_408;

/// Binary fraction scale used internally by `ln_scaled`: 2^20.
pub const LN_FRAC: u64 = 1_048_576;

/// `r` is the integer square root of `x`.
pub open spec fn is_sqrt(x: nat, r: nat) -> bool {
    r * r <= x && x < (r + 1) * (r + 1)
}

/// Integer square root, by binary search.
pub fn isqrt(x: u128) -> (r: u128)
    ensures
        is_sqrt(x as nat, r as nat),
        r < 0x1_0000_0000_0000_0000,
{
    let mut lo: u128 = 0;
    let mut hi: u128 = 0x1_0000_0000_0000_0000;
    assert((x as nat) < (hi as nat) * (hi as nat)) by {
        assert(u128::MAX < 0x1_0000_0000_0000_0000u128 as nat
            * 0x1_0000_0000_0000_0000u128 as nat);
    };
    while lo + 1 < hi
        invariant
            lo < hi <= 0x1_0000_0000_0000_0000,
            (lo as nat) * (lo as nat) <= x as nat,
            (x as nat) < (hi as nat) * (hi as nat),
        decreases hi - lo,
    {
        let mid: u128 = lo + (hi - lo) / 2;
        assert(lo < mid < hi);
        proof {
            assert((mid as nat) * (mid as nat) <= 0xffff_ffff_ffff_ffffnat
                * 0xffff_ffff_ffff_ffffnat) by (nonlinear_arith)
                requires
                    mid <= 0xffff_ffff_ffff_ffffu128,
            ;
            assert(0xffff_ffff_ffff_ffffnat * 0xffff_ffff_ffff_ffffnat <= u128::MAX)
               ;
        }
        if mid * mid <= x {
            lo = mid;
        } else {
            hi = mid;
        }
    }
    lo
}

/// Number of doublings of `d` that stay at or below `num`:
/// the integer part of `log2(num / d)` for `1 <= d <= num`.
pub open spec fn log2_floor(d: nat, num: nat) -> nat
    decreases num - d when 1 <= d <= num
{
    if 2 * d <= num {
        1 + log2_floor(2 * d, num)
    } else {
        0
    }
}

/// The first `i` binary fraction digits of `log2(m / LN_FRAC)`, read as an
/// integer in `[0, 2^i)`, for a mantissa `m` in `[LN_FRAC, 2 * LN_FRAC)`:
/// the classic digit-extraction recurrence that repeatedly squares the
/// mantissa and emits a 1 whenever the square crosses 2.0.
pub open spec fn log2_frac_bits(m: nat, i: nat) -> nat
    decreases i
{
    if i == 0 {
        0
    } else {
        let m2 = m * m / (LN_FRAC as nat);
        if m2 >= 2 * (LN_FRAC as nat) {
            pow2((i - 1) as nat) + log2_frac_bits(m2 / 2, (i - 1) as nat)
        } else {
            log2_frac_bits(m2, (i - 1) as nat)
        }
    }
}

/// The value `ln_scaled(num, den)` returns: `log2(num/den)` computed to 20
/// binary fraction digits, multiplied by `ln(2) * SCALE`.
pub open spec fn spec_ln_scaled(num: nat, den: nat) -> nat {
    let k = log2_floor(den, num);
    let m0 = num * (LN_FRAC as nat) / (den * pow2(k));
    (k * (LN_FRAC as nat) + log2_frac_bits(m0, 20)) * (LN2_SCALED as nat) / (LN_FRAC as nat)
}

pub proof fn lemma_log2_frac_bits_bound(m: nat, i: nat)
    ensures
        log2_frac_bits(m, i) < pow2(i),
    decreases i,
{
    lemma_pow2_pos(i);
    if i > 0 {
        let m2 = m * m / (LN_FRAC as nat);
        lemma_pow2_pos((i - 1) as nat);
        if m2 >= 2 * (LN_FRAC as nat) {
            lemma_log2_frac_bits_bound(m2 / 2, (i - 1) as nat);
        } else {
            lemma_log2_frac_bits_bound(m2, (i - 1) as nat);
        }
        lemma_pow2_unfold(i);
    }
}

/// A mantissa of exactly 1.0 yields no fraction digits: every square is 1.0.
pub proof fn lemma_log2_frac_bits_one(i: nat)
    ensures
        log2_frac_bits(LN_FRAC as nat, i) == 0,
    decreases i,
{
    if i > 0 {
        assert((LN_FRAC as nat) * (LN_FRAC as nat) / (LN_FRAC as nat) == LN_FRAC as nat) by {
            lemma_div_multiples_vanish(LN_FRAC as int, LN_FRAC as int);
        };
        lemma_log2_frac_bits_one((i - 1) as nat);
    }
}

/// The combined log2 digits stay under 64 * 2^20, so the scaled result stays
/// under LN_MAX_SCALED.
proof fn lemma_ln_result_bound(k: nat, fbits: nat)
    requires
        k <= 63,
        fbits < LN_FRAC,
    ensures
        (k * (LN_FRAC as nat) + fbits) * (LN2_SCALED as nat) / (LN_FRAC as nat)
            <= LN_MAX_SCALED,
{
    let f = LN_FRAC as nat;
    let total = k * f + fbits;
    assert(k * f <= 63 * f) by (nonlinear_arith)
        requires
            k <= 63,
    ;
    assert(total < 64 * f);
    lemma_mul_inequality(total as int, (64 * f) as int, LN2_SCALED as int);
    lemma_div_is_ordered((total * (LN2_SCALED as nat)) as int,
        (64 * f * (LN2_SCALED as nat)) as int, f as int);
    assert(64 * (LN_FRAC as nat) * (LN2_SCALED as nat) / (LN_FRAC as nat)
        == LN_MAX_SCALED);
}

proof fn lemma_pow2_ge_2_64(k: nat)
    requires
        k >= 64,
    ensures
        pow2(k) >= 0x1_0000_0000_0000_0000,
{
    lemma_pow2_adds(64, (k - 64) as nat);
    vstd::arithmetic::power2::lemma2_to64();
    lemma_pow2_pos((k - 64) as nat);
    assert(pow2(64) * pow2((k - 64) as nat) >= pow2(64) * 1) by (nonlinear_arith)
        requires
            pow2((k - 64) as nat) >= 1,
    ;
}

/// Scaled natural logarithm of the ratio `num / den`: returns
/// `spec_ln_scaled(num, den)`, an approximation of `ln(num / den) * SCALE`
/// good to about five decimal places.
pub fn ln_scaled(num: u64, den: u64) -> (r: u64)
    requires
        1 <= den <= num,
    ensures
        r == spec_ln_scaled(num as nat, den as nat),
        r <= LN_MAX_SCALED,
        num == den ==> r == 0,
        num >= 2 * den ==> r >= LN2_SCALED,
{
    let frac: u128 = 1_048_576;

    // Integer part of log2(num / den): double den while it stays below num.
    let mut d: u128 = den as u128;
    let mut k: u64 = 0;
    proof {
        vstd::arithmetic::power2::lemma2_to64();
    }
    while 2 * d <= num as u128
        invariant
            1 <= den <= num,
            1 <= d,
            d == den as nat * pow2(k as nat),
            d <= num,
            log2_floor(den as nat, num as nat) == k as nat + log2_floor(d as nat, num as nat),
            k <= 63,
        decreases num as int - d as int,
    {
        proof {
            lemma_pow2_unfold((k + 1) as nat);
            assert(2 * (den as nat * pow2(k as nat)) == den as nat * pow2((k + 1) as nat))
                by (nonlinear_arith)
                requires
                    pow2((k + 1) as nat) == 2 * pow2(k as nat),
            ;
            if k + 1 >= 64 {
                lemma_pow2_ge_2_64((k + 1) as nat);
                lemma_mul_inequality(1, den as int, pow2((k + 1) as nat) as int);
                assert(false);
            }
        }
        d = 2 * d;
        k = k + 1;
    }
    assert(log2_floor(d as nat, num as nat) == 0);

    // Mantissa in [LN_FRAC, 2 * LN_FRAC): num / (den * 2^k) in fixed point.
    let m0: u128 = (num as u128) * frac / d;
    proof {
        lemma_mul_inequality(d as int, num as int, frac as int);
        lemma_div_is_ordered((d * frac) as int, ((num as u128) * frac) as int, d as int);
        lemma_div_multiples_vanish(frac as int, d as int);
        assert(m0 >= frac);
        assert((num as u128) * frac < d * (2 * frac)) by (nonlinear_arith)
            requires
                (num as u128) < 2 * d,
                frac > 0,
        ;
        lemma_multiply_divide_lt(((num as u128) * frac) as int, d as int, (2 * frac) as int);
        assert(m0 < 2 * frac);
    }

    // 20 binary fraction digits of log2 of the mantissa.
    let mut m: u128 = m0;
    let mut fbits: u64 = 0;
    let mut i: u64 = 0;
    while i < 20
        invariant
            frac == LN_FRAC as u128,
            i <= 20,
            frac <= m < 2 * frac,
            fbits < pow2(i as nat),
            fbits < 0x10_0000,
            (fbits as nat) * pow2((20 - i) as nat) + log2_frac_bits(m as nat, (20 - i) as nat)
                == log2_frac_bits(m0 as nat, 20),
        decreases 20 - i,
    {
        let ghost rem = (20 - i) as nat;
        proof {
            assert(((m * m) as nat) <= u128::MAX && ((m * m) as nat) < (frac as nat) * ((4
                * frac) as nat)) by (nonlinear_arith)
                requires
                    m < 2 * frac,
                    frac == 1_048_576u128,
            ;
            lemma_multiply_divide_lt((m * m) as int, frac as int, (4 * frac) as int);
            assert((frac * frac) as nat <= (m * m) as nat) by (nonlinear_arith)
                requires
                    frac <= m,
            ;
            lemma_div_is_ordered((frac * frac) as int, (m * m) as int, frac as int);
            lemma_div_multiples_vanish(frac as int, frac as int);
            lemma_pow2_unfold(rem);
            lemma_pow2_unfold((i + 1) as nat);
            if i + 1 < 20 {
                lemma_pow2_strictly_increases((i + 1) as nat, 20);
            }
            vstd::arithmetic::power2::lemma2_to64();
        }
        let ghost p = pow2((rem - 1) as nat);
        let m2: u128 = m * m / frac;
        assert(frac <= m2 < 4 * frac);
        if m2 >= 2 * frac {
            proof {
                assert(log2_frac_bits(m as nat, rem) == p + log2_frac_bits(
                    (m2 / 2) as nat,
                    (rem - 1) as nat,
                ));
                assert((2 * (fbits as nat) + 1) * p == 2 * ((fbits as nat) * p) + p)
                    by (nonlinear_arith);
                assert((fbits as nat) * pow2(rem) == 2 * ((fbits as nat) * p))
                    by (nonlinear_arith)
                    requires
                        pow2(rem) == 2 * p,
                ;
            }
            m = m2 / 2;
            fbits = 2 * fbits + 1;
            assert(frac <= m < 2 * frac);
        } else {
            proof {
                assert(log2_frac_bits(m as nat, rem) == log2_frac_bits(
                    m2 as nat,
                    (rem - 1) as nat,
                ));
                assert((2 * (fbits as nat)) * p == 2 * ((fbits as nat) * p))
                    by (nonlinear_arith);
                assert((fbits as nat) * pow2(rem) == 2 * ((fbits as nat) * p))
                    by (nonlinear_arith)
                    requires
                        pow2(rem) == 2 * p,
                ;
            }
            m = m2;
            fbits = 2 * fbits;
        }
        i = i + 1;
    }
    proof {
        vstd::arithmetic::power2::lemma2_to64();
        assert(log2_frac_bits(m as nat, 0) == 0);
        assert((fbits as nat) * pow2((20 - i) as nat) == fbits as nat) by (nonlinear_arith)
            requires
                i == 20,
                pow2((20 - i) as nat) == 1,
        ;
        assert(fbits as nat == log2_frac_bits(m0 as nat, 20));
        lemma_log2_frac_bits_bound(m0 as nat, 20);
    }

    // Combine: (k + fbits / 2^20) * ln(2), in SCALE units.
    let total: u128 = (k as u128) * frac + fbits as u128;
    proof {
        assert(total * (LN2_SCALED as u128) <= u128::MAX) by (nonlinear_arith)
            requires
                total < 67_108_864u128,
                LN2_SCALED == 693_147u64,
        ;
    }
    let r128: u128 = total * (LN2_SCALED as u128) / frac;
    proof {
        lemma_ln_result_bound(k as nat, fbits as nat);
        if num == den {
            assert(k == 0);
            assert(m0 as nat == LN_FRAC as nat) by {
                lemma_div_multiples_vanish(frac as int, num as int);
            };
            lemma_log2_frac_bits_one(20);
            assert(total == 0);
        }
        if num >= 2 * den {
            assert(k >= 1);
            assert(total >= frac);
            lemma_mul_inequality(frac as int, total as int, LN2_SCALED as int);
            lemma_div_is_ordered((frac * (LN2_SCALED as u128)) as int,
                (total * (LN2_SCALED as u128)) as int, frac as int);
            assert((LN_FRAC as nat) * (LN2_SCALED as nat) / (LN_FRAC as nat)
                == LN2_SCALED as nat);
        }
    }
    r128 as u64
}

/// Cap on the ranker's accumulated dot products and sums of squares: sums
/// saturate here, far above any value a real corpus produces, and low enough
/// that every later product still fits in `u128`.
pub const WEIGHT_SUM_CAP: u128 = 0x10_0000_0000_0000_0000_0000_0000;

/// One capped accumulation step.
pub open spec fn cap_add(acc: u128, term: u128) -> u128 {
    if acc + term > WEIGHT_SUM_CAP {
        WEIGHT_SUM_CAP
    } else {
        (acc + term) as u128
    }
}

/// The integer square root, as a function.
pub open spec fn nat_sqrt(n: nat) -> nat
    decreases n,
{
    if n == 0 {
        0
    } else {
        let r = nat_sqrt((n - 1) as nat);
        if (r + 1) * (r + 1) <= n {
            r + 1
        } else {
            r
        }
    }
}

pub proof fn lemma_nat_sqrt_is_sqrt(n: nat)
    ensures
        is_sqrt(n, nat_sqrt(n)),
    decreases n,
{
    if n > 0 {
        lemma_nat_sqrt_is_sqrt((n - 1) as nat);
        let r = nat_sqrt((n - 1) as nat);
        assert(r * r <= n - 1 && ((n - 1) as nat) < (r + 1) * (r + 1));
        if (r + 1) * (r + 1) <= n {
            assert(nat_sqrt(n) == r + 1);
            assert(n < (r + 1 + 1) * (r + 1 + 1)) by (nonlinear_arith)
                requires
                    n <= (r + 1) * (r + 1),
            ;
            assert(is_sqrt(n, r + 1));
        } else {
            assert(nat_sqrt(n) == r);
            assert(is_sqrt(n, r));
        }
    } else {
        assert(is_sqrt(n, 0)) by (nonlinear_arith)
            requires
                n == 0,
        ;
    }
}

/// Two integer square roots of the same number are equal.
pub proof fn lemma_sqrt_unique(x: nat, a: nat, b: nat)
    requires
        is_sqrt(x, a),
        is_sqrt(x, b),
    ensures
        a == b,
{
    assert(a == b) by (nonlinear_arith)
        requires
            a * a <= x < (a + 1) * (a + 1),
            b * b <= x < (b + 1) * (b + 1),
    ;
}

/// The product of two 64-bit values fits in 128 bits.
pub proof fn lemma_u64_mul_fits(a: u64, b: u64)
    ensures
        (a as u128) * (b as u128) <= u128::MAX,
        (a as int) * (b as int) == ((a as u128) * (b as u128)) as int,
{
    assert((a as u128) * (b as u128) <= 0xffff_ffff_ffff_ffffu128
        * 0xffff_ffff_ffff_ffffu128) by (nonlinear_arith)
        requires
            a <= 0xffff_ffff_ffff_ffffu64,
            b <= 0xffff_ffff_ffff_ffffu64,
    ;
    assert(0xffff_ffff_ffff_ffffu128 * 0xffff_ffff_ffff_ffffu128 <= u128::MAX)
        by (nonlinear_arith);
}

} // verus!
