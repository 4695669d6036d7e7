//! IEEE-754 double-precision scalars, carried as their 64-bit patterns.
//!
//! Every circuit value in this crate is a `u64` holding the bit pattern of an
//! IEEE-754 binary64 number. Rounded arithmetic (`+`, `*`, `/`) goes through
//! `rustc_apfloat`, an exact software implementation of IEEE-754, behind
//! trusted wrappers whose results are named by uninterpreted spec functions.
//! Everything else — negation, absolute value, comparisons, the zero test and
//! the exponential — is defined and verified here as plain bit manipulation
//! over those names, so contracts further up pin results down to the bit.

use rustc_apfloat::Float;
use vstd::prelude::*;

verus! {

/// Bits of `+0.0`.
pub const ZERO_BITS: u64 = 0;
/// The sign bit.
pub const SIGN_MASK: u64 = 0x8000_0000_0000_0000;
/// Everything but the sign bit.
pub const MAG_MASK: u64 = 0x7FFF_FFFF_FFFF_FFFF;
/// The biased-exponent field.
pub const EXP_MASK: u64 = 0x7FF0_0000_0000_0000;
/// The fraction field.
pub const FRAC_MASK: u64 = 0x000F_FFFF_FFFF_FFFF;
/// Bits of `+infinity`.
pub const INF_BITS: u64 = 0x7FF0_0000_0000_0000;
/// Bits of `1.0`.
pub const ONE_BITS: u64 = 0x3FF0_0000_0000_0000;
/// Bits of `-1.0`.
pub const NEG_ONE_BITS: u64 = 0xBFF0_0000_0000_0000;
/// Bits of `0.5`.
pub const HALF_BITS: u64 = 0x3FE0_0000_0000_0000;
/// Bits of `log2(e)`.
pub const LOG2E_BITS: u64 = 0x3FF7_1547_652B_82FE;
/// Bits of `ln(2)`.
pub const LN2_BITS: u64 = 0x3FE6_2E42_FEFA_39EF;
/// Bits of `710.0`, above the largest argument whose exponential is finite.
pub const EXP_HI_BITS: u64 = 0x4086_3000_0000_0000;
/// Bits of `-745.0`, below the smallest argument whose exponential is normal.
pub const EXP_LO_BITS: u64 = 0xC087_4800_0000_0000;

/// The pattern is a NaN: exponent all ones, fraction non-zero.
pub open spec fn is_nan_bits(a: u64) -> bool {
    a & EXP_MASK == EXP_MASK && a & FRAC_MASK != 0
}

/// The pattern is finite: exponent not all ones.
pub open spec fn is_finite_bits(a: u64) -> bool {
    a & EXP_MASK != EXP_MASK
}

/// The pattern is `+0.0` or `-0.0`.
pub open spec fn is_zero_bits(a: u64) -> bool {
    a & MAG_MASK == 0
}

/// The sign bit is set.
pub open spec fn sign_bits(a: u64) -> bool {
    a & SIGN_MASK != 0
}

/// IEEE-754 negation: flip the sign bit.
pub open spec fn neg_of(a: u64) -> u64 {
    a ^ SIGN_MASK
}

/// IEEE-754 absolute value: clear the sign bit.
pub open spec fn abs_of(a: u64) -> u64 {
    a & MAG_MASK
}

/// The IEEE-754 comparison `a > b`: false on NaN, the two zeros equal,
/// otherwise sign-magnitude order.
pub open spec fn gt_of(a: u64, b: u64) -> bool {
    if is_nan_bits(a) || is_nan_bits(b) {
        false
    } else if is_zero_bits(a) && is_zero_bits(b) {
        false
    } else if sign_bits(a) != sign_bits(b) {
        !sign_bits(a)
    } else if !sign_bits(a) {
        a > b
    } else {
        a < b
    }
}

/// The IEEE-754 comparison `a <= b`: false on NaN, the two zeros equal,
/// otherwise sign-magnitude order.
pub open spec fn le_of(a: u64, b: u64) -> bool {
    if is_nan_bits(a) || is_nan_bits(b) {
        false
    } else if is_zero_bits(a) && is_zero_bits(b) {
        true
    } else if sign_bits(a) != sign_bits(b) {
        sign_bits(a)
    } else if !sign_bits(a) {
        a <= b
    } else {
        a >= b
    }
}

/// The rounded sum of two binary64 bit patterns.
pub uninterp spec fn add_of(a: u64, b: u64) -> u64;

/// The rounded product of two binary64 bit patterns.
pub uninterp spec fn mul_of(a: u64, b: u64) -> u64;

/// The rounded quotient of two binary64 bit patterns.
pub uninterp spec fn div_of(a: u64, b: u64) -> u64;

/// The rounded difference: per IEEE-754, subtraction is addition of the
/// negated operand (and `rustc_apfloat` defines `sub_r` exactly so).
pub open spec fn sub_of(a: u64, b: u64) -> u64 {
    add_of(a, neg_of(b))
}

/// Relies on `rustc_apfloat::ieee::Double`'s `+` (`add_r`, round to nearest,
/// ties to even): IEEE-754 binary64 addition on bit patterns. The result is a
/// function of the two patterns alone; `+0.0 + +0.0` is `+0.0`; the sum of a
/// finite value and its negation is `+0.0`; the sum of two patterns with
/// clear sign bits has a clear sign bit (in this rounding mode an exact-zero
/// sum is `+0.0`, and a NaN operand passes through with its sign); and the
/// sum of two finite values is never NaN.
#[verifier::external_body]
pub fn add_b(a: u64, b: u64) -> (r: u64)
    ensures
        r == add_of(a, b),
        a == ZERO_BITS && b == ZERO_BITS ==> r == ZERO_BITS,
        b == neg_of(a) && is_finite_bits(a) ==> r == ZERO_BITS,
        !sign_bits(a) && !sign_bits(b) ==> !sign_bits(r),
        is_finite_bits(a) && is_finite_bits(b) ==> !is_nan_bits(r),
{
    let x = rustc_apfloat::ieee::Double::from_bits(a as u128);
    let y = rustc_apfloat::ieee::Double::from_bits(b as u128);
    (x + y).value.to_bits() as u64
}

/// Relies on `rustc_apfloat::ieee::Double`'s `*` (`mul_r`, round to nearest,
/// ties to even): IEEE-754 binary64 multiplication on bit patterns. The
/// result is a function of the two patterns alone; `+0.0 * +0.0` is `+0.0`;
/// and the square of a non-NaN pattern never has its sign bit set (the
/// result sign is the exclusive-or of the operand signs).
#[verifier::external_body]
pub fn mul_b(a: u64, b: u64) -> (r: u64)
    ensures
        r == mul_of(a, b),
        a == ZERO_BITS && b == ZERO_BITS ==> r == ZERO_BITS,
        a == b && !is_nan_bits(a) ==> !sign_bits(r),
{
    let x = rustc_apfloat::ieee::Double::from_bits(a as u128);
    let y = rustc_apfloat::ieee::Double::from_bits(b as u128);
    (x * y).value.to_bits() as u64
}

/// Relies on `rustc_apfloat::ieee::Double`'s `/` (`div_r`, round to nearest,
/// ties to even): IEEE-754 binary64 division on bit patterns. The result is a
/// function of the two patterns alone.
#[verifier::external_body]
pub fn div_b(a: u64, b: u64) -> (r: u64)
    ensures
        r == div_of(a, b),
{
    let x = rustc_apfloat::ieee::Double::from_bits(a as u128);
    let y = rustc_apfloat::ieee::Double::from_bits(b as u128);
    (x / y).value.to_bits() as u64
}

/// Negation flips the sign bit.
pub fn neg_b(a: u64) -> (r: u64)
    ensures
        r == neg_of(a),
{
    a ^ SIGN_MASK
}

/// Absolute value clears the sign bit.
pub fn abs_b(a: u64) -> (r: u64)
    ensures
        r == abs_of(a),
{
    a & MAG_MASK
}

/// Negation is an involution.
pub proof fn lemma_neg_involutive(a: u64)
    ensures
        neg_of(neg_of(a)) == a,
{
    assert((a ^ 0x8000_0000_0000_0000u64) ^ 0x8000_0000_0000_0000u64 == a) by (bit_vector);
}

/// Negation does not change the exponent or fraction fields.
pub proof fn lemma_neg_finite(a: u64)
    ensures
        is_finite_bits(neg_of(a)) == is_finite_bits(a),
        is_nan_bits(neg_of(a)) == is_nan_bits(a),
{
    assert((a ^ 0x8000_0000_0000_0000u64) & 0x7FF0_0000_0000_0000u64 == a
        & 0x7FF0_0000_0000_0000u64) by (bit_vector);
    assert((a ^ 0x8000_0000_0000_0000u64) & 0x000F_FFFF_FFFF_FFFFu64 == a
        & 0x000F_FFFF_FFFF_FFFFu64) by (bit_vector);
}

/// Subtraction, as addition of the negated operand. The difference of a
/// finite value and itself is `+0.0`, and the difference of two finite
/// values is never NaN.
pub fn sub_b(a: u64, b: u64) -> (r: u64)
    ensures
        r == sub_of(a, b),
        a == b && is_finite_bits(a) ==> r == ZERO_BITS,
        is_finite_bits(a) && is_finite_bits(b) ==> !is_nan_bits(r),
{
    proof {
        lemma_neg_involutive(a);
        lemma_neg_finite(b);
    }
    let nb = neg_b(b);
    add_b(a, nb)
}

/// The IEEE-754 comparison `a > b` on bit patterns.
pub fn gt_b(a: u64, b: u64) -> (r: bool)
    ensures
        r == gt_of(a, b),
{
    let a_nan = a & EXP_MASK == EXP_MASK && a & FRAC_MASK != 0;
    let b_nan = b & EXP_MASK == EXP_MASK && b & FRAC_MASK != 0;
    if a_nan || b_nan {
        false
    } else if a & MAG_MASK == 0 && b & MAG_MASK == 0 {
        false
    } else if (a & SIGN_MASK != 0) != (b & SIGN_MASK != 0) {
        a & SIGN_MASK == 0
    } else if a & SIGN_MASK == 0 {
        a > b
    } else {
        a < b
    }
}

/// The IEEE-754 comparison `a <= b` on bit patterns.
pub fn le_b(a: u64, b: u64) -> (r: bool)
    ensures
        r == le_of(a, b),
{
    let a_nan = a & EXP_MASK == EXP_MASK && a & FRAC_MASK != 0;
    let b_nan = b & EXP_MASK == EXP_MASK && b & FRAC_MASK != 0;
    if a_nan || b_nan {
        false
    } else if a & MAG_MASK == 0 && b & MAG_MASK == 0 {
        true
    } else if (a & SIGN_MASK != 0) != (b & SIGN_MASK != 0) {
        a & SIGN_MASK != 0
    } else if a & SIGN_MASK == 0 {
        a <= b
    } else {
        a >= b
    }
}

/// The IEEE-754 test `a == 0.0`: true exactly on the two zero patterns.
pub fn is_zero_b(a: u64) -> (r: bool)
    ensures
        r == is_zero_bits(a),
{
    a & MAG_MASK == 0
}

/// Truncation toward zero, saturated to `±4096` beyond `±2^12` and on
/// non-finite patterns. Used to pick the power-of-two scale in [`exp_of`].
pub open spec fn trunc_sat_of(a: u64) -> int {
    let ef = (a & EXP_MASK) >> 52;
    let v_neg = a & SIGN_MASK != 0;
    if ef >= 1035 {
        if v_neg {
            -4096
        } else {
            4096
        }
    } else if ef < 1023 {
        0
    } else {
        let mant = (a & FRAC_MASK) | 0x0010_0000_0000_0000;
        let v = mant >> ((1075 - ef) as u64);
        if v_neg {
            -(v as int)
        } else {
            v as int
        }
    }
}

/// Truncation toward zero on bit patterns, saturated as in [`trunc_sat_of`].
pub fn trunc_sat(a: u64) -> (r: i64)
    ensures
        r as int == trunc_sat_of(a),
        -4096 <= r <= 4096,
{
    let ef = (a & EXP_MASK) >> 52;
    let v_neg = a & SIGN_MASK != 0;
    if ef >= 1035 {
        if v_neg {
            -4096
        } else {
            4096
        }
    } else if ef < 1023 {
        0
    } else {
        let mant = (a & FRAC_MASK) | 0x0010_0000_0000_0000;
        assert((a & 0x000F_FFFF_FFFF_FFFFu64) | 0x0010_0000_0000_0000u64
            < 0x0020_0000_0000_0000u64) by (bit_vector);
        let v = mant >> ((1075 - ef) as u64);
        proof {
            let sh = (1075 - ef) as u64;
            assert(forall|m: u64, s2: u64|
                m < 0x0020_0000_0000_0000u64 && 41 <= s2 <= 52 ==> #[trigger] (m >> s2)
                    < 4096u64) by (bit_vector);
        }
        if v_neg {
            -(v as i64)
        } else {
            v as i64
        }
    }
}

/// The position of the highest set bit.
pub open spec fn floor_log2(i: nat) -> nat
    decreases i,
{
    if i <= 1 {
        0
    } else {
        1 + floor_log2(i / 2)
    }
}

/// The binary64 pattern of a small non-negative integer: exact, since every
/// integer below `2^53` is representable.
pub open spec fn int2f_of(i: nat) -> u64
    recommends
        i < 4096,
{
    if i == 0 {
        ZERO_BITS
    } else {
        let h = floor_log2(i);
        (((1023 + h) as u64) << 52) | (((i as u64) << ((52 - h) as u64)) & FRAC_MASK)
    }
}

/// The binary64 pattern of a small positive integer.
pub fn int2f(i: u64) -> (r: u64)
    requires
        1 <= i < 4096,
    ensures
        r == int2f_of(i as nat),
{
    let mut h: u64 = 0;
    let mut t: u64 = i;
    proof {
        vstd::arithmetic::power2::lemma2_to64();
    }
    while t > 1
        invariant
            1 <= t <= i < 4096,
            h <= 11,
            vstd::arithmetic::power2::pow2(h as nat) * t as nat <= i as nat,
            floor_log2(i as nat) == h + floor_log2(t as nat),
        decreases t,
    {
        proof {
            let p = vstd::arithmetic::power2::pow2(h as nat);
            let p2 = vstd::arithmetic::power2::pow2((h + 1) as nat);
            vstd::arithmetic::power2::lemma_pow2_unfold((h + 1) as nat);
            assert(p2 * ((t / 2) as nat) <= p * (t as nat)) by (nonlinear_arith)
                requires
                    p2 == 2 * p,
                    t >= 1,
            ;
            assert(floor_log2(t as nat) == 1 + floor_log2((t / 2) as nat));
        }
        t = t / 2;
        h = h + 1;
        proof {
            if h > 11 {
                let p = vstd::arithmetic::power2::pow2(h as nat);
                vstd::arithmetic::power2::lemma2_to64();
                assert(p * t as nat >= 4096) by (nonlinear_arith)
                    requires
                        p >= 4096,
                        t >= 1,
                ;
                assert(false);
            }
        }
    }
    proof {
        assert(floor_log2(i as nat) == h);
    }
    ((1023 + h) << 52u64) | ((i << ((52 - h) as u64)) & FRAC_MASK)
}

/// The Taylor tail `1 + (r/i)(1 + (r/(i+1))(...))` of the exponential,
/// evaluated over the rounded operations, thirteen terms deep.
pub open spec fn exp_poly_of(r: u64, i: int) -> u64
    decreases 14 - i,
{
    if i >= 14 || i < 1 {
        ONE_BITS
    } else {
        add_of(ONE_BITS, mul_of(div_of(r, int2f_of(i as nat)), exp_poly_of(r, i + 1)))
    }
}

/// The exponential of a binary64 pattern: range reduction `x = k ln 2 + r`
/// followed by a thirteen-term Taylor polynomial in `r` and scaling by
/// `2^k`, all over the rounded operations. Arguments above `710` give
/// `+infinity`; arguments whose scale falls below the normal range give
/// `+0.0` (the subnormal tail is flushed to zero).
pub open spec fn exp_of(x: u64) -> u64 {
    if is_nan_bits(x) {
        x
    } else if gt_of(x, EXP_HI_BITS) {
        INF_BITS
    } else if gt_of(EXP_LO_BITS, x) {
        ZERO_BITS
    } else {
        let y = add_of(mul_of(x, LOG2E_BITS), HALF_BITS);
        let k = trunc_sat_of(y);
        if k >= 1024 {
            INF_BITS
        } else if k <= -1022 {
            ZERO_BITS
        } else {
            let kf = if k == 0 {
                ZERO_BITS
            } else if k < 0 {
                neg_of(int2f_of((-k) as nat))
            } else {
                int2f_of(k as nat)
            };
            let r = sub_of(x, mul_of(kf, LN2_BITS));
            mul_of(exp_poly_of(r, 1), ((k + 1023) as u64) << 52)
        }
    }
}

/// The exponential on bit patterns; see [`exp_of`].
pub fn exp_b(x: u64) -> (res: u64)
    ensures
        res == exp_of(x),
{
    if x & EXP_MASK == EXP_MASK && x & FRAC_MASK != 0 {
        return x;
    }
    if gt_b(x, EXP_HI_BITS) {
        return INF_BITS;
    }
    if gt_b(EXP_LO_BITS, x) {
        return ZERO_BITS;
    }
    let y = add_b(mul_b(x, LOG2E_BITS), HALF_BITS);
    let k = trunc_sat(y);
    if k >= 1024 {
        return INF_BITS;
    }
    if k <= -1022 {
        return ZERO_BITS;
    }
    let kf: u64 = if k == 0 {
        ZERO_BITS
    } else if k < 0 {
        neg_b(int2f((-k) as u64))
    } else {
        int2f(k as u64)
    };
    let r = sub_b(x, mul_b(kf, LN2_BITS));
    let mut p: u64 = ONE_BITS;
    let mut i: u64 = 14;
    while i > 1
        invariant
            1 <= i <= 14,
            p == exp_poly_of(r, i as int),
        decreases i,
    {
        i = i - 1;
        p = add_b(ONE_BITS, mul_b(div_b(r, int2f(i)), p));
    }
    let scale: u64 = ((k + 1023) as u64) << 52u64;
    mul_b(p, scale)
}

} // verus!
