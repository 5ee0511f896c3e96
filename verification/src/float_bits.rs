//! Order, equality and reciprocals of IEEE 754 double precision numbers, on their bit patterns.
//!
//! The model stores numbers and compares them; it never has to add or multiply them. A pattern
//! without its sign bit is a magnitude, and magnitudes are ordered as the numbers are.

use vstd::arithmetic::power2::{
    lemma_pow2_adds, lemma_pow2_pos, lemma_pow2_strictly_increases, pow2,
};
use vstd::prelude::*;

verus! {

/// The pattern of positive infinity.
pub const INFINITY_BITS: u64 = 0x7FF0_0000_0000_0000;

/// The magnitude of a pattern: the pattern without its sign.
pub open spec fn magnitude(bits: u64) -> u64 {
    bits % 0x8000_0000_0000_0000
}

/// Whether the pattern stands for no number.
pub open spec fn is_nan(bits: u64) -> bool {
    magnitude(bits) > INFINITY_BITS
}

/// Whether the pattern stands for a finite number.
pub open spec fn is_finite(bits: u64) -> bool {
    magnitude(bits) < INFINITY_BITS
}

/// The rank of a number among all numbers; both zeros have rank zero.
pub open spec fn rank(bits: u64) -> int {
    if bits < 0x8000_0000_0000_0000 {
        magnitude(bits) as int
    } else {
        -magnitude(bits)
    }
}

/// Whether two patterns stand for equal numbers.
pub open spec fn float_eq(a: u64, b: u64) -> bool {
    !is_nan(a) && !is_nan(b) && rank(a) == rank(b)
}

/// Whether the first pattern stands for a smaller number than the second.
pub open spec fn float_lt(a: u64, b: u64) -> bool {
    !is_nan(a) && !is_nan(b) && rank(a) < rank(b)
}

/// Whether the first pattern stands for a number no larger than the second.
pub open spec fn float_le(a: u64, b: u64) -> bool {
    !is_nan(a) && !is_nan(b) && rank(a) <= rank(b)
}

/// The size of the number with this magnitude, in units of the smallest positive number.
///
/// Infinity counts as the number that would follow the largest finite one.
pub open spec fn units(mag: u64) -> nat {
    let exponent = mag / 0x10_0000_0000_0000;
    let fraction = mag % 0x10_0000_0000_0000;
    if exponent == 0 {
        fraction as nat
    } else {
        ((0x10_0000_0000_0000 + fraction) * pow2((exponent - 1) as nat)) as nat
    }
}

/// Whether the reciprocal of the number with magnitude `mag`, rounded to the nearest number with
/// ties going to the even one, has a magnitude of at least `least`.
///
/// Rounding reaches `least` from the midpoint between it and the magnitude before it: inclusively
/// where `least` is even. One unit is two to the power -1074, so the reciprocal of a number of `n`
/// units is `pow2(2148) / n` units.
pub open spec fn reciprocal_reaches(mag: u64, least: u64) -> bool {
    ||| least == 0
    ||| {
        let doubled_midpoint = units((least - 1) as u64) + units(least);
        &&& least <= INFINITY_BITS
        &&& {
            ||| doubled_midpoint * units(mag) < pow2(2149)
            ||| doubled_midpoint * units(mag) == pow2(2149) && least % 2 == 0
        }
    }
}

/// Whether the rounded reciprocal of `bits` is finite.
pub open spec fn reciprocal_is_finite(bits: u64) -> bool {
    is_finite(bits) && magnitude(bits) != 0 && !reciprocal_reaches(magnitude(bits), INFINITY_BITS)
}

/// Whether the rounded reciprocal of the finite, non-zero number `bits` has rank `least` or more.
pub open spec fn reciprocal_rank_at_least(bits: u64, least: int) -> bool {
    if bits < 0x8000_0000_0000_0000 {
        least <= 0 || (least <= INFINITY_BITS && reciprocal_reaches(
            magnitude(bits),
            least as u64,
        ))
    } else {
        least <= 0 && !(-least + 1 <= INFINITY_BITS && reciprocal_reaches(
            magnitude(bits),
            (-least + 1) as u64,
        ))
    }
}

/// Whether two patterns stand for equal numbers.
pub fn float_eq_bits(a: u64, b: u64) -> (result: bool)
    ensures
        result == float_eq(a, b),
{
    let mag_a: u64 = a % 0x8000_0000_0000_0000;
    let mag_b: u64 = b % 0x8000_0000_0000_0000;
    mag_a <= INFINITY_BITS && mag_b <= INFINITY_BITS && (a == b || (mag_a == 0 && mag_b == 0))
}

/// Whether the first pattern stands for a smaller number than the second.
pub fn float_lt_bits(a: u64, b: u64) -> (result: bool)
    ensures
        result == float_lt(a, b),
{
    let mag_a: u64 = a % 0x8000_0000_0000_0000;
    let mag_b: u64 = b % 0x8000_0000_0000_0000;
    if mag_a > INFINITY_BITS || mag_b > INFINITY_BITS {
        return false;
    }
    if a < 0x8000_0000_0000_0000 {
        b < 0x8000_0000_0000_0000 && mag_a < mag_b
    } else if b < 0x8000_0000_0000_0000 {
        mag_a != 0 || mag_b != 0
    } else {
        mag_b < mag_a
    }
}

/// Whether the first pattern stands for a number no larger than the second.
pub fn float_le_bits(a: u64, b: u64) -> (result: bool)
    ensures
        result == float_le(a, b),
{
    float_lt_bits(a, b) || float_eq_bits(a, b)
}

/// Whether the pattern stands for a finite number.
pub fn is_finite_bits(bits: u64) -> (result: bool)
    ensures
        result == is_finite(bits),
{
    bits % 0x8000_0000_0000_0000 < INFINITY_BITS
}

/// Two to the power `exponent`.
fn power_of_two(exponent: u32) -> (result: u128)
    requires
        exponent < 120,
    ensures
        result == pow2(exponent as nat),
{
    let mut result: u128 = 1;
    let mut done: u32 = 0;
    proof {
        vstd::arithmetic::power2::lemma2_to64();
    }
    while done < exponent
        invariant
            done <= exponent < 120,
            result == pow2(done as nat),
        decreases exponent - done,
    {
        proof {
            lemma_pow2_adds(done as nat, 1);
            vstd::arithmetic::power2::lemma2_to64();
            lemma_pow2_strictly_increases(done as nat, 120);
            assert(pow2(120) <= u128::MAX / 2) by {
                vstd::arithmetic::power2::lemma2_to64_rest();
                lemma_pow2_adds(60, 60);
                assert(pow2(60) * pow2(60) <= u128::MAX / 2) by (nonlinear_arith)
                    requires
                        pow2(60) == 0x1000_0000_0000_0000,
                ;
            }
            assert(pow2(done as nat) * 2 == pow2((done + 1) as nat));
        }
        result = result * 2;
        done = done + 1;
    }
    result
}

/// The significand and the exponent of a magnitude: its size is the one shifted by the other.
fn decompose(mag: u64) -> (result: (u64, u32))
    requires
        mag <= INFINITY_BITS,
    ensures
        result.0 < 0x20_0000_0000_0000,
        result.1 <= 2046,
        units(mag) == result.0 * pow2(result.1 as nat),
        mag != 0 ==> result.0 != 0,
        result.1 == if mag / 0x10_0000_0000_0000 == 0 {
            0
        } else {
            mag / 0x10_0000_0000_0000 - 1
        },
        result.0 == mag % 0x10_0000_0000_0000 + if mag / 0x10_0000_0000_0000 == 0 {
            0int
        } else {
            0x10_0000_0000_0000
        },
{
    let exponent: u64 = mag / 0x10_0000_0000_0000;
    let fraction: u64 = mag % 0x10_0000_0000_0000;
    proof {
        vstd::arithmetic::power2::lemma2_to64();
    }
    if exponent == 0 {
        (fraction, 0)
    } else {
        (0x10_0000_0000_0000 + fraction, (exponent - 1) as u32)
    }
}

/// Twice the midpoint between a magnitude and the one before it, as significand and exponent.
fn doubled_midpoint(least: u64) -> (result: (u64, u32))
    requires
        0 < least <= INFINITY_BITS,
    ensures
        0 < result.0 < 0x40_0000_0000_0000,
        result.1 <= 2046,
        units((least - 1) as u64) + units(least) == result.0 * pow2(result.1 as nat),
{
    let (significand, exponent) = decompose(least);
    let (before, before_exponent) = decompose(least - 1);
    proof {
        vstd::arithmetic::power2::lemma2_to64();
    }
    if before_exponent == exponent {
        proof {
            assert(before * pow2(exponent as nat) + significand * pow2(exponent as nat) == (before
                + significand) * pow2(exponent as nat)) by (nonlinear_arith);
        }
        (before + significand, exponent)
    } else {
        proof {
            assert(exponent == before_exponent + 1);
            lemma_pow2_adds(before_exponent as nat, 1);
            assert(before * pow2(before_exponent as nat) + significand * (pow2(
                before_exponent as nat,
            ) * 2) == (before + 2 * significand) * pow2(before_exponent as nat))
                by (nonlinear_arith);
        }
        (before + 2 * significand, before_exponent)
    }
}

/// Whether the rounded reciprocal of the number with magnitude `mag` has a magnitude of at least
/// `least`.
pub fn reciprocal_reaches_bits(mag: u64, least: u64) -> (result: bool)
    requires
        0 < mag < INFINITY_BITS,
    ensures
        result == reciprocal_reaches(mag, least),
{
    if least == 0 {
        return true;
    }
    if least > INFINITY_BITS {
        return false;
    }
    let (significand, exponent) = decompose(mag);
    let (midpoint, midpoint_exponent) = doubled_midpoint(least);
    proof {
        assert(midpoint * significand < 0x800_0000_0000_0000_0000_0000_0000) by (nonlinear_arith)
            requires
                0 < midpoint < 0x40_0000_0000_0000,
                0 < significand < 0x20_0000_0000_0000,
        ;
    }
    let product: u128 = midpoint as u128 * significand as u128;
    let shift: u32 = exponent + midpoint_exponent;
    proof {
        let p = product as nat;
        let total = (units((least - 1) as u64) + units(least)) * units(mag);
        assert(0 < product < 0x800_0000_0000_0000_0000_0000_0000) by (nonlinear_arith)
            requires
                product == midpoint * significand,
                0 < midpoint < 0x40_0000_0000_0000,
                0 < significand < 0x20_0000_0000_0000,
        ;
        lemma_pow2_adds(exponent as nat, midpoint_exponent as nat);
        assert(total == p * pow2(shift as nat)) by (nonlinear_arith)
            requires
                total == (midpoint * pow2(midpoint_exponent as nat)) * (significand * pow2(
                    exponent as nat,
                )),
                pow2(shift as nat) == pow2(exponent as nat) * pow2(midpoint_exponent as nat),
                p == midpoint * significand,
        ;
        lemma_pow2_pos(shift as nat);
        if shift > 2149 {
            lemma_pow2_strictly_increases(2149, shift as nat);
            assert(p * pow2(shift as nat) > pow2(2149)) by (nonlinear_arith)
                requires
                    p >= 1,
                    pow2(shift as nat) > pow2(2149),
            ;
        } else {
            let rest = (2149 - shift) as nat;
            lemma_pow2_adds(rest, shift as nat);
            let unit = pow2(shift as nat);
            assert(p < pow2(rest) ==> p * unit < pow2(rest) * unit) by (nonlinear_arith)
                requires
                    unit > 0,
            ;
            assert(p > pow2(rest) ==> p * unit > pow2(rest) * unit) by (nonlinear_arith)
                requires
                    unit > 0,
            ;
            if rest >= 120 {
                vstd::arithmetic::power2::lemma2_to64();
                vstd::arithmetic::power2::lemma2_to64_rest();
                lemma_pow2_adds(60, 60);
                assert(pow2(60) * pow2(60) > 0x800_0000_0000_0000_0000_0000_0000)
                    by (nonlinear_arith)
                    requires
                        pow2(60) == 0x1000_0000_0000_0000,
                ;
                if rest > 120 {
                    lemma_pow2_strictly_increases(120, rest);
                }
            }
        }
    }
    if shift > 2149 {
        return false;
    }
    let rest: u32 = 2149 - shift;
    if rest >= 120 {
        return true;
    }
    let limit: u128 = power_of_two(rest);
    product < limit || (product == limit && least % 2 == 0)
}

/// Whether the rounded reciprocal of `bits` is finite.
pub fn reciprocal_is_finite_bits(bits: u64) -> (result: bool)
    ensures
        result == reciprocal_is_finite(bits),
{
    let mag: u64 = bits % 0x8000_0000_0000_0000;
    mag != 0 && mag < INFINITY_BITS && !reciprocal_reaches_bits(mag, INFINITY_BITS)
}

/// Whether the rounded reciprocal of the finite, non-zero number `bits` is at least `bound`, which
/// stands for a number.
pub fn reciprocal_at_least_bits(bits: u64, bound: u64) -> (result: bool)
    requires
        is_finite(bits),
        magnitude(bits) != 0,
        !is_nan(bound),
    ensures
        result == reciprocal_rank_at_least(bits, rank(bound)),
{
    let mag: u64 = bits % 0x8000_0000_0000_0000;
    let bound_mag: u64 = bound % 0x8000_0000_0000_0000;
    if bits < 0x8000_0000_0000_0000 {
        bound >= 0x8000_0000_0000_0000 || bound_mag == 0 || reciprocal_reaches_bits(mag, bound_mag)
    } else if bound < 0x8000_0000_0000_0000 && bound_mag != 0 {
        false
    } else if bound_mag == INFINITY_BITS {
        true
    } else {
        !reciprocal_reaches_bits(mag, bound_mag + 1)
    }
}

/// Whether the rounded reciprocal of the finite, non-zero number `bits` exceeds `bound`, which
/// stands for a number.
pub fn reciprocal_above_bits(bits: u64, bound: u64) -> (result: bool)
    requires
        is_finite(bits),
        magnitude(bits) != 0,
        !is_nan(bound),
    ensures
        result == reciprocal_rank_at_least(bits, rank(bound) + 1),
{
    let mag: u64 = bits % 0x8000_0000_0000_0000;
    let bound_mag: u64 = bound % 0x8000_0000_0000_0000;
    if bits < 0x8000_0000_0000_0000 {
        if bound < 0x8000_0000_0000_0000 || bound_mag == 0 {
            bound_mag < INFINITY_BITS && reciprocal_reaches_bits(mag, bound_mag + 1)
        } else {
            true
        }
    } else if bound < 0x8000_0000_0000_0000 || bound_mag == 0 {
        false
    } else {
        !reciprocal_reaches_bits(mag, bound_mag)
    }
}

} // verus!
