//! What the order of numbers and the constraints on parameters mean.

use crate::float_bits::{
    float_eq, float_le, float_lt, is_finite, rank, reciprocal_is_finite, reciprocal_rank_at_least,
    reciprocal_reaches, units,
};
use crate::parameter::{
    above_lower, below_upper, lemma_units_monotone, Bound, ParameterConstraintError,
    ParameterConstraints,
};
use crate::primitive_laws::finite_number;
use vstd::arithmetic::power2::{lemma_pow2_adds, lemma_pow2_pos, pow2};
use vstd::prelude::*;

verus! {

/// Whether a pattern stands for a number: it has no larger magnitude than infinity.
pub open spec fn is_number(bits: u64) -> bool {
    bits <= 0x7FF0_0000_0000_0000 || 0x8000_0000_0000_0000 <= bits <= 0xFFF0_0000_0000_0000
}

/// Numbers without a sign are ordered as their patterns are, those with one the other way round and
/// below the others, and both zeros are equal. What is no number is neither equal to nor below
/// anything.
pub proof fn law_numbers_are_ordered_by_their_patterns(a: u64, b: u64)
    ensures
        is_finite(a) <==> finite_number(a),
        float_eq(a, b) <==> is_number(a) && is_number(b) && (a == b || (a
            % 0x8000_0000_0000_0000 == 0 && b % 0x8000_0000_0000_0000 == 0)),
        float_lt(a, b) <==> is_number(a) && is_number(b) && if a < 0x8000_0000_0000_0000 {
            b < 0x8000_0000_0000_0000 && a < b
        } else if b < 0x8000_0000_0000_0000 {
            a != 0x8000_0000_0000_0000 || b != 0
        } else {
            a > b
        },
        float_le(a, b) <==> float_lt(a, b) || float_eq(a, b),
{
}

/// A value meets a lower bound exactly if it is above it, or equal to it where the bound is
/// inclusive; and likewise an upper one from below.
pub proof fn law_bounds_exclude_or_include(value: u64, bound: Bound)
    ensures
        above_lower(value, Some(bound)) <==> float_lt(bound.value, value) || (bound.inclusive
            && float_eq(bound.value, value)),
        below_upper(value, Some(bound)) <==> float_lt(value, bound.value) || (bound.inclusive
            && float_eq(value, bound.value)),
        above_lower(value, None),
        below_upper(value, None),
{
}

/// What constraints accept that do not speak of the reciprocal: finite numbers between the bounds,
/// without zero where it is excluded. Why a number is refused is told in this order: it is not
/// finite, it is zero, it is out of range.
pub proof fn law_constraints_accept_what_they_say(
    lower: Option<Bound>,
    upper: Option<Bound>,
    non_zero: bool,
    value: u64,
)
    ensures
        ({
            let constraints = ParameterConstraints {
                lower,
                upper,
                non_zero,
                reciprocal_range: None,
            };
            let is_zero = value == 0 || value == 0x8000_0000_0000_0000;
            let in_range = (lower matches Some(b) ==> float_lt(b.value, value) || (b.inclusive
                && float_eq(b.value, value))) && (upper matches Some(b) ==> float_lt(
                value,
                b.value,
            ) || (b.inclusive && float_eq(value, b.value)));
            constraints.check(value) == if !finite_number(value) {
                Err(ParameterConstraintError::NonFinite)
            } else if non_zero && is_zero {
                Err(ParameterConstraintError::ZeroNotAllowed)
            } else if !in_range {
                Err(ParameterConstraintError::OutOfRange)
            } else {
                Ok(())
            }
        }),
{
}

/// The reciprocal of a number whose exact reciprocal is a number is that number: it reaches its
/// rank, and no higher one.
pub proof fn law_exact_reciprocals_are_found(value: u64, reciprocal: u64)
    requires
        0 < value < 0x7FF0_0000_0000_0000,
        0 < reciprocal < 0x7FF0_0000_0000_0000,
        units(value) * units(reciprocal) == pow2(2148),
    ensures
        reciprocal_is_finite(value),
        reciprocal_rank_at_least(value, rank(reciprocal)),
        !reciprocal_rank_at_least(value, rank(reciprocal) + 1),
{
    let n = units(value) as int;
    let r = units(reciprocal) as int;
    let low = units((reciprocal - 1) as u64) as int;
    let high = units((reciprocal + 1) as u64) as int;
    lemma_units_monotone((reciprocal - 1) as u64, reciprocal);
    lemma_units_monotone(reciprocal, (reciprocal + 1) as u64);
    lemma_pow2_adds(2148, 1);
    vstd::arithmetic::power2::lemma2_to64();
    lemma_pow2_pos(2148);
    assert(n > 0) by (nonlinear_arith)
        requires
            n >= 0,
            n * r == pow2(2148),
            pow2(2148) > 0,
    ;
    assert((low + r) * n < pow2(2149)) by (nonlinear_arith)
        requires
            low < r,
            n > 0,
            n * r == pow2(2148),
            pow2(2149) == pow2(2148) * 2,
    ;
    assert((r + high) * n > pow2(2149)) by (nonlinear_arith)
        requires
            high > r,
            n > 0,
            n * r == pow2(2148),
            pow2(2149) == pow2(2148) * 2,
    ;
    let top = units(0x7FEF_FFFF_FFFF_FFFF) as int;
    let infinity = units(0x7FF0_0000_0000_0000) as int;
    lemma_units_monotone(0x7FEF_FFFF_FFFF_FFFF, 0x7FF0_0000_0000_0000);
    if reciprocal < 0x7FEF_FFFF_FFFF_FFFF {
        lemma_units_monotone(reciprocal, 0x7FEF_FFFF_FFFF_FFFF);
    }
    assert((top + infinity) * n > pow2(2149)) by (nonlinear_arith)
        requires
            top >= r,
            infinity > top,
            n > 0,
            n * r == pow2(2148),
            pow2(2149) == pow2(2148) * 2,
    ;
}

/// Larger numbers have smaller reciprocals.
pub proof fn law_reciprocals_turn_the_order(small: u64, large: u64, least: u64)
    requires
        0 < small <= large < 0x7FF0_0000_0000_0000,
        reciprocal_reaches(large, least),
    ensures
        reciprocal_reaches(small, least),
{
    if small < large && least > 0 {
        lemma_units_monotone(small, large);
        let m = (units((least - 1) as u64) + units(least)) as int;
        assert(m * units(small) <= m * units(large)) by (nonlinear_arith)
            requires
                m >= 0,
                units(small) <= units(large),
        ;
        if m > 0 {
            assert(m * units(small) < m * units(large)) by (nonlinear_arith)
                requires
                    m > 0,
                    units(small) < units(large),
            ;
        } else {
            lemma_pow2_pos(2149);
            assert(m * units(small) == 0) by (nonlinear_arith)
                requires
                    m == 0,
            ;
        }
    }
}

/// The reciprocal of a number and that of its opposite are opposite: a value with a sign reaches a
/// rank exactly if the value without it does not exceed the opposite rank.
pub proof fn law_reciprocals_keep_the_sign(value: u64, least: int)
    requires
        0 < value < 0x7FF0_0000_0000_0000,
    ensures
        reciprocal_rank_at_least(value, 0),
        !reciprocal_rank_at_least((value + 0x8000_0000_0000_0000) as u64, 1),
        -0x7FF0_0000_0000_0000 <= least <= 0 ==> (reciprocal_rank_at_least(
            (value + 0x8000_0000_0000_0000) as u64,
            least,
        ) <==> !reciprocal_rank_at_least(value, -least + 1)),
{
}

/// With a range for the reciprocal, a value whose exact reciprocal is a number is accepted exactly
/// if both are in their ranges.
pub proof fn law_reciprocals_are_constrained(
    constraints: ParameterConstraints,
    lower: Option<Bound>,
    upper: Option<Bound>,
    value: u64,
    reciprocal: u64,
)
    requires
        constraints.reciprocal_range == Some((lower, upper)),
        0 < value < 0x7FF0_0000_0000_0000,
        0 < reciprocal < 0x7FF0_0000_0000_0000,
        units(value) * units(reciprocal) == pow2(2148),
    ensures
        constraints.check(value) is Ok <==> {
            &&& (ParameterConstraints { reciprocal_range: None, ..constraints }).check(value) is Ok
            &&& lower matches Some(b) ==> float_lt(b.value, reciprocal) || (b.inclusive
                && float_eq(b.value, reciprocal))
            &&& upper matches Some(b) ==> float_lt(reciprocal, b.value) || (b.inclusive
                && float_eq(reciprocal, b.value))
        },
        constraints.check(0) is Err,
{
    law_exact_reciprocals_are_found(value, reciprocal);
    assert forall|r: int|
        -0x7FF0_0000_0000_0000 <= r <= 0x7FF0_0000_0000_0001 implies #[trigger]
        reciprocal_rank_at_least(value, r) == (r <= rank(reciprocal)) by {
        if r <= rank(reciprocal) {
            crate::parameter::lemma_reciprocal_monotone(value, r, rank(reciprocal));
        } else if reciprocal_rank_at_least(value, r) {
            crate::parameter::lemma_reciprocal_monotone(value, rank(reciprocal) + 1, r);
        }
    }
}

/// Every constraints whose bounds are numbers imply themselves, and those without any constraint.
pub proof fn law_constraints_imply_themselves(constraints: ParameterConstraints)
    requires
        constraints.lower matches Some(b) ==> is_number(b.value),
        constraints.upper matches Some(b) ==> is_number(b.value),
        constraints.reciprocal_range matches Some((lower, upper)) ==> (lower matches Some(b)
            ==> is_number(b.value)) && (upper matches Some(b) ==> is_number(b.value)),
    ensures
        constraints.implies_parts(constraints),
        constraints.implies_parts(
            ParameterConstraints { lower: None, upper: None, non_zero: false, reciprocal_range: None },
        ),
{
}

/// Constraints with a lower bound imply those with another exactly if every number that the one
/// admits the other does; and likewise for upper bounds. Constraints with neither imply no bound.
pub proof fn law_narrower_bounds_imply_wider_ones(provided: Bound, required: Bound)
    requires
        finite_number(provided.value),
        finite_number(required.value),
    ensures
        ({
            let none = ParameterConstraints {
                lower: None,
                upper: None,
                non_zero: false,
                reciprocal_range: None,
            };
            let from = ParameterConstraints { lower: Some(provided), ..none };
            let wanted = ParameterConstraints { lower: Some(required), ..none };
            &&& from.implies_parts(wanted) <==> float_lt(required.value, provided.value) || (
            float_eq(required.value, provided.value) && (required.inclusive
                || !provided.inclusive))
            &&& !none.implies_parts(wanted)
            &&& from.implies_parts(none)
            &&& from.implies_parts(ParameterConstraints { non_zero: true, ..none }) <==> float_lt(
                0,
                provided.value,
            ) || (float_eq(0, provided.value) && !provided.inclusive)
        }),
        ({
            let none = ParameterConstraints {
                lower: None,
                upper: None,
                non_zero: false,
                reciprocal_range: None,
            };
            let from = ParameterConstraints { upper: Some(provided), ..none };
            let wanted = ParameterConstraints { upper: Some(required), ..none };
            &&& from.implies_parts(wanted) <==> float_lt(provided.value, required.value) || (
            float_eq(required.value, provided.value) && (required.inclusive
                || !provided.inclusive))
            &&& !none.implies_parts(wanted)
            &&& from.implies_parts(none)
            &&& from.implies_parts(ParameterConstraints { non_zero: true, ..none }) <==> float_lt(
                provided.value,
                0,
            ) || (float_eq(0, provided.value) && !provided.inclusive)
        }),
{
}

/// Constraints imply others exactly if they imply each part of them: the lower bound by their own
/// lower bound, the upper one by their own upper one, and the bounds of the reciprocal by those of
/// their own reciprocal. That a value is not zero, or that it only has a reciprocal, follows from
/// constraints that say either, and from a bound that leaves zero out.
pub proof fn law_constraints_are_implied_part_by_part(
    provided: ParameterConstraints,
    required: ParameterConstraints,
    low: Option<Bound>,
    high: Option<Bound>,
)
    ensures
        ({
            let none = ParameterConstraints {
                lower: None,
                upper: None,
                non_zero: false,
                reciprocal_range: None,
            };
            let not_zero = ParameterConstraints { non_zero: true, ..none };
            let invertible = ParameterConstraints { reciprocal_range: Some((None, None)), ..none };
            let range = ParameterConstraints { reciprocal_range: Some((low, high)), ..none };
            let lower_of = |c: ParameterConstraints| ParameterConstraints { lower: c.lower, ..none };
            let upper_of = |c: ParameterConstraints| ParameterConstraints { upper: c.upper, ..none };
            &&& provided.implies_parts(required) <==> {
                &&& lower_of(provided).implies_parts(lower_of(required))
                &&& upper_of(provided).implies_parts(upper_of(required))
                &&& required.non_zero ==> provided.implies_parts(not_zero)
                &&& required.reciprocal_range is Some ==> provided.implies_parts(
                    ParameterConstraints { reciprocal_range: required.reciprocal_range, ..none },
                )
            }
            &&& provided.implies_parts(not_zero) <==> {
                ||| provided.non_zero
                ||| provided.reciprocal_range is Some
                ||| lower_of(provided).implies_parts(not_zero)
                ||| upper_of(provided).implies_parts(not_zero)
            }
            &&& provided.implies_parts(invertible) <==> provided.implies_parts(not_zero)
            &&& low is Some || high is Some ==> (provided.implies_parts(range) <==> {
                &&& provided.reciprocal_range is Some
                &&& (ParameterConstraints {
                    lower: provided.reciprocal_range->Some_0.0,
                    ..none
                }).implies_parts(ParameterConstraints { lower: low, ..none })
                &&& (ParameterConstraints {
                    upper: provided.reciprocal_range->Some_0.1,
                    ..none
                }).implies_parts(ParameterConstraints { upper: high, ..none })
            })
        }),
{
}

} // verus!
