//! Constraints on the parameters of devices. Values are bit patterns of double precision numbers.

use crate::float_bits::{
    float_eq, float_eq_bits, float_le, float_le_bits, float_lt, float_lt_bits, is_finite,
    is_finite_bits, is_nan, magnitude, rank, reciprocal_above_bits, reciprocal_at_least_bits,
    reciprocal_is_finite, reciprocal_is_finite_bits, reciprocal_rank_at_least, reciprocal_reaches,
    units, INFINITY_BITS,
};
use vstd::arithmetic::power2::pow2;
use vstd::prelude::*;

verus! {

/// One end of a range of values.
#[derive(Debug, Clone, Copy, PartialEq, Eq, Structural)]
pub struct Bound {
    pub value: u64,
    pub inclusive: bool,
}

/// What a parameter's value has to meet.
#[derive(Debug, Clone, Copy, PartialEq, Eq)]
pub struct ParameterConstraints {
    pub lower: Option<Bound>,
    pub upper: Option<Bound>,
    pub non_zero: bool,
    pub reciprocal_range: Option<(Option<Bound>, Option<Bound>)>,
}

/// Why a value does not meet a parameter's constraints.
#[derive(Debug, Clone, Copy, PartialEq, Eq, Structural)]
pub enum ParameterConstraintError {
    NonFinite,
    ZeroNotAllowed,
    OutOfRange,
    ReciprocalOutOfRange,
}

/// Whether a value lies above a lower bound.
pub open spec fn above_lower(value: u64, bound: Option<Bound>) -> bool {
    match bound {
        None => true,
        Some(b) => if b.inclusive {
            float_le(b.value, value)
        } else {
            float_lt(b.value, value)
        },
    }
}

/// Whether a value lies below an upper bound.
pub open spec fn below_upper(value: u64, bound: Option<Bound>) -> bool {
    match bound {
        None => true,
        Some(b) => if b.inclusive {
            float_le(value, b.value)
        } else {
            float_lt(value, b.value)
        },
    }
}

/// Whether the reciprocal of a value lies above a lower bound.
pub open spec fn reciprocal_above_lower(value: u64, bound: Option<Bound>) -> bool {
    match bound {
        None => true,
        Some(b) => !is_nan(b.value) && reciprocal_rank_at_least(
            value,
            rank(b.value) + if b.inclusive {
                0int
            } else {
                1
            },
        ),
    }
}

/// Whether the reciprocal of a value lies below an upper bound.
pub open spec fn reciprocal_below_upper(value: u64, bound: Option<Bound>) -> bool {
    match bound {
        None => true,
        Some(b) => !is_nan(b.value) && !reciprocal_rank_at_least(
            value,
            rank(b.value) + if b.inclusive {
                1int
            } else {
                0
            },
        ),
    }
}

impl ParameterConstraints {
    pub open spec fn spec_lower(self) -> Option<Bound> {
        self.lower
    }

    pub open spec fn spec_upper(self) -> Option<Bound> {
        self.upper
    }

    pub open spec fn spec_non_zero(self) -> bool {
        self.non_zero
    }

    pub open spec fn spec_reciprocal_range(self) -> Option<(Option<Bound>, Option<Bound>)> {
        self.reciprocal_range
    }

    /// The constraints with these parts.
    pub open spec fn of(
        lower: Option<Bound>,
        upper: Option<Bound>,
        non_zero: bool,
        reciprocal_range: Option<(Option<Bound>, Option<Bound>)>,
    ) -> Self {
        ParameterConstraints { lower, upper, non_zero, reciprocal_range }
    }

    /// Whether a value's reciprocal meets the constraints.
    pub open spec fn admits_reciprocal(self, value: u64) -> bool {
        match self.spec_reciprocal_range() {
            None => true,
            Some((lower, upper)) => reciprocal_is_finite(value) && reciprocal_above_lower(
                value,
                lower,
            ) && reciprocal_below_upper(value, upper),
        }
    }

    /// The first constraint that a value breaks.
    pub open spec fn check(self, value: u64) -> Result<(), ParameterConstraintError> {
        if !is_finite(value) {
            Err(ParameterConstraintError::NonFinite)
        } else if self.spec_non_zero() && float_eq(value, 0) {
            Err(ParameterConstraintError::ZeroNotAllowed)
        } else if !(above_lower(value, self.spec_lower()) && below_upper(
            value,
            self.spec_upper(),
        )) {
            Err(ParameterConstraintError::OutOfRange)
        } else if !self.admits_reciprocal(value) {
            Err(ParameterConstraintError::ReciprocalOutOfRange)
        } else {
            Ok(())
        }
    }

    /// The constraints with the given parts.
    pub fn new(
        lower: Option<Bound>,
        upper: Option<Bound>,
        non_zero: bool,
        reciprocal_range: Option<(Option<Bound>, Option<Bound>)>,
    ) -> (result: Self)
        ensures
            result == Self::of(lower, upper, non_zero, reciprocal_range),
    {
        ParameterConstraints { lower, upper, non_zero, reciprocal_range }
    }

    /// Constraints that every finite value meets.
    pub fn unrestricted() -> (result: Self)
        ensures
            result == Self::of(None, None, false, None),
    {
        ParameterConstraints { lower: None, upper: None, non_zero: false, reciprocal_range: None }
    }

    /// Holds a value against the constraints.
    pub fn validate(&self, param: u64) -> (result: Result<(), ParameterConstraintError>)
        ensures
            result == self.check(param),
    {
        if !is_finite_bits(param) {
            return Err(ParameterConstraintError::NonFinite);
        }
        if self.non_zero && float_eq_bits(param, 0) {
            return Err(ParameterConstraintError::ZeroNotAllowed);
        }
        if !within_bounds(param, self.lower, self.upper) {
            return Err(ParameterConstraintError::OutOfRange);
        }
        if let Some((lower, upper)) = self.reciprocal_range {
            if !reciprocal_is_finite_bits(param) || !reciprocal_within_bounds(param, lower, upper) {
                return Err(ParameterConstraintError::ReciprocalOutOfRange);
            }
        }
        Ok(())
    }

    /// Whether no value that meets the constraints is zero, judged by the bounds alone.
    pub open spec fn spec_excludes_zero(self) -> bool {
        ||| self.spec_non_zero()
        ||| self.spec_reciprocal_range() is Some
        ||| (self.spec_lower() matches Some(b) && (float_lt(0, b.value) || (float_eq(b.value, 0)
            && !b.inclusive)))
        ||| (self.spec_upper() matches Some(b) && (float_lt(b.value, 0) || (float_eq(b.value, 0)
            && !b.inclusive)))
    }

    /// Whether the constraints imply `required`, judged part by part.
    pub open spec fn implies_parts(self, required: Self) -> bool {
        &&& lower_implies(self.spec_lower(), required.spec_lower())
        &&& upper_implies(self.spec_upper(), required.spec_upper())
        &&& required.spec_non_zero() ==> self.spec_excludes_zero()
        &&& match required.spec_reciprocal_range() {
            None => true,
            Some((None, None)) => self.spec_excludes_zero(),
            Some((required_lower, required_upper)) => match self.spec_reciprocal_range() {
                None => false,
                Some((lower, upper)) => lower_implies(lower, required_lower) && upper_implies(
                    upper,
                    required_upper,
                ),
            },
        }
    }

    /// Whether the constraints imply `required`, judged part by part.
    pub fn is_subset_of(&self, required: &Self) -> (result: bool)
        ensures
            result == self.implies_parts(*required),
    {
        if !lower_bound_implies(self.lower, required.lower) || !upper_bound_implies(
            self.upper,
            required.upper,
        ) {
            return false;
        }
        let excludes_zero = self.excludes_zero();
        if required.non_zero && !excludes_zero {
            return false;
        }
        reciprocal_range_implies(self.reciprocal_range, required.reciprocal_range, excludes_zero)
    }

    fn excludes_zero(&self) -> (result: bool)
        ensures
            result == self.spec_excludes_zero(),
    {
        if self.non_zero || self.reciprocal_range.is_some() {
            return true;
        }
        if let Some(bound) = self.lower {
            if float_lt_bits(0, bound.value) || (float_eq_bits(bound.value, 0) && !bound.inclusive) {
                return true;
            }
        }
        if let Some(bound) = self.upper {
            if float_lt_bits(bound.value, 0) || (float_eq_bits(bound.value, 0) && !bound.inclusive) {
                return true;
            }
        }
        false
    }

    /// A value that meets constraints also meets every constraints they imply part by part. Where
    /// only the implied ones speak of the reciprocal, it must not be too large for a finite number.
    pub proof fn law_subset_accepts_less(self, required: Self, value: u64)
        requires
            self.implies_parts(required),
            self.check(value) == Ok::<(), ParameterConstraintError>(()),
            required.spec_reciprocal_range() is Some && self.spec_reciprocal_range() is None
                ==> reciprocal_is_finite(value),
        ensures
            required.check(value) == Ok::<(), ParameterConstraintError>(()),
    {
        if let (Some((lower, upper)), Some((required_lower, required_upper))) = (
            self.spec_reciprocal_range(),
            required.spec_reciprocal_range(),
        ) {
            if let (Some(a), Some(b)) = (lower, required_lower) {
                lemma_reciprocal_monotone(
                    value,
                    rank(b.value) + if b.inclusive {
                        0int
                    } else {
                        1
                    },
                    rank(a.value) + if a.inclusive {
                        0int
                    } else {
                        1
                    },
                );
            }
            if let (Some(a), Some(b)) = (upper, required_upper) {
                let low = rank(a.value) + if a.inclusive {
                    1int
                } else {
                    0
                };
                let high = rank(b.value) + if b.inclusive {
                    1int
                } else {
                    0
                };
                if reciprocal_rank_at_least(value, high) {
                    lemma_reciprocal_monotone(value, low, high);
                }
            }
        }
    }
}

/// A rounded reciprocal that reaches a rank reaches every lower one.
pub proof fn lemma_reciprocal_monotone(value: u64, low: int, high: int)
    requires
        low <= high,
        -(INFINITY_BITS as int) <= low,
        reciprocal_rank_at_least(value, high),
    ensures
        reciprocal_rank_at_least(value, low),
{
    if value < 0x8000_0000_0000_0000 {
        if low > 0 && low < high {
            lemma_reaches_monotone(magnitude(value), low as u64, high as u64);
        }
    } else {
        let a = (-high + 1) as u64;
        if -low + 1 <= INFINITY_BITS && low < high && reciprocal_reaches(
            magnitude(value),
            (-low + 1) as u64,
        ) {
            lemma_reaches_monotone(magnitude(value), a, (-low + 1) as u64);
        }
    }
}

/// A rounded reciprocal that reaches a magnitude reaches every smaller one.
pub proof fn lemma_reaches_monotone(mag: u64, low: u64, high: u64)
    requires
        low < high,
        reciprocal_reaches(mag, high),
    ensures
        reciprocal_reaches(mag, low),
{
    if low > 0 {
        lemma_units_monotone((low - 1) as u64, (high - 1) as u64);
        lemma_units_monotone(low, high);
        let a = units((low - 1) as u64) + units(low);
        let b = units((high - 1) as u64) + units(high);
        assert(a * units(mag) <= b * units(mag)) by (nonlinear_arith)
            requires
                a < b,
        ;
        if units(mag) > 0 {
            assert(a * units(mag) < b * units(mag)) by (nonlinear_arith)
                requires
                    a < b,
                    units(mag) > 0,
            ;
        } else {
            vstd::arithmetic::power2::lemma_pow2_pos(2149);
            assert(a * units(mag) == 0) by (nonlinear_arith)
                requires
                    units(mag) == 0,
            ;
        }
    }
}

/// The next magnitude has the next fraction, or the next exponent and no fraction.
proof fn lemma_next_magnitude(before: u64, high: u64)
    requires
        high == before + 1,
    ensures
        ({
            let e0 = before / 0x10_0000_0000_0000;
            let e1 = high / 0x10_0000_0000_0000;
            let f0 = before % 0x10_0000_0000_0000;
            let f1 = high % 0x10_0000_0000_0000;
            ||| e0 == e1 && f1 == f0 + 1
            ||| e1 == e0 + 1 && f0 == 0xF_FFFF_FFFF_FFFF && f1 == 0
        }),
{
}

/// The next magnitude belongs to a larger number.
proof fn lemma_units_next(before: u64, high: u64)
    requires
        high == before + 1,
    ensures
        units(before) < units(high),
{
    let e0 = before / 0x10_0000_0000_0000;
    let e1 = high / 0x10_0000_0000_0000;
    let f0 = before % 0x10_0000_0000_0000;
    let f1 = high % 0x10_0000_0000_0000;
    lemma_next_magnitude(before, high);
    if e0 == 0 {
        assert(pow2(0) == 1) by {
            vstd::arithmetic::power2::lemma2_to64();
        }
        assert(units(before) == f0);
    } else {
        let p = pow2((e0 - 1) as nat);
        vstd::arithmetic::power2::lemma_pow2_pos((e0 - 1) as nat);
        assert(units(before) == (0x10_0000_0000_0000 + f0) * p);
        if e0 == e1 {
            assert(units(high) == (0x10_0000_0000_0000 + f1) * p);
            assert((0x10_0000_0000_0000 + f0) * p < (0x10_0000_0000_0000 + f1) * p)
                by (nonlinear_arith)
                requires
                    p > 0,
                    f1 == f0 + 1,
            ;
        } else {
            let q = pow2((e1 - 1) as nat);
            assert(q == 2 * p) by {
                vstd::arithmetic::power2::lemma_pow2_unfold((e1 - 1) as nat);
            }
            assert(units(high) == (0x10_0000_0000_0000 + f1) * q);
            assert((0x10_0000_0000_0000 + f0) * p < (0x10_0000_0000_0000 + f1) * q)
                by (nonlinear_arith)
                requires
                    p > 0,
                    q == 2 * p,
                    f0 == 0xF_FFFF_FFFF_FFFF,
                    f1 == 0,
            ;
        }
    }
}

/// Larger magnitudes belong to larger numbers.
pub proof fn lemma_units_monotone(low: u64, high: u64)
    requires
        low < high <= INFINITY_BITS,
    ensures
        units(low) < units(high),
    decreases high - low,
{
    let before = (high - 1) as u64;
    lemma_units_next(before, high);
    if low < before {
        lemma_units_monotone(low, before);
    }
}

/// Whether every value above the provided lower bound is above the required one.
pub open spec fn lower_implies(provided: Option<Bound>, required: Option<Bound>) -> bool {
    match (provided, required) {
        (_, None) => true,
        (None, Some(_)) => false,
        (Some(p), Some(r)) => float_lt(r.value, p.value) || (float_eq(p.value, r.value) && (
        !p.inclusive || r.inclusive)),
    }
}

/// Whether every value below the provided upper bound is below the required one.
pub open spec fn upper_implies(provided: Option<Bound>, required: Option<Bound>) -> bool {
    match (provided, required) {
        (_, None) => true,
        (None, Some(_)) => false,
        (Some(p), Some(r)) => float_lt(p.value, r.value) || (float_eq(p.value, r.value) && (
        !p.inclusive || r.inclusive)),
    }
}

fn lower_bound_implies(provided: Option<Bound>, required: Option<Bound>) -> (result: bool)
    ensures
        result == lower_implies(provided, required),
{
    match (provided, required) {
        (_, None) => true,
        (None, Some(_)) => false,
        (Some(p), Some(r)) => float_lt_bits(r.value, p.value) || (float_eq_bits(p.value, r.value)
            && (!p.inclusive || r.inclusive)),
    }
}

fn upper_bound_implies(provided: Option<Bound>, required: Option<Bound>) -> (result: bool)
    ensures
        result == upper_implies(provided, required),
{
    match (provided, required) {
        (_, None) => true,
        (None, Some(_)) => false,
        (Some(p), Some(r)) => float_lt_bits(p.value, r.value) || (float_eq_bits(p.value, r.value)
            && (!p.inclusive || r.inclusive)),
    }
}

fn reciprocal_range_implies(
    provided: Option<(Option<Bound>, Option<Bound>)>,
    required: Option<(Option<Bound>, Option<Bound>)>,
    provided_excludes_zero: bool,
) -> (result: bool)
    ensures
        result == match required {
            None => true,
            Some((None, None)) => provided_excludes_zero,
            Some((required_lower, required_upper)) => match provided {
                None => false,
                Some((lower, upper)) => lower_implies(lower, required_lower) && upper_implies(
                    upper,
                    required_upper,
                ),
            },
        },
{
    let (required_lower, required_upper) = match required {
        None => {
            return true;
        },
        Some(range) => range,
    };
    if required_lower.is_none() && required_upper.is_none() {
        return provided_excludes_zero;
    }
    match provided {
        None => false,
        Some((lower, upper)) => lower_bound_implies(lower, required_lower) && upper_bound_implies(
            upper,
            required_upper,
        ),
    }
}

fn within_bounds(value: u64, lower: Option<Bound>, upper: Option<Bound>) -> (result: bool)
    ensures
        result == (above_lower(value, lower) && below_upper(value, upper)),
{
    let above = match lower {
        None => true,
        Some(b) => if b.inclusive {
            float_le_bits(b.value, value)
        } else {
            float_lt_bits(b.value, value)
        },
    };
    let below = match upper {
        None => true,
        Some(b) => if b.inclusive {
            float_le_bits(value, b.value)
        } else {
            float_lt_bits(value, b.value)
        },
    };
    above && below
}

fn reciprocal_within_bounds(value: u64, lower: Option<Bound>, upper: Option<Bound>) -> (result:
    bool)
    requires
        is_finite(value),
        magnitude(value) != 0,
    ensures
        result == (reciprocal_above_lower(value, lower) && reciprocal_below_upper(value, upper)),
{
    let above = match lower {
        None => true,
        Some(b) => b.value % 0x8000_0000_0000_0000 <= INFINITY_BITS && if b.inclusive {
            reciprocal_at_least_bits(value, b.value)
        } else {
            reciprocal_above_bits(value, b.value)
        },
    };
    let below = match upper {
        None => true,
        Some(b) => b.value % 0x8000_0000_0000_0000 <= INFINITY_BITS && if b.inclusive {
            !reciprocal_above_bits(value, b.value)
        } else {
            !reciprocal_at_least_bits(value, b.value)
        },
    };
    above && below
}

} // verus!
