use hynergy::parameter::{Bound, ParameterConstraintError, ParameterConstraints};

fn bits(value: f64) -> u64 {
    value.to_bits()
}

#[test]
fn reciprocal_bounds_are_applied_to_reciprocal() {
    let constraints = ParameterConstraints::new(
        None,
        None,
        false,
        Some((
            Some(Bound {
                value: bits(0.4),
                inclusive: true,
            }),
            Some(Bound {
                value: bits(0.6),
                inclusive: true,
            }),
        )),
    );

    assert_eq!(constraints.validate(bits(2.0)), Ok(()));
    assert_eq!(
        constraints.validate(bits(0.5)),
        Err(ParameterConstraintError::ReciprocalOutOfRange)
    );
}

#[test]
fn inclusive_bounds_accept_boundary_values() {
    let constraints = ParameterConstraints::new(
        Some(Bound {
            value: bits(1.0),
            inclusive: true,
        }),
        Some(Bound {
            value: bits(2.0),
            inclusive: true,
        }),
        false,
        None,
    );

    assert_eq!(constraints.validate(bits(1.0)), Ok(()));
    assert_eq!(constraints.validate(bits(2.0)), Ok(()));
}

#[test]
fn exclusive_bounds_reject_boundary_values() {
    let constraints = ParameterConstraints::new(
        Some(Bound {
            value: bits(1.0),
            inclusive: false,
        }),
        Some(Bound {
            value: bits(2.0),
            inclusive: false,
        }),
        false,
        None,
    );

    assert_eq!(
        constraints.validate(bits(1.0)),
        Err(ParameterConstraintError::OutOfRange)
    );
    assert_eq!(
        constraints.validate(bits(2.0)),
        Err(ParameterConstraintError::OutOfRange)
    );
    assert_eq!(constraints.validate(bits(1.5)), Ok(()));
}

#[test]
fn non_finite_input_is_rejected() {
    let constraints = ParameterConstraints::unrestricted();

    assert_eq!(
        constraints.validate(bits(f64::NAN)),
        Err(ParameterConstraintError::NonFinite)
    );
    assert_eq!(
        constraints.validate(bits(f64::INFINITY)),
        Err(ParameterConstraintError::NonFinite)
    );
}

#[test]
fn non_zero_constraint_rejects_zero() {
    let constraints = ParameterConstraints::new(None, None, true, None);

    assert_eq!(
        constraints.validate(bits(0.0)),
        Err(ParameterConstraintError::ZeroNotAllowed)
    );
}

#[test]
fn non_finite_reciprocal_is_rejected() {
    let constraints = ParameterConstraints::new(
        None,
        None,
        true,
        Some((
            None,
            Some(Bound {
                value: bits(f64::MAX),
                inclusive: true,
            }),
        )),
    );

    assert_eq!(
        constraints.validate(bits(f64::from_bits(1))),
        Err(ParameterConstraintError::ReciprocalOutOfRange)
    );
}

#[test]
fn constraint_subset_accepts_equal_constraints() {
    let constraints = ParameterConstraints::new(
        Some(Bound {
            value: bits(0.0),
            inclusive: false,
        }),
        None,
        false,
        None,
    );

    assert!(constraints.is_subset_of(&constraints));
}

#[test]
fn constraint_subset_accepts_stricter_bounds() {
    let provided = ParameterConstraints::new(
        Some(Bound {
            value: bits(1.0),
            inclusive: true,
        }),
        Some(Bound {
            value: bits(10.0),
            inclusive: false,
        }),
        false,
        None,
    );

    let required = ParameterConstraints::new(
        Some(Bound {
            value: bits(0.0),
            inclusive: false,
        }),
        Some(Bound {
            value: bits(10.0),
            inclusive: true,
        }),
        false,
        None,
    );

    assert!(provided.is_subset_of(&required));
}

#[test]
fn constraint_subset_rejects_weaker_lower_bound() {
    let provided = ParameterConstraints::unrestricted();

    let required = ParameterConstraints::new(
        Some(Bound {
            value: bits(0.0),
            inclusive: false,
        }),
        None,
        false,
        None,
    );

    assert!(!provided.is_subset_of(&required));
}

#[test]
fn exclusive_zero_bound_implies_non_zero() {
    let provided = ParameterConstraints::new(
        Some(Bound {
            value: bits(0.0),
            inclusive: false,
        }),
        None,
        false,
        None,
    );

    let required = ParameterConstraints::new(None, None, true, None);

    assert!(provided.is_subset_of(&required));
}

#[test]
fn reciprocal_constraint_implies_non_zero() {
    let provided = ParameterConstraints::new(None, None, false, Some((None, None)));

    let required = ParameterConstraints::new(None, None, true, None);

    assert!(provided.is_subset_of(&required));
}

#[test]
fn constraint_subset_rejects_missing_required_reciprocal_bound() {
    let provided = ParameterConstraints::new(
        Some(Bound {
            value: bits(1.0),
            inclusive: true,
        }),
        None,
        false,
        None,
    );

    let required = ParameterConstraints::new(
        None,
        None,
        false,
        Some((
            Some(Bound {
                value: bits(0.1),
                inclusive: true,
            }),
            None,
        )),
    );

    assert!(!provided.is_subset_of(&required));
}

fn lower(value: f64, inclusive: bool) -> ParameterConstraints {
    ParameterConstraints::new(
        Some(Bound {
            value: bits(value),
            inclusive,
        }),
        None,
        false,
        None,
    )
}

#[test]
fn reciprocal_bounds_follow_floating_point_division() {
    let samples = [
        0.1, 0.3, 1.0 / 3.0, 0.7, 1.0, 1.5, 3.0, 7.0, 10.0, 49.0, 1e-300, 1e300, 2.5e-308, 1e308,
        f64::MAX,
        f64::MIN_POSITIVE,
        5.6e-309,
        5.5e-309,
        -0.1,
        -3.0,
        -1e300,
    ];
    let bounds = [
        0.0, 0.1, 1.0 / 3.0, 0.7, 1.0, 10.0, 1.0 / 49.0, 1e300, 1e-300, f64::MAX, -0.1, -10.0,
        -1.0 / 3.0,
    ];
    for sample in samples {
        let reciprocal = 1.0 / sample;
        for bound in bounds {
            for inclusive in [false, true] {
                let limit = Some(Bound {
                    value: bits(bound),
                    inclusive,
                });
                let above = ParameterConstraints::new(None, None, false, Some((limit, None)));
                let below = ParameterConstraints::new(None, None, false, Some((None, limit)));
                let is_above = reciprocal > bound || (inclusive && reciprocal == bound);
                let is_below = reciprocal < bound || (inclusive && reciprocal == bound);
                assert_eq!(
                    above.validate(bits(sample)).is_ok(),
                    reciprocal.is_finite() && is_above,
                    "{sample} above {bound}"
                );
                assert_eq!(
                    below.validate(bits(sample)).is_ok(),
                    reciprocal.is_finite() && is_below,
                    "{sample} below {bound}"
                );
            }
        }
    }
}

#[test]
fn bounds_follow_floating_point_order() {
    let samples = [-1e300, -2.0, -1.0, -0.0, 0.0, f64::MIN_POSITIVE, 1.0, 2.0, 1e300];
    for sample in samples {
        for bound in samples {
            assert_eq!(lower(bound, true).validate(bits(sample)).is_ok(), sample >= bound);
            assert_eq!(lower(bound, false).validate(bits(sample)).is_ok(), sample > bound);
        }
    }
}

#[test]
fn zero_has_no_reciprocal() {
    let constraints = ParameterConstraints::new(None, None, false, Some((None, None)));

    for zero in [0.0, -0.0] {
        assert_eq!(
            constraints.validate(bits(zero)),
            Err(ParameterConstraintError::ReciprocalOutOfRange)
        );
    }
    assert_eq!(constraints.validate(bits(2.0)), Ok(()));
}

#[test]
fn values_that_meet_stricter_constraints_meet_weaker_ones() {
    let strict = lower(1.0, true);
    let weak = lower(0.0, false);

    assert!(strict.is_subset_of(&weak));
    assert!(!weak.is_subset_of(&strict));
    for value in [1.0, 1.5, f64::MAX] {
        assert_eq!(strict.validate(bits(value)), Ok(()));
        assert_eq!(weak.validate(bits(value)), Ok(()));
    }
    assert_eq!(
        strict.validate(bits(0.5)),
        Err(ParameterConstraintError::OutOfRange)
    );
    assert_eq!(weak.validate(bits(0.5)), Ok(()));
}
