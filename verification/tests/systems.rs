use faer::linalg::solvers::Solve;
use faer::sparse::linalg::solvers::Lu;
use faer::sparse::linalg::LuError;
use faer::sparse::{FaerError, SparseColMatRef, SymbolicSparseColMatRef};
use faer::MatMut;
use hynergy::matrix_program::{group_operations, MatrixAdd, MatrixProgram, ValueSlot};
use hynergy::mna_system::{FactorFailure, MnaError, MnaSystem, SolverFailure};
use hynergy::pattern::{MnaPattern, PatternBuilder, PatternError, UnknownIndex};
use hynergy::workspace::ValueWorkspace;

type System = MnaSystem<Lu<u32, f64>>;

fn bits(value: f64) -> u64 {
    value.to_bits()
}

fn generic(error: FaerError) -> SolverFailure {
    match error {
        FaerError::IndexOverflow => SolverFailure::IndexOverflow,
        FaerError::OutOfMemory => SolverFailure::OutOfMemory,
        _ => SolverFailure::Other,
    }
}

fn factorize(system: &mut System) -> Result<(), MnaError> {
    let factorization = match system.symbolic() {
        None => return Ok(()),
        Some(symbolic) => {
            let dimension = system.dimension();
            let values: Vec<f64> = system.values().iter().map(|&v| f64::from_bits(v)).collect();
            let pattern = SymbolicSparseColMatRef::new_checked(
                dimension,
                dimension,
                system.pattern().column_ptrs(),
                None,
                system.pattern().row_indices(),
            );
            Lu::try_new_with_symbolic(
                symbolic.inner.clone(),
                SparseColMatRef::new(pattern, &values),
            )
            .map_err(|error| match error {
                LuError::SymbolicSingular { index } => FactorFailure::SymbolicSingular { index },
                LuError::Generic(error) => FactorFailure::Generic(generic(error)),
            })
        }
    };
    system.factorize(factorization)
}

fn solve_in_place(system: &System, rhs: &mut [f64]) -> Result<(), MnaError> {
    if let Some(lu) = system.solver_for(rhs.len())? {
        let dimension = rhs.len();
        lu.solve_in_place(MatMut::from_column_major_slice_mut(rhs, dimension, 1));
    }
    Ok(())
}

fn program(ops: Vec<MatrixAdd>) -> MatrixProgram {
    let groups = group_operations(&ops);
    let sums: Vec<u64> = groups
        .iter()
        .map(|group| {
            let mut scales = group.scales().iter().map(|&scale| f64::from_bits(scale));
            let first = scales.next().unwrap();
            bits(scales.fold(first, |sum, scale| sum + scale))
        })
        .collect();
    MatrixProgram::new(&groups, &sums)
}

#[test]
fn deduplicates_coordinates_and_assigns_csc_slots() {
    let mut builder = PatternBuilder::new(3).unwrap();

    builder
        .request(UnknownIndex::new(2), UnknownIndex::new(0))
        .unwrap();
    builder
        .request(UnknownIndex::new(0), UnknownIndex::new(0))
        .unwrap();
    builder
        .request(UnknownIndex::new(2), UnknownIndex::new(0))
        .unwrap();
    builder
        .request(UnknownIndex::new(1), UnknownIndex::new(2))
        .unwrap();

    let pattern = builder.finish().unwrap();

    assert_eq!(pattern.dimension(), 3);
    assert_eq!(pattern.nnz(), 3);

    assert_eq!(
        pattern
            .slot(UnknownIndex::new(0), UnknownIndex::new(0))
            .unwrap()
            .index(),
        0
    );

    assert_eq!(
        pattern
            .slot(UnknownIndex::new(2), UnknownIndex::new(0))
            .unwrap()
            .index(),
        1
    );

    assert_eq!(
        pattern
            .slot(UnknownIndex::new(1), UnknownIndex::new(2))
            .unwrap()
            .index(),
        2
    );

    assert_eq!(
        pattern.slot(UnknownIndex::new(1), UnknownIndex::new(1)),
        None
    );
}

#[test]
fn sorts_rows_within_columns() {
    let mut builder = PatternBuilder::new(4).unwrap();

    builder
        .request(UnknownIndex::new(3), UnknownIndex::new(1))
        .unwrap();
    builder
        .request(UnknownIndex::new(0), UnknownIndex::new(1))
        .unwrap();
    builder
        .request(UnknownIndex::new(2), UnknownIndex::new(1))
        .unwrap();

    let pattern = builder.finish().unwrap();

    assert_eq!(pattern.row_indices(), &[0, 2, 3]);
    assert_eq!(pattern.column_ptrs(), &[0, 0, 3, 3, 3]);
}

#[test]
fn preserves_empty_columns() {
    let mut builder = PatternBuilder::new(4).unwrap();

    builder
        .request(UnknownIndex::new(1), UnknownIndex::new(0))
        .unwrap();
    builder
        .request(UnknownIndex::new(2), UnknownIndex::new(3))
        .unwrap();

    let pattern = builder.finish().unwrap();

    assert_eq!(pattern.column_ptrs(), &[0, 1, 1, 1, 2]);
    assert_eq!(pattern.row_indices(), &[1, 2]);
}

#[test]
fn rejects_row_outside_dimension() {
    let mut builder = PatternBuilder::new(3).unwrap();

    assert_eq!(
        builder.request(UnknownIndex::new(3), UnknownIndex::new(0)),
        Err(PatternError::IndexOutOfBounds {
            index: UnknownIndex::new(3),
            dimension: 3,
        })
    );
}

#[test]
fn rejects_column_outside_dimension() {
    let mut builder = PatternBuilder::new(3).unwrap();

    assert_eq!(
        builder.request(UnknownIndex::new(0), UnknownIndex::new(3)),
        Err(PatternError::IndexOutOfBounds {
            index: UnknownIndex::new(3),
            dimension: 3,
        })
    );
}

#[test]
fn rejects_dimension_unsupported_by_faer_u32_indices() {
    let dimension = i32::MAX as usize + 1;

    assert_eq!(
        PatternBuilder::new(dimension).unwrap_err(),
        PatternError::DimensionTooLarge {
            dimension,
            max: PatternBuilder::MAX_DIMENSION,
        }
    );
}

#[test]
fn zero_dimension_is_valid() {
    let pattern = PatternBuilder::new(0).unwrap().finish().unwrap();

    assert_eq!(pattern.dimension(), 0);
    assert_eq!(pattern.nnz(), 0);
    assert_eq!(pattern.column_ptrs(), &[0]);
    assert!(pattern.row_indices().is_empty());
}

#[test]
fn preallocated_builder_has_identical_semantics() {
    let mut builder = PatternBuilder::with_capacity(2, 32).unwrap();

    builder
        .request(UnknownIndex::new(0), UnknownIndex::new(0))
        .unwrap();
    builder
        .request(UnknownIndex::new(1), UnknownIndex::new(1))
        .unwrap();

    let pattern = builder.finish().unwrap();

    assert_eq!(pattern.column_ptrs(), &[0, 1, 2]);
    assert_eq!(pattern.row_indices(), &[0, 1]);
}

fn full_2x2_pattern() -> MnaPattern {
    let mut builder = PatternBuilder::new(2).unwrap();

    for column in 0..2 {
        for row in 0..2 {
            builder
                .request(UnknownIndex::new(row), UnknownIndex::new(column))
                .unwrap();
        }
    }

    builder.finish().unwrap()
}

#[test]
fn solves_sparse_linear_system() {
    // A =
    //
    // [ 4  1 ]
    // [ 2  3 ]
    //
    // b =
    //
    // [ 1 ]
    // [ 2 ]
    //
    // x =
    //
    // [ 0.1 ]
    // [ 0.6 ]

    let pattern = full_2x2_pattern();

    let a00 = pattern
        .slot(UnknownIndex::new(0), UnknownIndex::new(0))
        .unwrap();

    let a10 = pattern
        .slot(UnknownIndex::new(1), UnknownIndex::new(0))
        .unwrap();

    let a01 = pattern
        .slot(UnknownIndex::new(0), UnknownIndex::new(1))
        .unwrap();

    let a11 = pattern
        .slot(UnknownIndex::new(1), UnknownIndex::new(1))
        .unwrap();

    let mut system = System::new(pattern).unwrap();

    {
        let values = system.values_mut();

        values.set(a00, bits(4.0));
        values.set(a10, bits(2.0));
        values.set(a01, bits(1.0));
        values.set(a11, bits(3.0));
    }

    factorize(&mut system).unwrap();

    let mut rhs = [1.0, 2.0];

    solve_in_place(&system, &mut rhs).unwrap();

    assert!((rhs[0] - 0.1).abs() < 1.0e-12);
    assert!((rhs[1] - 0.6).abs() < 1.0e-12);
}

#[test]
fn modifying_values_invalidates_only_numeric_factorization() {
    let pattern = full_2x2_pattern();

    let a00 = pattern
        .slot(UnknownIndex::new(0), UnknownIndex::new(0))
        .unwrap();

    let a10 = pattern
        .slot(UnknownIndex::new(1), UnknownIndex::new(0))
        .unwrap();

    let a01 = pattern
        .slot(UnknownIndex::new(0), UnknownIndex::new(1))
        .unwrap();

    let a11 = pattern
        .slot(UnknownIndex::new(1), UnknownIndex::new(1))
        .unwrap();

    let mut system = System::new(pattern).unwrap();

    {
        let values = system.values_mut();

        values.set(a00, bits(4.0));
        values.set(a10, bits(2.0));
        values.set(a01, bits(1.0));
        values.set(a11, bits(3.0));
    }

    factorize(&mut system).unwrap();

    assert!(system.is_factorized());

    {
        let values = system.values_mut();
        values.set(a00, bits(5.0));
    }

    assert!(!system.is_factorized());

    let mut rhs = [1.0, 2.0];

    assert_eq!(
        solve_in_place(&system, &mut rhs),
        Err(MnaError::NotFactorized)
    );

    factorize(&mut system).unwrap();

    assert!(system.is_factorized());
}

#[test]
fn factorization_can_solve_multiple_rhs_vectors() {
    let pattern = full_2x2_pattern();

    let a00 = pattern
        .slot(UnknownIndex::new(0), UnknownIndex::new(0))
        .unwrap();

    let a10 = pattern
        .slot(UnknownIndex::new(1), UnknownIndex::new(0))
        .unwrap();

    let a01 = pattern
        .slot(UnknownIndex::new(0), UnknownIndex::new(1))
        .unwrap();

    let a11 = pattern
        .slot(UnknownIndex::new(1), UnknownIndex::new(1))
        .unwrap();

    let mut system = System::new(pattern).unwrap();

    {
        let values = system.values_mut();

        values.set(a00, bits(4.0));
        values.set(a10, bits(2.0));
        values.set(a01, bits(1.0));
        values.set(a11, bits(3.0));
    }

    factorize(&mut system).unwrap();

    let mut rhs_a = [1.0, 2.0];
    let mut rhs_b = [5.0, 5.0];

    solve_in_place(&system, &mut rhs_a).unwrap();
    solve_in_place(&system, &mut rhs_b).unwrap();

    assert!((rhs_a[0] - 0.1).abs() < 1.0e-12);
    assert!((rhs_a[1] - 0.6).abs() < 1.0e-12);

    assert!((rhs_b[0] - 1.0).abs() < 1.0e-12);
    assert!((rhs_b[1] - 1.0).abs() < 1.0e-12);
}

#[test]
fn rejects_wrong_rhs_dimension() {
    let pattern = full_2x2_pattern();
    let system = System::new(pattern).unwrap();

    let mut rhs = [1.0];

    assert_eq!(
        solve_in_place(&system, &mut rhs),
        Err(MnaError::RhsLengthMismatch {
            expected: 2,
            actual: 1,
        })
    );
}

#[test]
fn zero_dimension_system_is_trivial() {
    let pattern = PatternBuilder::new(0).unwrap().finish().unwrap();

    let mut system = System::new(pattern).unwrap();

    assert!(system.is_factorized());

    factorize(&mut system).unwrap();

    let mut rhs: [f64; 0] = [];

    solve_in_place(&system, &mut rhs).unwrap();
}

#[test]
fn executes_matrix_scatter_by_precompiled_slots() {
    let mut builder = PatternBuilder::new(2).unwrap();

    builder
        .request(UnknownIndex::new(0), UnknownIndex::new(0))
        .unwrap();

    builder
        .request(UnknownIndex::new(1), UnknownIndex::new(1))
        .unwrap();

    let pattern = builder.finish().unwrap();

    let a00 = pattern
        .slot(UnknownIndex::new(0), UnknownIndex::new(0))
        .unwrap();

    let a11 = pattern
        .slot(UnknownIndex::new(1), UnknownIndex::new(1))
        .unwrap();

    let mut system = System::new(pattern).unwrap();

    let program = program(vec![
        MatrixAdd::new(a00, ValueSlot::new(0), bits(2.0)),
        MatrixAdd::new(a11, ValueSlot::new(1), bits(-1.0)),
    ]);

    let values = [3.0, 5.0];

    assert!(program.fits(values.len(), system.values().len()));
    {
        let matrix = system.values_mut();
        for op in program.ops() {
            let sum = f64::from_bits(matrix.get(op.destination()))
                + values[op.source().index()] * f64::from_bits(op.scale());
            matrix.set(op.destination(), bits(sum));
        }
    }

    assert_eq!(system.values(), &[bits(6.0), bits(-5.0)]);
}

#[test]
fn combines_duplicate_destination_and_source_pairs() {
    let mut builder = PatternBuilder::new(1).unwrap();

    builder
        .request(UnknownIndex::new(0), UnknownIndex::new(0))
        .unwrap();

    let pattern = builder.finish().unwrap();

    let slot = pattern
        .slot(UnknownIndex::new(0), UnknownIndex::new(0))
        .unwrap();

    let program = program(vec![
        MatrixAdd::new(slot, ValueSlot::new(0), bits(1.0)),
        MatrixAdd::new(slot, ValueSlot::new(0), bits(2.0)),
        MatrixAdd::new(slot, ValueSlot::new(0), bits(-0.5)),
    ]);

    assert_eq!(program.len(), 1);
    assert_eq!(program.ops()[0].scale(), bits(2.5));
}

#[test]
fn removes_exactly_cancelled_contributions() {
    let mut builder = PatternBuilder::new(1).unwrap();

    builder
        .request(UnknownIndex::new(0), UnknownIndex::new(0))
        .unwrap();

    let pattern = builder.finish().unwrap();

    let slot = pattern
        .slot(UnknownIndex::new(0), UnknownIndex::new(0))
        .unwrap();

    let program = program(vec![
        MatrixAdd::new(slot, ValueSlot::new(0), bits(1.0)),
        MatrixAdd::new(slot, ValueSlot::new(0), bits(-1.0)),
    ]);

    assert!(program.is_empty());
}

#[test]
fn singular_patterns_are_reported() {
    let mut builder = PatternBuilder::new(2).unwrap();
    builder
        .request(UnknownIndex::new(0), UnknownIndex::new(0))
        .unwrap();
    let pattern = builder.finish().unwrap();
    let mut system = System::new(pattern).unwrap();

    assert!(matches!(
        factorize(&mut system),
        Err(MnaError::Singular { .. })
    ));
    assert!(!system.is_factorized());
}

#[test]
fn solver_failures_keep_their_meaning() {
    assert_eq!(
        MnaError::from_faer(SolverFailure::IndexOverflow),
        MnaError::IndexOverflow
    );
    assert_eq!(
        MnaError::from_faer(SolverFailure::OutOfMemory),
        MnaError::OutOfMemory
    );
    assert_eq!(
        MnaError::from_lu(FactorFailure::Generic(SolverFailure::Other)),
        MnaError::BackendFailure
    );
    assert_eq!(
        MnaError::from_lu(FactorFailure::SymbolicSingular { index: 3 }),
        MnaError::Singular { index: 3 }
    );
}

#[test]
fn operations_are_ordered_by_destination_and_source() {
    let pattern = full_2x2_pattern();
    let first = pattern
        .slot(UnknownIndex::new(0), UnknownIndex::new(0))
        .unwrap();
    let last = pattern
        .slot(UnknownIndex::new(1), UnknownIndex::new(1))
        .unwrap();

    let program = program(vec![
        MatrixAdd::new(last, ValueSlot::new(0), bits(1.0)),
        MatrixAdd::new(first, ValueSlot::new(7), bits(2.0)),
        MatrixAdd::new(first, ValueSlot::new(2), bits(3.0)),
        MatrixAdd::new(last, ValueSlot::new(0), bits(4.0)),
    ]);

    let ops: Vec<(usize, usize, u64)> = program
        .ops()
        .iter()
        .map(|op| (op.destination().index(), op.source().index(), op.scale()))
        .collect();
    assert_eq!(
        ops,
        vec![
            (0, 2, bits(3.0)),
            (0, 7, bits(2.0)),
            (3, 0, bits(5.0)),
        ]
    );
    assert_eq!(program.required_value_count(), 8);
    assert_eq!(program.required_matrix_value_count(), 4);
    assert!(program.fits(8, 4));
    assert!(!program.fits(7, 4));
    assert!(!program.fits(8, 3));
}

#[test]
fn slots_number_the_entries_of_a_pattern() {
    let mut builder = PatternBuilder::new(5).unwrap();
    for (row, column) in [(4, 0), (1, 3), (0, 3), (4, 0), (2, 2), (3, 3)] {
        builder
            .request(UnknownIndex::new(row), UnknownIndex::new(column))
            .unwrap();
    }
    assert_eq!(builder.requested_entry_count(), 6);
    let pattern = builder.finish().unwrap();

    assert_eq!(pattern.nnz(), 5);
    let mut seen = vec![false; pattern.nnz()];
    for column in 0..5 {
        for row in 0..5 {
            if let Some(slot) = pattern.slot(UnknownIndex::new(row), UnknownIndex::new(column)) {
                assert_eq!(pattern.row_indices()[slot.index()], row);
                assert!(!seen[slot.index()]);
                seen[slot.index()] = true;
            }
        }
    }
    assert_eq!(seen, vec![true; 5]);
}

#[test]
fn matrix_values_can_be_read_and_replaced() {
    let mut system = System::new(full_2x2_pattern()).unwrap();
    let values = system.values_mut();

    assert_eq!(values.len(), 4);
    assert!(!values.is_empty());
    values.copy_from_slice(&[1, 2, 3, 4]);
    assert_eq!(values.as_slice(), &[1, 2, 3, 4]);
    values.clear();
    assert_eq!(system.values(), &[0, 0, 0, 0]);
    assert_eq!(system.dimension(), 2);
    assert_eq!(system.nnz(), 4);
}

#[test]
fn workspaces_hold_values() {
    let mut workspace = ValueWorkspace::new(3);

    assert_eq!(workspace.len(), 3);
    assert_eq!(workspace.values(), &[0, 0, 0]);
    workspace.values_mut()[1] = bits(2.5);
    assert_eq!(workspace.value(ValueSlot::new(1)), bits(2.5));
}

#[test]
fn order_and_repetition_of_requests_do_not_matter() {
    let entries = [(0, 0), (2, 1), (1, 1), (2, 0)];
    let build = |order: &[usize], capacity: usize| {
        let mut builder = PatternBuilder::with_capacity(3, capacity).unwrap();
        for &index in order {
            let (row, column) = entries[index];
            builder
                .request(UnknownIndex::new(row), UnknownIndex::new(column))
                .unwrap();
        }
        builder.finish().unwrap()
    };
    let first = build(&[0, 1, 2, 3], 0);
    let second = build(&[3, 1, 1, 0, 2, 3], 64);

    assert_eq!(first.column_ptrs(), second.column_ptrs());
    assert_eq!(first.row_indices(), second.row_indices());
}

#[test]
fn systems_that_the_solver_cannot_count_are_refused() {
    let diagonal = |dimension: u32| {
        let mut builder = PatternBuilder::new(dimension as usize).unwrap();
        for index in 0..dimension {
            builder
                .request(UnknownIndex::new(index), UnknownIndex::new(index))
                .unwrap();
        }
        builder.finish().unwrap()
    };

    assert!(System::new(diagonal(92_682)).is_ok());
    assert_eq!(
        System::new(diagonal(92_683)).err(),
        Some(MnaError::IndexOverflow)
    );
}

#[test]
fn slots_are_ranks_column_by_column() {
    let entries = [(3, 1), (0, 2), (2, 1), (1, 0), (0, 0), (3, 3)];
    let mut builder = PatternBuilder::new(4).unwrap();
    for (row, column) in entries {
        builder
            .request(UnknownIndex::new(row), UnknownIndex::new(column))
            .unwrap();
    }
    let pattern = builder.finish().unwrap();

    for (row, column) in entries {
        let rank = entries
            .iter()
            .filter(|&&(r, c)| c < column || (c == column && r < row))
            .count();
        let slot = pattern.slot(UnknownIndex::new(row), UnknownIndex::new(column));
        assert_eq!(slot.unwrap().index(), rank);
    }
}
