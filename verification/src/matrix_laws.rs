//! What holds of the operations that fill a matrix, and of what the solver refuses.

use crate::float_bits::float_eq;
use crate::matrix_program::{
    entries_needed, scales_for, summed, values_needed, MatrixAdd, MatrixGroup,
};
use crate::mna_system::{is_countable, FactorFailure, MnaError, SolverFailure};
use crate::pattern::{PatternBuilder, PatternError, UnknownIndex};
use vstd::prelude::*;

verus! {

/// Whether a pattern is one of the two zeros.
pub open spec fn is_zero(bits: u64) -> bool {
    bits == 0 || bits == 0x8000_0000_0000_0000
}

/// The scales for an entry and a value are those of all operations between them, in order, without
/// the zeros.
pub proof fn law_scales_of_an_entry_are_collected(ops: Seq<MatrixAdd>, key: (u32, u32))
    ensures
        scales_for(ops, key) == ops.filter(
            |op: MatrixAdd| op.key() == key && !is_zero(op.spec_scale()),
        ).map_values(|op: MatrixAdd| op.spec_scale()),
    decreases ops.len(),
{
    reveal(Seq::filter);
    let wanted = |op: MatrixAdd| op.key() == key && !is_zero(op.spec_scale());
    let scale = |op: MatrixAdd| op.spec_scale();
    if ops.len() > 0 {
        law_scales_of_an_entry_are_collected(ops.drop_last(), key);
        lemma_zero(ops.last().spec_scale());
        let rest = ops.drop_last().filter(wanted);
        assert(rest.push(ops.last()).map_values(scale) =~= rest.map_values(scale).push(
            ops.last().spec_scale(),
        ));
    }
    assert(scales_for(ops, key) =~= ops.filter(wanted).map_values(scale));
}

proof fn lemma_zero(bits: u64)
    ensures
        float_eq(bits, 0) == is_zero(bits),
{
    crate::number_laws::law_numbers_are_ordered_by_their_patterns(bits, 0);
}

/// A program adds the sum of every group once, in the order of the groups; sums that are zero are
/// left out.
pub proof fn law_programs_add_every_sum_once(
    groups: Seq<MatrixGroup>,
    sums: Seq<u64>,
    count: int,
)
    requires
        0 <= count <= groups.len() == sums.len(),
    ensures
        summed(groups, sums, count) == Seq::new(
            count as nat,
            |i: int| (groups[i].key(), sums[i]),
        ).filter(|op: ((u32, u32), u64)| !is_zero(op.1)),
    decreases count,
{
    reveal(Seq::filter);
    let pair = |i: int| (groups[i].key(), sums[i]);
    let all = Seq::new(count as nat, pair);
    if count > 0 {
        law_programs_add_every_sum_once(groups, sums, count - 1);
        lemma_zero(sums[count - 1]);
        assert(all.drop_last() =~= Seq::new((count - 1) as nat, pair));
    }
}

/// Operations need exactly as many values and entries as the furthest one that they touch.
pub proof fn law_operations_need_no_more_than_they_touch(ops: Seq<MatrixAdd>)
    ensures
        ops.len() == 0 ==> values_needed(ops) == 0 && entries_needed(ops) == 0,
        forall|i: int|
            0 <= i < ops.len() ==> (#[trigger] ops[i]).spec_source().value() < values_needed(ops)
                && ops[i].spec_destination().value() < entries_needed(ops),
        ops.len() > 0 ==> exists|i: int|
            0 <= i < ops.len() && (#[trigger] ops[i]).spec_source().value() + 1 == values_needed(
                ops,
            ),
        ops.len() > 0 ==> exists|i: int|
            0 <= i < ops.len() && (#[trigger] ops[i]).spec_destination().value() + 1
                == entries_needed(ops),
    decreases ops.len(),
{
    if ops.len() > 0 {
        let init = ops.drop_last();
        law_operations_need_no_more_than_they_touch(init);
        assert forall|i: int| 0 <= i < ops.len() implies (#[trigger] ops[i]).spec_source().value()
            < values_needed(ops) && ops[i].spec_destination().value() < entries_needed(ops) by {
            if i < init.len() {
                assert(init[i] == ops[i]);
            }
        }
        let last = ops.len() - 1;
        if values_needed(ops) == ops[last].spec_source().value() + 1 {
        } else {
            let i = choose|i: int|
                0 <= i < init.len() && (#[trigger] init[i]).spec_source().value() + 1
                    == values_needed(init);
            assert(ops[i] == init[i]);
        }
        if entries_needed(ops) == ops[last].spec_destination().value() + 1 {
        } else {
            let i = choose|i: int|
                0 <= i < init.len() && (#[trigger] init[i]).spec_destination().value() + 1
                    == entries_needed(init);
            assert(ops[i] == init[i]);
        }
    }
}

/// An entry can be requested exactly if both of its unknowns are in the system; the row is reported
/// first.
pub proof fn law_entries_lie_within_the_system(
    builder: PatternBuilder,
    row: UnknownIndex,
    column: UnknownIndex,
)
    requires
        builder.wf(),
    ensures
        ({
            let inside = |index: UnknownIndex| index.value() < builder.spec_dimension();
            match builder.request_refusal(row, column) {
                None => inside(row) && inside(column),
                Some(PatternError::IndexOutOfBounds { index, dimension }) => {
                    &&& !inside(index)
                    &&& dimension == builder.spec_dimension()
                    &&& index == if inside(row) {
                        column
                    } else {
                        row
                    }
                },
                Some(_) => false,
            }
        }),
{
}

/// A singular system is reported with the place where that was found, and only a singular one is
/// reported as such. What the solver cannot count or has no memory for is told apart from any other
/// failure.
pub proof fn law_failures_of_the_solver_keep_their_meaning(
    failure: FactorFailure,
    solver: SolverFailure,
    place: usize,
)
    ensures
        MnaError::of_factor(failure) == (MnaError::Singular { index: place }) <==> failure == (
        FactorFailure::SymbolicSingular { index: place }),
        failure == FactorFailure::Generic(solver) ==> MnaError::of_factor(failure)
            == MnaError::of_solver(solver),
        MnaError::of_solver(solver) == MnaError::IndexOverflow <==> solver
            == SolverFailure::IndexOverflow,
        MnaError::of_solver(solver) == MnaError::OutOfMemory <==> solver
            == SolverFailure::OutOfMemory,
        MnaError::of_solver(solver) == MnaError::BackendFailure <==> solver
            == SolverFailure::Other,
{
}

/// What the solver can count, it can count of every smaller system. It can count systems of up to
/// 65,535 unknowns and nine hundred million entries on every machine, and none of more than 92,682
/// unknowns or with more than 2^30 entries.
pub proof fn law_smaller_systems_can_be_counted(
    dimension: int,
    nnz: int,
    smaller: int,
    fewer: int,
)
    requires
        0 <= smaller <= dimension,
        0 <= fewer <= nnz,
    ensures
        is_countable(dimension, nnz) ==> is_countable(smaller, fewer),
        dimension <= 65_535 && nnz <= 900_000_000 ==> is_countable(dimension, nnz),
        dimension > 92_682 || nnz > 0x4000_0000 ==> !is_countable(dimension, nnz),
{
    assert(smaller * (smaller - 1) <= dimension * (dimension - 1)) by (nonlinear_arith)
        requires
            0 <= smaller <= dimension,
    ;
    assert(smaller * (smaller + 1) <= dimension * (dimension + 1)) by (nonlinear_arith)
        requires
            0 <= smaller <= dimension,
    ;
    if dimension <= 65_535 {
        assert(dimension * (dimension + 1) <= 65_535 * 65_536) by (nonlinear_arith)
            requires
                0 <= dimension <= 65_535,
        ;
        assert(dimension * (dimension - 1) <= 65_535 * 65_536) by (nonlinear_arith)
            requires
                0 <= dimension <= 65_535,
        ;
    }
    if dimension > 92_682 {
        assert(dimension * (dimension - 1) >= 92_683 * 92_682) by (nonlinear_arith)
            requires
                dimension > 92_682,
        ;
    }
}

} // verus!
