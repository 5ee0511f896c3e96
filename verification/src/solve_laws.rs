//! When an island is solved how often, and what following its drivers does.

use crate::bindings::IslandRuntimeError;
use crate::discrete::{
    all_usable, driven, inputs_of, matrix_barrier_changed, output_changed, rhs_barrier_changed,
    ClosureOutcome, CompiledDiscretePlan, ComplementaryDriver, DriverPrediction,
};
use crate::float_bits::{float_eq, is_finite};
use crate::solve_control::{
    answered, answers, control_after, first_action, law_solves_are_bounded, next_control,
    solve_count, SolveAction, SolveControl, SolveEvent, SolveStart,
};
use vstd::prelude::*;

verus! {

/// How solving begins. An island is solved once, without being evaluated first, exactly if nothing
/// depends on its solution; its last solution is taken up where it left off only if it can be; and
/// latches are advanced from the start exactly if there are no drivers to follow.
pub proof fn law_how_solving_begins(start: SolveStart)
    ensures
        first_action(start) is SolveLinear <==> !start.nonlinear,
        first_action(start) is IterateFirst <==> start.nonlinear && !start.discrete,
        first_action(start) is EvaluateAndVerify <==> start.nonlinear && start.discrete
            && !start.resumable,
        first_action(start) is Evaluate <==> start.nonlinear && start.discrete && start.resumable,
{
}

/// What follows a solve: one that was stable ends the tick, and so does that of an island where
/// nothing depends on the solution. Otherwise the island is solved again in the way it was, up to
/// 128 times, and then the tick fails.
pub proof fn law_unstable_solves_are_repeated(control: SolveControl, converged: bool)
    requires
        control.wf(),
        answers(control.action, SolveEvent::Solved { converged }),
    ensures
        ({
            let next = next_control(control, SolveEvent::Solved { converged });
            &&& next.iterations_used == control.iterations_used + 1
            &&& next.action is Finish <==> converged || control.action is SolveLinear
            &&& !converged && !(control.action is SolveLinear) ==> if control.iterations_used + 1
                == 128 {
                next.action == SolveAction::Fail(
                    IslandRuntimeError::NonlinearDidNotConverge { iterations: 128 },
                )
            } else {
                &&& next.action is Iterate <==> control.action is IterateFirst
                    || control.action is Iterate
                &&& next.action is Evaluate <==> control.action is Verify
                    || control.action is EvaluateAndVerify
            }
        }),
{
}

/// What follows an evaluation: drivers are followed exactly if something that has to be stable
/// changed. Where they settle or meet a barrier, the island is solved with what came of it; where
/// they cannot be followed, it is solved as if there were none. None of this counts as a solve.
pub proof fn law_drivers_are_followed_between_solves(
    control: SolveControl,
    stable: bool,
    outcome: ClosureOutcome,
)
    ensures
        ({
            let next = next_control(control, SolveEvent::Evaluated { stable });
            &&& next.iterations_used == control.iterations_used
            &&& stable ==> next.action is Verify
            &&& !stable ==> next.action is FollowDrivers
        }),
        ({
            let next = next_control(control, SolveEvent::Followed(outcome));
            &&& next.iterations_used == control.iterations_used
            &&& outcome is Settled || outcome is Barrier ==> next.action is Verify
            &&& outcome is BudgetExceeded || outcome is InvalidPrediction
                ==> next.action is IterateFirst
        }),
{
}

/// Whatever comes of the actions, an island is solved 128 times at most.
pub proof fn law_islands_are_solved_at_most_128_times(start: SolveStart, events: Seq<SolveEvent>)
    requires
        answered(start, events),
    ensures
        solve_count(events) <= 128,
        control_after(start, events).action is Fail ==> solve_count(events) == 128,
{
    law_solves_are_bounded(start, events);
}

/// Whether each driver has an output of its own among the unknowns.
pub open spec fn outputs_apart(plan: CompiledDiscretePlan, dimension: int) -> bool {
    &&& forall|k: int|
        0 <= k < plan.drivers@.len() ==> (#[trigger] plan.drivers@[k]).output.value() < dimension
    &&& forall|k: int, l: int|
        0 <= k < l < plan.drivers@.len() ==> (#[trigger] plan.drivers@[k]).output.value() != (
        #[trigger] plan.drivers@[l]).output.value()
}

proof fn lemma_driven(
    plan: CompiledDiscretePlan,
    predicted: Seq<u64>,
    predictions: Seq<DriverPrediction>,
    count: int,
)
    requires
        0 <= count <= plan.drivers@.len(),
        outputs_apart(plan, predicted.len() as int),
    ensures
        ({
            let next = driven(plan, predicted, predictions, count);
            &&& next.len() == predicted.len()
            &&& forall|k: int|
                0 <= k < count ==> next[(#[trigger] plan.drivers@[k]).output.value() as int]
                    == predictions[k].output
            &&& forall|u: int|
                0 <= u < predicted.len() && (forall|k: int|
                    0 <= k < count ==> (#[trigger] plan.drivers@[k]).output.value() != u)
                    ==> #[trigger] next[u] == predicted[u]
        }),
        output_changed(plan, predicted, predictions, count) <==> exists|k: int|
            0 <= k < count && !float_eq(
                predicted[(#[trigger] plan.drivers@[k]).output.value() as int],
                predictions[k].output,
            ),
    decreases count,
{
    if count > 0 {
        let last = count - 1;
        lemma_driven(plan, predicted, predictions, last);
        let before = driven(plan, predicted, predictions, last);
        let next = driven(plan, predicted, predictions, count);
        let output = plan.drivers@[last].output.value() as int;
        assert(before[output] == predicted[output]) by {
            assert forall|k: int| 0 <= k < last implies (
            #[trigger] plan.drivers@[k]).output.value() != output by {
                assert(plan.drivers@[k].output.value() != plan.drivers@[last].output.value());
            }
        }
        assert forall|k: int| 0 <= k < count implies next[(
        #[trigger] plan.drivers@[k]).output.value() as int] == predictions[k].output by {
            if k < last {
                assert(plan.drivers@[k].output.value() != plan.drivers@[last].output.value());
            }
        }
        assert forall|u: int|
            0 <= u < predicted.len() && (forall|k: int|
                0 <= k < count ==> (#[trigger] plan.drivers@[k]).output.value() != u) implies
            #[trigger] next[u] == predicted[u] by {
            assert(plan.drivers@[last].output.value() != u);
            assert(before[u] == predicted[u]);
        }
    }
}

/// A round of following the drivers puts every output in the place of its unknown, and changes no
/// other unknown. Something changed exactly if an output differs from what its unknown was.
pub proof fn law_outputs_take_the_place_of_their_unknowns(
    plan: CompiledDiscretePlan,
    predicted: Seq<u64>,
    predictions: Seq<DriverPrediction>,
)
    requires
        outputs_apart(plan, predicted.len() as int),
    ensures
        ({
            let count = plan.drivers@.len() as int;
            let next = driven(plan, predicted, predictions, count);
            &&& next.len() == predicted.len()
            &&& forall|k: int|
                0 <= k < count ==> next[(#[trigger] plan.drivers@[k]).output.value() as int]
                    == predictions[k].output
            &&& forall|u: int|
                0 <= u < predicted.len() && (forall|k: int|
                    0 <= k < count ==> (#[trigger] plan.drivers@[k]).output.value() != u)
                    ==> #[trigger] next[u] == predicted[u]
            &&& output_changed(plan, predicted, predictions, count) <==> exists|k: int|
                0 <= k < count && !float_eq(
                    predicted[(#[trigger] plan.drivers@[k]).output.value() as int],
                    predictions[k].output,
                )
        }),
{
    lemma_driven(plan, predicted, predictions, plan.drivers@.len() as int);
}

/// A driver pulls its output between the voltages of its rails: the high one and the low one, zero
/// where a rail is no unknown, as strongly as its two values say.
pub proof fn law_drivers_pull_between_their_rails(
    driver: ComplementaryDriver,
    values: Seq<u64>,
    solution: Seq<u64>,
)
    ensures
        ({
            let inputs = inputs_of(driver, values, solution);
            &&& inputs.pull_up == values[driver.pull_up.value() as int]
            &&& inputs.pull_down == values[driver.pull_down.value() as int]
            &&& driver.high_rail is None ==> inputs.high == 0
            &&& driver.low_rail is None ==> inputs.low == 0
            &&& driver.high_rail matches Some(rail) ==> inputs.high
                == solution[rail.value() as int]
            &&& driver.low_rail matches Some(rail) ==> inputs.low == solution[rail.value() as int]
        }),
{
}

/// Outputs are used exactly if each comes from finite numbers, by a division by a finite number that
/// is not zero, and is finite itself.
pub proof fn law_only_finite_outputs_are_used(
    plan: CompiledDiscretePlan,
    values: Seq<u64>,
    predicted: Seq<u64>,
    predictions: Seq<DriverPrediction>,
)
    ensures
        all_usable(plan, values, predicted, predictions) <==> forall|k: int|
            0 <= k < plan.drivers@.len() ==> {
                let inputs = inputs_of(#[trigger] plan.drivers@[k], values, predicted);
                let denominator = predictions[k].denominator;
                &&& is_finite(inputs.pull_up) && is_finite(inputs.pull_down)
                &&& is_finite(inputs.high) && is_finite(inputs.low)
                &&& is_finite(denominator)
                &&& denominator != 0 && denominator != 0x8000_0000_0000_0000
                &&& is_finite(predictions[k].output)
            },
{
    assert forall|k: int| 0 <= k < plan.drivers@.len() implies (crate::discrete::usable(
        inputs_of(#[trigger] plan.drivers@[k], values, predicted),
        predictions[k],
    ) <==> {
        let inputs = inputs_of(plan.drivers@[k], values, predicted);
        let denominator = predictions[k].denominator;
        &&& is_finite(inputs.pull_up) && is_finite(inputs.pull_down)
        &&& is_finite(inputs.high) && is_finite(inputs.low)
        &&& is_finite(denominator)
        &&& denominator != 0 && denominator != 0x8000_0000_0000_0000
        &&& is_finite(predictions[k].output)
    }) by {}
}

/// A barrier is met exactly if one of the values that the matrix was factorized with, or that the
/// right-hand side was made of, is no longer the same number.
pub proof fn law_barriers_are_changed_values(
    plan: CompiledDiscretePlan,
    values: Seq<u64>,
    factorized: Seq<u64>,
    reference: Seq<u64>,
)
    ensures
        !matrix_barrier_changed(plan, values, factorized) <==> forall|k: int|
            0 <= k < plan.matrix_barriers@.len() ==> float_eq(
                values[(#[trigger] plan.matrix_barriers@[k]).source.value() as int],
                factorized[plan.matrix_barriers@[k].factorized_source_index as int],
            ),
        !rhs_barrier_changed(plan, values, reference) <==> forall|k: int|
            0 <= k < plan.rhs_barriers@.len() ==> float_eq(
                values[(#[trigger] plan.rhs_barriers@[k]).value() as int],
                reference[k],
            ),
{
}

} // verus!
