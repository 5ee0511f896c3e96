//! What single steps of a tick come to.

use crate::bindings::IslandRuntimeError;
use crate::discrete::{all_usable, CompiledDiscretePlan};
use crate::float_bits::float_eq;
use crate::island_runtime::{all_equal, values_at, Buffer, IslandRuntime};
use crate::island_tick::{
    after, begun, compared, computed, evaluated, followed, is_tick, resumed, round, rounded,
    IslandShape, IslandState, IslandTick, Reply, Request, Stage, TickModel,
};
use crate::matrix_program::ValueSlot;
use crate::network::Network;
use crate::runtime_laws::{
    bound_value, has_value, law_loading_reports_exactly_what_changed, slots_apart,
};
use crate::solve_laws::{
    law_barriers_are_changed_values, law_outputs_take_the_place_of_their_unknowns, outputs_apart,
};
use vstd::prelude::*;

verus! {

/// Whether the values in some slots are equal to the numbers on a list.
pub open spec fn holds(noted: Seq<u64>, values: Seq<u64>, slots: Seq<ValueSlot>) -> bool {
    &&& noted.len() == slots.len()
    &&& forall|i: int|
        0 <= i < slots.len() ==> float_eq(
            noted[i],
            values[(#[trigger] slots[i]).value() as int],
        )
}

proof fn lemma_holds(noted: Seq<u64>, values: Seq<u64>, slots: Seq<ValueSlot>)
    ensures
        all_equal(noted, values_at(values, slots)) == holds(noted, values, slots),
{
    let now = values_at(values, slots);
    if all_equal(noted, now) {
        assert forall|i: int| 0 <= i < slots.len() implies float_eq(
            noted[i],
            values[(#[trigger] slots[i]).value() as int],
        ) by {
            assert(float_eq(noted[i], now[i]));
        }
    }
    if holds(noted, values, slots) {
        assert forall|i: int| 0 <= i < noted.len() implies float_eq(#[trigger] noted[i], now[i]) by {
            assert(float_eq(noted[i], values[slots[i].value() as int]));
        }
    }
}

/// An island that nothing has happened to sleeps through a tick and is left as it is. Else it has no
/// valid solution until it is solved. Its static values are computed when it is first solved, and
/// else only if a parameter has changed; its matrix is stamped anew when it is first solved, if it
/// had to be before, or if a parameter changed that it depends on. A tick fails here exactly if the
/// parameters are looked at and one of them has no value.
pub proof fn law_ticks_begin_with_what_changed<F>(
    before: IslandRuntime<F>,
    after: IslandRuntime<F>,
    network: Network,
    tick: IslandTick,
    request: Request,
)
    requires
        tick.began(before, after, network, request),
        slots_apart(before.bindings.spec_parameters(), before.workspace@.len() as int),
    ensures
        ({
            let bindings = before.bindings.spec_parameters();
            let sleeps = before.sleepable && !before.needs_solve;
            let look = before.static_inputs_dirty;
            let complete = forall|i: int|
                0 <= i < bindings.len() ==> has_value(network, #[trigger] bindings[i]);
            let changed = look && exists|i: int|
                0 <= i < bindings.len() && !float_eq(
                    before.workspace@[(#[trigger] bindings[i]).input.spec_value() as int],
                    bound_value(network, bindings[i]),
                );
            let restamp = look && exists|i: int|
                0 <= i < bindings.len() && before.plan.matrix_inputs@[(
                #[trigger] bindings[i]).input.spec_value() as int] && !float_eq(
                    before.workspace@[bindings[i].input.spec_value() as int],
                    bound_value(network, bindings[i]),
                );
            &&& request is Slept <==> sleeps
            &&& sleeps ==> after == before
            &&& !sleeps ==> {
                &&& !after.solution_valid
                &&& tick.had_solution == before.solution_valid
                &&& after.solution@ == before.solution@
                &&& request is Failed <==> look && !complete
                &&& request is Failed ==> after.static_inputs_dirty
                &&& !(request is Failed) ==> {
                    &&& request is ComputeStatic <==> !before.static_initialized || changed
                    &&& request is ComputeTick <==> before.static_initialized && !changed
                    &&& after.matrix_dirty <==> before.matrix_dirty || !before.static_initialized
                        || restamp
                    &&& !after.static_inputs_dirty
                    &&& after.static_initialized
                    &&& !look ==> after.workspace@ == before.workspace@
                    &&& look ==> forall|i: int|
                        0 <= i < bindings.len() ==> {
                            let slot = (#[trigger] bindings[i]).input.spec_value() as int;
                            ||| after.workspace@[slot] == bound_value(network, bindings[i])
                            ||| after.workspace@[slot] == before.workspace@[slot] && float_eq(
                                before.workspace@[slot],
                                bound_value(network, bindings[i]),
                            )
                        }
                }
            }
        }),
{
    law_loading_reports_exactly_what_changed(
        network,
        before.bindings.spec_parameters(),
        before.plan.matrix_inputs@,
        before.workspace@,
    );
    assert(after.state().values == after.workspace@);
    assert(before.state().values == before.workspace@);
    assert(after.state().solution == after.solution@);
    assert(before.state().solution == before.solution@);
    assert(after.state().matrix_dirty == after.matrix_dirty);
    assert(before.state().matrix_dirty == before.matrix_dirty);
    assert(after.state().static_inputs_dirty == after.static_inputs_dirty);
    assert(before.state().static_inputs_dirty == before.static_inputs_dirty);
    assert(after.state().static_initialized == after.static_initialized);
    assert(after.state().solution_valid == after.solution_valid);
}

/// Once two solutions have been compared, the tick is finished exactly if everything that has to be
/// stable is as it was noted, and the two are close; where drivers are followed it is enough that
/// the matrix and the right-hand side would be the same. Then the new solution is the island's.
/// Else the island is solved again, unless that was the 128th time, which fails the tick.
pub proof fn law_stable_solutions_end_the_tick<F>(
    shape: IslandShape,
    state: IslandState<F>,
    tick: TickModel,
    close: bool,
)
    requires
        is_tick(shape, tick),
        tick.stage is Comparing,
    ensures
        ({
            let next = resumed(shape, state, tick, Reply::Close(close));
            let action = tick.control.action;
            let iterated = action is IterateFirst || action is Iterate;
            let stable = holds(
                state.stability,
                state.values,
                shape.plan.iteration_stability_values@,
            );
            let exact = holds(
                state.factorized_sources,
                state.values,
                shape.plan.iteration_matrix_sources@,
            ) && state.rhs_reference_valid && shape.discrete is Some && holds(
                state.rhs_reference,
                state.values,
                shape.discrete->Some_0.rhs_barriers@,
            );
            let solved = if action is IterateFirst {
                state.current
            } else {
                state.next
            };
            let ends = stable && (close || (!iterated && exact));
            let last = tick.control.iterations_used + 1 == 128;
            &&& next.request is Finished <==> ends
            &&& ends ==> {
                &&& next.state.solution == solved
                &&& next.state.solution_valid
                &&& next.state.observer_outputs_dirty
                &&& next.state.needs_solve == (state.needs_solve && !shape.sleepable)
                &&& next.state.values == state.values
            }
            &&& !ends && last ==> next.request == Request::Failed(
                IslandRuntimeError::NonlinearDidNotConverge { iterations: 128 },
            )
            &&& !ends && iterated ==> {
                &&& next.state.solution == state.solution
                &&& next.state.current == solved
                &&& next.state.solution_valid == state.solution_valid
            }
            &&& !ends && !iterated ==> {
                &&& next.state.solution == solved
                &&& next.state.solution_valid == state.solution_valid
            }
            &&& !ends && !iterated && !last ==> next.request is ComputeIteration
            &&& !ends && iterated && !last ==> next.request is StampMatrix || next.request is Solve
                || next.request is Failed
        }),
{
    reveal(compared);
    reveal(after);
    reveal(begun);
    lemma_holds(state.stability, state.values, shape.plan.iteration_stability_values@);
    lemma_holds(state.factorized_sources, state.values, shape.plan.iteration_matrix_sources@);
    if let Some(plan) = shape.discrete {
        lemma_holds(state.rhs_reference, state.values, plan.rhs_barriers@);
    }
}

/// When the island is about to be solved with the values of a solution, its matrix is stamped
/// exactly if it has to be anyway, or if it was factorized with other values than those that it is
/// now solved with. Else the island is solved at once.
pub proof fn law_matrices_are_stamped_only_where_they_changed<F>(
    shape: IslandShape,
    state: IslandState<F>,
    tick: TickModel,
    reply: Reply<F>,
)
    requires
        is_tick(shape, tick),
        tick.stage matches Stage::Evaluating { solved, .. } && !solved,
        tick.control.action is IterateFirst || tick.control.action is EvaluateAndVerify,
        reply is Values,
        state.factorized_sources.len() == shape.plan.iteration_matrix_sources@.len(),
    ensures
        ({
            let next = resumed(shape, state, tick, reply);
            let usable = shape.dimension == 0 || state.numeric is Some;
            let same = holds(
                state.factorized_sources,
                next.state.values,
                shape.plan.iteration_matrix_sources@,
            );
            &&& next.request is StampMatrix <==> state.matrix_dirty || (usable && !same)
            &&& next.request is Solve <==> !state.matrix_dirty && usable && same
            &&& tick.control.action is EvaluateAndVerify ==> next.state.values
                == reply->Values_0@
            &&& holds_numbers(
                next.state.stability,
                reply->Values_0@,
                shape.plan.iteration_stability_values@,
            )
        }),
{
    reveal(computed);
    reveal(evaluated);
    let next = resumed(shape, state, tick, reply);
    lemma_holds(
        state.factorized_sources,
        next.state.values,
        shape.plan.iteration_matrix_sources@,
    );
}

/// Whether a list holds the values in some slots, as they are.
pub open spec fn holds_numbers(
    noted: Seq<u64>,
    values: Seq<u64>,
    slots: Seq<ValueSlot>,
) -> bool {
    &&& noted.len() == slots.len()
    &&& forall|i: int|
        0 <= i < slots.len() ==> noted[i] == values[(#[trigger] slots[i]).value() as int]
}

/// Where drivers are followed, outputs that can be used take the place of their unknowns. While one
/// of them changes, the island is evaluated with them, and a round fewer is left; then the solution
/// is verified. Outputs that cannot be used are not.
pub proof fn law_usable_outputs_are_evaluated<F>(
    shape: IslandShape,
    plan: CompiledDiscretePlan,
    state: IslandState<F>,
    tick: TickModel,
    reply: Reply<F>,
)
    requires
        shape.discrete == Some(plan),
        is_tick(shape, tick),
        tick.stage is Predicting,
        reply is Predictions,
        outputs_apart(plan, state.current.len() as int),
    ensures
        ({
            let next = resumed(shape, state, tick, reply);
            let predictions = reply->Predictions_0@;
            let usable = all_usable(
                plan,
                state.values,
                state.current,
                predictions,
            );
            let changed = exists|k: int|
                0 <= k < plan.drivers@.len() && !float_eq(
                    state.current[(#[trigger] plan.drivers@[k]).output.value() as int],
                    predictions[k].output,
                );
            &&& usable ==> forall|k: int|
                0 <= k < plan.drivers@.len() ==> next.state.current[(
                #[trigger] plan.drivers@[k]).output.value() as int] == predictions[k].output
            &&& usable && changed ==> {
                &&& next.request is ComputeIteration
                &&& next.tick.control.action is FollowDrivers
                &&& next.tick.rounds_left == tick.rounds_left - 1
                &&& next.tick.stage == (Stage::Evaluating { which: Buffer::Current, solved: false })
            }
            &&& usable && !changed ==> next.tick.control.action is Verify && !(
            next.request is ComputeIteration)
            &&& !usable ==> next.tick.control.action is IterateFirst && next.state.current
                == state.current
            &&& next.state.solution == state.solution
        }),
{
    reveal(rounded);
    reveal(followed);
    reveal(begun);
    let predictions = reply->Predictions_0@;
    law_outputs_take_the_place_of_their_unknowns(plan, state.current, predictions);
}

/// Drivers are followed only where they can be: a round begins with asking for their outputs exactly
/// if rounds are left and nothing has changed that the island was last solved with. Once there is
/// none left, the island is solved without them.
pub proof fn law_rounds_are_limited<F>(
    shape: IslandShape,
    plan: CompiledDiscretePlan,
    state: IslandState<F>,
    tick: TickModel,
    reply: Reply<F>,
)
    requires
        shape.discrete == Some(plan),
        is_tick(shape, tick),
        tick.stage matches Stage::Evaluating { solved, .. } && !solved,
        tick.control.action is FollowDrivers,
        reply is Values,
    ensures
        ({
            let next = resumed(shape, state, tick, reply);
            let values = reply->Values_0@;
            let undisturbed = (forall|k: int|
                0 <= k < plan.matrix_barriers@.len() ==> float_eq(
                    values[(#[trigger] plan.matrix_barriers@[k]).source.value() as int],
                    state.factorized_sources[plan.matrix_barriers@[k].factorized_source_index as int],
                )) && (forall|k: int|
                0 <= k < plan.rhs_barriers@.len() ==> float_eq(
                    values[(#[trigger] plan.rhs_barriers@[k]).value() as int],
                    state.rhs_reference[k],
                ));
            &&& next.request is Predict <==> tick.rounds_left > 0 && undisturbed
            &&& tick.rounds_left == 0 ==> next.tick.control.action is IterateFirst
            &&& tick.rounds_left > 0 && !undisturbed ==> next.tick.control.action is Verify
            &&& next.state.current == state.current
            &&& next.state.solution == state.solution
        }),
{
    reveal(computed);
    reveal(evaluated);
    reveal(round);
    reveal(followed);
    reveal(begun);
    law_barriers_are_changed_values(
        plan,
        reply->Values_0@,
        state.factorized_sources,
        state.rhs_reference,
    );
}

/// An island with drivers whose values are stable is verified at once. Else the drivers are followed
/// from its solution, for 128 rounds at most.
pub proof fn law_drivers_are_followed_from_the_solution<F>(
    shape: IslandShape,
    plan: CompiledDiscretePlan,
    state: IslandState<F>,
    tick: TickModel,
    reply: Reply<F>,
)
    requires
        shape.discrete == Some(plan),
        is_tick(shape, tick),
        tick.stage matches Stage::Evaluating { solved, .. } && !solved,
        tick.control.action is Evaluate,
        reply is Values,
    ensures
        ({
            let next = resumed(shape, state, tick, reply);
            let stable = holds(
                state.stability,
                reply->Values_0@,
                shape.plan.iteration_stability_values@,
            );
            &&& stable ==> next.tick.control.action is Verify && next.state.current
                == state.current
            &&& !stable ==> next.state.current == state.solution
            &&& next.request is Predict ==> !stable && next.tick.rounds_left
                == 128
            &&& next.state.solution == state.solution
        }),
{
    reveal(computed);
    reveal(evaluated);
    reveal(after);
    reveal(round);
    reveal(followed);
    reveal(begun);
    lemma_holds(state.stability, reply->Values_0@, shape.plan.iteration_stability_values@);
}

/// A new island starts from zeros, but for the length of a tick, which is in its place from the
/// start. It has no valid solution and nothing to tell observers, and its first tick looks at all
/// parameters, computes all values and stamps the matrix. Later ticks may be slept through exactly
/// if the island reads neither the length of a tick nor a state, and writes none.
pub proof fn law_new_islands_start_from_zeros<F>(
    island: IslandRuntime<F>,
    after: IslandRuntime<F>,
    timestep: u64,
    network: Network,
    tick: IslandTick,
    request: Request,
)
    requires
        island.is_fresh(timestep),
        tick.began(island, after, network, request),
        slots_apart(island.bindings.spec_parameters(), island.workspace@.len() as int),
    ensures
        ({
            let plan = island.plan;
            let bindings = island.bindings.spec_parameters();
            &&& forall|s: int|
                0 <= s < island.workspace@.len() ==> #[trigger] island.workspace@[s] == (
                if plan.timestep_input is Some && plan.timestep_input->Some_0.spec_value() == s {
                    timestep
                } else {
                    0u64
                })
            &&& forall|u: int|
                0 <= u < island.solution@.len() ==> #[trigger] island.solution@[u] == 0
            &&& island.solution@.len() == island.dimension()
            &&& !island.solution_valid
            &&& !island.observer_outputs_dirty
            &&& request is ComputeStatic || request is Failed
            &&& request is ComputeStatic <==> forall|i: int|
                0 <= i < bindings.len() ==> has_value(network, #[trigger] bindings[i])
            &&& after.matrix_dirty
            &&& !after.solution_valid
            &&& island.sleepable <==> plan.timestep_input is None && plan.state_inputs@.len() == 0
                && plan.state_writes@.len() == 0
        }),
{
    law_ticks_begin_with_what_changed(island, after, network, tick, request);
    assert(after.state().matrix_dirty == after.matrix_dirty);
    assert(island.state().matrix_dirty == island.matrix_dirty);
}

} // verus!
