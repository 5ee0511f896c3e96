//! What a tick of an island comes to, told from what is asked of the caller and what the caller
//! answers.

use crate::discrete::{ClosureOutcome, CompiledDiscretePlan, DISCRETE_CLOSURE_MAX_ROUNDS};
use crate::float_bits::{float_eq, is_finite};
use crate::island_runtime::{all_equal, latched, values_at, Buffer};
use crate::island_tick::{
    after, begun, compared, computed, evaluated, factored, followed, is_answer, is_tick, resumed,
    round, rounded, solved_to, stamped, started, IslandShape, IslandState, Progress, Reply, Request,
    Stage, TickModel,
};
use crate::runtime_laws::{
    inputs_apart, latches_apart, law_inputs_hold_the_solution,
    law_latches_take_what_was_computed_for_them, no_latch,
};
use crate::solve_control::{
    answers, first_action, next_control, SolveAction, SolveControl, SolveEvent, SolveStart,
};
use vstd::prelude::*;

verus! {

/// What has happened in a tick so far.
pub struct TickHistory {
    /// The values that the last evaluation of the island gave.
    pub evaluated: Seq<u64>,
    /// What the island was last solved to; before that, the solution that the tick began with.
    pub solved: Seq<u64>,
    /// What it was solved to the time before.
    pub before: Seq<u64>,
    /// The values that the evaluation before the last solve gave.
    pub from: Seq<u64>,
    /// The values of the island when a solve was last asked for.
    pub asked: Seq<u64>,
    /// Whether the last two solutions that were compared are close.
    pub close: bool,
}

/// The history once a request has been made.
pub open spec fn noted<F>(history: TickHistory, progress: Progress<F>) -> TickHistory {
    if progress.request is Solve {
        TickHistory { asked: progress.state.values, ..history }
    } else {
        history
    }
}

/// The history once a request has been answered.
pub open spec fn replied<F>(history: TickHistory, request: Request, reply: Reply<F>) -> TickHistory {
    match (request, reply) {
        (Request::ComputeIteration, Reply::Values(values)) => TickHistory {
            evaluated: values@,
            ..history
        },
        (Request::Solve, Reply::Solution(solution)) => TickHistory {
            before: history.solved,
            solved: solution@,
            from: history.evaluated,
            ..history
        },
        (Request::Compare { .. }, Reply::Close(close)) => TickHistory { close, ..history },
        _ => history,
    }
}

/// Where a tick stands after some replies, and what has happened.
pub open spec fn ran<F>(
    shape: IslandShape,
    start: Progress<F>,
    history: TickHistory,
    replies: Seq<Reply<F>>,
) -> (Progress<F>, TickHistory)
    decreases replies.len(),
{
    if replies.len() == 0 {
        (start, history)
    } else {
        let (progress, known) = ran(shape, start, history, replies.drop_last());
        let next = resumed(shape, progress.state, progress.tick, replies.last());
        (next, noted(replied(known, progress.request, replies.last()), next))
    }
}

/// Whether each reply answers what was asked.
pub open spec fn all_answered<F>(
    shape: IslandShape,
    start: Progress<F>,
    history: TickHistory,
    replies: Seq<Reply<F>>,
) -> bool
    decreases replies.len(),
{
    if replies.len() == 0 {
        true
    } else {
        &&& all_answered(shape, start, history, replies.drop_last())
        &&& is_answer(
            ran(shape, start, history, replies.drop_last()).0.tick.stage,
            replies.last(),
        )
    }
}

/// Where the island is solved to.
spec fn target(action: SolveAction) -> Buffer {
    if action is IterateFirst {
        Buffer::Current
    } else {
        Buffer::Next
    }
}

/// Where what it was solved to before is kept.
spec fn previous(action: SolveAction) -> Buffer {
    if action is Iterate {
        Buffer::Current
    } else {
        Buffer::Solution
    }
}

/// Whether values are what an evaluation gave, with the latches advanced where they are.
spec fn prepared(
    shape: IslandShape,
    action: SolveAction,
    values: Seq<u64>,
    evaluated: Seq<u64>,
) -> bool {
    let latches = shape.plan.iteration_latches@;
    if action is IterateFirst || action is Iterate {
        values == latched(evaluated, latches, latches.len() as int, false)
    } else {
        values == evaluated
    }
}

spec fn improves(action: SolveAction) -> bool {
    action is IterateFirst || action is Iterate || action is Verify || action is EvaluateAndVerify
}

/// Whether the matrix is factorized with the values as they are.
pub open spec fn factorized_with<F>(shape: IslandShape, state: IslandState<F>) -> bool {
    let sources = shape.plan.iteration_matrix_sources@;
    &&& !state.matrix_dirty
    &&& shape.dimension == 0 || state.numeric is Some
    &&& forall|i: int|
        0 <= i < sources.len() ==> {
            let now = state.values[(#[trigger] sources[i]).value() as int];
            state.factorized_sources[i] == now || float_eq(state.factorized_sources[i], now)
        }
}

/// Whether nothing has changed that the island was last solved with.
pub open spec fn undisturbed<F>(plan: CompiledDiscretePlan, state: IslandState<F>) -> bool {
    &&& forall|k: int|
        0 <= k < plan.matrix_barriers@.len() ==> float_eq(
            state.values[(#[trigger] plan.matrix_barriers@[k]).source.value() as int],
            state.factorized_sources[plan.matrix_barriers@[k].factorized_source_index as int],
        )
    &&& forall|k: int|
        0 <= k < plan.rhs_barriers@.len() ==> float_eq(
            state.values[(#[trigger] plan.rhs_barriers@[k]).value() as int],
            state.rhs_reference[k],
        )
}

/// What holds of a tick and its history, where values depend on the solution.
spec fn keeps<F>(shape: IslandShape, progress: Progress<F>, history: TickHistory) -> bool {
    let state = progress.state;
    let action = progress.tick.control.action;
    let slots = shape.plan.iteration_stability_values@;
    &&& is_tick(shape, progress.tick)
    &&& shape.discrete is None ==> action is IterateFirst || action is Iterate || action is Finish
        || action is Fail
    &&& !(action is SolveLinear)
    &&& match progress.tick.stage {
        Stage::Evaluating { which, solved } => {
            &&& progress.request is ComputeIteration
            &&& if solved {
                &&& which == target(action)
                &&& improves(action)
                &&& state.buffer(which) == history.solved
                &&& state.buffer(previous(action)) == history.before
                &&& state.stability == values_at(history.from, slots)
                &&& prepared(shape, action, history.asked, history.from)
            } else {
                state.solution == history.solved
            }
        },
        Stage::Stamping(which) => {
            &&& progress.request is StampMatrix
            &&& which == target(action)
            &&& improves(action)
            &&& state.buffer(previous(action)) == history.solved
            &&& state.stability == values_at(history.evaluated, slots)
            &&& prepared(shape, action, state.values, history.evaluated)
        },
        Stage::Factorizing(which) => {
            &&& progress.request is Factorize
            &&& which == target(action)
            &&& improves(action)
            &&& state.buffer(previous(action)) == history.solved
            &&& state.stability == values_at(history.evaluated, slots)
            &&& prepared(shape, action, state.values, history.evaluated)
        },
        Stage::Solving(which) => {
            &&& progress.request is Solve
            &&& which == target(action)
            &&& improves(action)
            &&& state.buffer(previous(action)) == history.solved
            &&& state.stability == values_at(history.evaluated, slots)
            &&& prepared(shape, action, state.values, history.evaluated)
            &&& history.asked == state.values
            &&& factorized_with(shape, state)
        },
        Stage::Comparing => {
            &&& progress.request == Request::Compare {
                previous: previous(action),
                current: target(action),
            }
            &&& improves(action)
            &&& state.buffer(target(action)) == history.solved
            &&& state.buffer(previous(action)) == history.before
            &&& state.stability == values_at(history.from, slots)
            &&& prepared(shape, action, history.asked, history.from)
            &&& state.values == history.evaluated
        },
        Stage::Predicting => {
            &&& progress.request is Predict
            &&& state.solution == history.solved
            &&& state.values == history.evaluated
            &&& undisturbed(shape.discrete->Some_0, state)
        },
        Stage::Done => progress.request is Failed || {
            &&& progress.request is Finished
            &&& settled(shape, state, history)
            &&& state.observer_outputs_dirty
            &&& shape.sleepable ==> !state.needs_solve
        },
        _ => false,
    }
}

/// Whether the solution of an island is what it was last solved to, and is stable: what has to be
/// stable is the same before and after, and the solution is close to the one before, or what it was
/// solved from would be the same.
pub open spec fn settled<F>(
    shape: IslandShape,
    state: IslandState<F>,
    history: TickHistory,
) -> bool {
    let latches = shape.plan.iteration_latches@;
    &&& state.solution == history.solved
    &&& state.values == history.evaluated
    &&& state.solution_valid
    &&& all_equal(
        values_at(history.from, shape.plan.iteration_stability_values@),
        values_at(history.evaluated, shape.plan.iteration_stability_values@),
    )
    &&& history.close || {
        &&& shape.discrete is Some
        &&& all_equal(
            state.factorized_sources,
            values_at(history.evaluated, shape.plan.iteration_matrix_sources@),
        )
        &&& state.rhs_reference_valid
        &&& all_equal(
            state.rhs_reference,
            values_at(history.evaluated, shape.discrete->Some_0.rhs_barriers@),
        )
    }
    &&& shape.discrete is None ==> history.asked == latched(
        history.from,
        latches,
        latches.len() as int,
        false,
    )
}

/// What is begun keeps what holds.
proof fn lemma_begun_keeps<F>(
    shape: IslandShape,
    state: IslandState<F>,
    tick: TickModel,
    history: TickHistory,
)
    requires
        tick.control.wf(),
        tick.rounds_left <= DISCRETE_CLOSURE_MAX_ROUNDS,
        crate::island_tick::needs_drivers(tick.control.action) ==> shape.discrete is Some,
        shape.discrete is None ==> tick.control.action is IterateFirst
            || tick.control.action is Iterate || tick.control.action is Finish
            || tick.control.action is Fail,
        !(tick.control.action is SolveLinear),
        match tick.control.action {
            SolveAction::EvaluateAndVerify => state.solution == history.solved,
            SolveAction::Evaluate => state.solution == history.solved,
            SolveAction::IterateFirst => state.solution == history.solved,
            SolveAction::Verify => state.solution == history.solved && state.values
                == history.evaluated,
            SolveAction::Iterate => state.current == history.solved && state.values
                == history.evaluated,
            SolveAction::Finish => settled(shape, state, history),
            SolveAction::Fail(_) => true,
            _ => false,
        },
    ensures
        keeps(
            shape,
            begun(shape, state, tick),
            noted(history, begun(shape, state, tick)),
        ),
{
    reveal(begun);
    lemma_dirtied(
        shape,
        state.captured(shape),
    );
    lemma_dirtied(
        shape,
        state.captured(shape).with_latches(shape, false),
    );
}

/// Where the matrix is not marked for values that changed, it is factorized with the values as they
/// are.
proof fn lemma_dirtied<F>(shape: IslandShape, state: IslandState<F>)
    ensures
        ({
            let after = state.dirtied(shape);
            !after.matrix_dirty && after.factorized(shape) ==> factorized_with(
                shape,
                after.referenced(shape),
            )
        }),
{
    let after = state.dirtied(shape);
    let sources = shape.plan.iteration_matrix_sources@;
    if !after.matrix_dirty && after.factorized(shape) {
        assert forall|i: int| 0 <= i < sources.len() implies {
            let now = after.values[(#[trigger] sources[i]).value() as int];
            after.factorized_sources[i] == now || float_eq(after.factorized_sources[i], now)
        } by {
            let now = values_at(state.values, sources);
            assert(all_equal(state.factorized_sources, now));
            assert(now[i] == state.values[sources[i].value() as int]);
            assert(float_eq(state.factorized_sources[i], now[i]));
        }
    }
}

proof fn lemma_evaluating_keeps<F>(
    shape: IslandShape,
    state: IslandState<F>,
    tick: TickModel,
    which: Buffer,
    history: TickHistory,
)
    requires
        crate::island_tick::is_control(shape, tick),
        shape.discrete is Some,
        tick.control.action is FollowDrivers,
        state.solution == history.solved,
    ensures
        ({
            let next = crate::island_tick::evaluating(shape, state, tick, which, false);
            keeps(shape, next, noted(history, next))
        }),
{
}

proof fn lemma_followed_keeps<F>(
    shape: IslandShape,
    state: IslandState<F>,
    tick: TickModel,
    outcome: ClosureOutcome,
    history: TickHistory,
)
    requires
        crate::island_tick::is_control(shape, tick),
        shape.discrete is Some,
        tick.control.action is FollowDrivers,
        state.solution == history.solved,
        state.values == history.evaluated,
    ensures
        ({
            let next = followed(shape, state, tick, outcome);
            keeps(shape, next, noted(history, next))
        }),
{
    reveal(followed);
    lemma_begun_keeps(
        shape,
        state,
        TickModel { control: next_control(tick.control, SolveEvent::Followed(outcome)), ..tick },
        history,
    );
}

proof fn lemma_round_keeps<F>(
    shape: IslandShape,
    plan: CompiledDiscretePlan,
    state: IslandState<F>,
    tick: TickModel,
    history: TickHistory,
)
    requires
        crate::island_tick::is_control(shape, tick),
        shape.discrete == Some(plan),
        tick.control.action is FollowDrivers,
        state.solution == history.solved,
        state.values == history.evaluated,
    ensures
        ({
            let next = round(shape, plan, state, tick);
            keeps(shape, next, noted(history, next))
        }),
{
    reveal(round);
    lemma_followed_keeps(shape, state, tick, ClosureOutcome::BudgetExceeded, history);
    lemma_followed_keeps(shape, state, tick, ClosureOutcome::Barrier, history);
}

proof fn lemma_after_keeps<F>(
    shape: IslandShape,
    state: IslandState<F>,
    tick: TickModel,
    event: SolveEvent,
    history: TickHistory,
)
    requires
        crate::island_tick::is_control(shape, tick),
        answers(tick.control.action, event),
        !(event is Followed),
        !(tick.control.action is SolveLinear),
        shape.discrete is None ==> tick.control.action is IterateFirst
            || tick.control.action is Iterate,
        state.values == history.evaluated,
        event matches SolveEvent::Solved { converged } ==> if converged {
            settled(shape, state, history)
        } else if tick.control.action is IterateFirst || tick.control.action is Iterate {
            state.current == history.solved
        } else {
            state.solution == history.solved
        },
        event is Evaluated ==> state.solution == history.solved,
    ensures
        ({
            let next = after(shape, state, tick, event);
            keeps(shape, next, noted(history, next))
        }),
{
    reveal(after);
    let control = next_control(tick.control, event);
    let next = TickModel { control, ..tick };
    if control.action is FollowDrivers {
        lemma_round_keeps(
            shape,
            shape.discrete->Some_0,
            IslandState { current: state.solution, ..state },
            TickModel { rounds_left: DISCRETE_CLOSURE_MAX_ROUNDS as nat, ..next },
            history,
        );
    } else {
        lemma_begun_keeps(shape, state, next, history);
    }
}

proof fn lemma_resumed_keeps<F>(
    shape: IslandShape,
    progress: Progress<F>,
    history: TickHistory,
    reply: Reply<F>,
)
    requires
        keeps(shape, progress, history),
        is_answer(progress.tick.stage, reply),
    ensures
        ({
            let next = resumed(shape, progress.state, progress.tick, reply);
            keeps(shape, next, noted(replied(history, progress.request, reply), next))
        }),
{
    let state = progress.state;
    let tick = progress.tick;
    let known = replied(history, progress.request, reply);
    match (tick.stage, reply) {
        (Stage::Evaluating { which, solved }, Reply::Values(values)) => {
            reveal(computed);
            reveal(evaluated);
            let given = IslandState { values: values@, ..state };
            match tick.control.action {
                SolveAction::Evaluate => lemma_after_keeps(
                    shape,
                    given,
                    tick,
                    SolveEvent::Evaluated { stable: given.is_stable(shape) },
                    known,
                ),
                SolveAction::FollowDrivers => lemma_round_keeps(
                    shape,
                    shape.discrete->Some_0,
                    given,
                    tick,
                    known,
                ),
                _ => {
                    lemma_dirtied(shape, given.captured(shape));
                    lemma_dirtied(shape, given.captured(shape).with_latches(shape, false));
                },
            }
        },
        (Stage::Stamping(_), Reply::Matrix(_)) => {
            reveal(stamped);
        },
        (Stage::Factorizing(_), Reply::Factorization(_)) => {
            reveal(factored);
            let sources = shape.plan.iteration_matrix_sources@;
            assert forall|i: int| 0 <= i < sources.len() implies #[trigger] values_at(
                state.values,
                sources,
            )[i] == state.values[sources[i].value() as int] by {}
        },
        (Stage::Solving(_), Reply::Solution(_)) => {
            reveal(solved_to);
        },
        (Stage::Comparing, Reply::Close(close)) => {
            reveal(compared);
            lemma_compared_keeps(shape, progress, history, close);
        },
        (Stage::Predicting, Reply::Predictions(predictions)) => {
            reveal(rounded);
            let plan = shape.discrete->Some_0;
            let count = plan.drivers@.len() as int;
            let moved = IslandState {
                current: crate::discrete::driven(plan, state.current, predictions@, count),
                ..state
            };
            lemma_followed_keeps(shape, state, tick, ClosureOutcome::InvalidPrediction, known);
            lemma_followed_keeps(shape, moved, tick, ClosureOutcome::Settled, known);
            lemma_evaluating_keeps(
                shape,
                moved,
                TickModel { rounds_left: (tick.rounds_left - 1) as nat, ..tick },
                Buffer::Current,
                known,
            );
        },
        _ => {},
    }
}

proof fn lemma_compared_keeps<F>(
    shape: IslandShape,
    progress: Progress<F>,
    history: TickHistory,
    close: bool,
)
    requires
        keeps(shape, progress, history),
        progress.tick.stage is Comparing,
    ensures
        ({
            let next = compared(shape, progress.state, progress.tick, close);
            keeps(shape, next, noted(TickHistory { close, ..history }, next))
        }),
{
    reveal(compared);
    let state = progress.state;
    let tick = progress.tick;
    let known = TickHistory { close, ..history };
    let stable = state.is_stable(shape);
    let converged = close && stable;
    match tick.control.action {
        SolveAction::IterateFirst => lemma_after_keeps(
            shape,
            if converged {
                IslandState {
                    solution: state.current,
                    current: state.solution,
                    solution_valid: true,
                    ..state
                }
            } else {
                state
            },
            tick,
            SolveEvent::Solved { converged },
            known,
        ),
        SolveAction::Iterate => lemma_after_keeps(
            shape,
            if converged {
                IslandState {
                    solution: state.next,
                    next: state.solution,
                    solution_valid: true,
                    ..state
                }
            } else {
                IslandState { current: state.next, next: state.current, ..state }
            },
            tick,
            SolveEvent::Solved { converged },
            known,
        ),
        _ => {
            let exact = state.sources_match(shape) && state.rhs_matches(shape);
            let verified = stable && (exact || close);
            lemma_after_keeps(
                shape,
                IslandState {
                    solution: state.next,
                    next: state.solution,
                    solution_valid: state.solution_valid || verified,
                    ..state
                },
                tick,
                SolveEvent::Solved { converged: verified },
                known,
            );
        },
    }
}

proof fn lemma_started_keeps<F>(
    shape: IslandShape,
    progress: Progress<F>,
    history: TickHistory,
    reply: Reply<F>,
)
    requires
        is_tick(shape, progress.tick),
        progress.tick.stage is Tick,
        progress.request is ComputeTick,
        shape.plan.requires_nonlinear_iteration,
        progress.state.solution == history.solved,
        reply is Values,
    ensures
        ({
            let next = resumed(shape, progress.state, progress.tick, reply);
            keeps(shape, next, noted(replied(history, progress.request, reply), next))
        }),
{
    reveal(computed);
    reveal(started);
    let given = IslandState { values: reply->Values_0@, ..progress.state };
    let start = SolveStart {
        nonlinear: shape.plan.requires_nonlinear_iteration,
        discrete: shape.discrete is Some,
        resumable: progress.tick.had_solution && !given.matrix_dirty && given.factorized(shape)
            && given.rhs_reference_valid,
    };
    lemma_begun_keeps(
        shape,
        given.with_latches(shape, true),
        TickModel {
            control: SolveControl { action: first_action(start), iterations_used: 0 },
            ..progress.tick
        },
        history,
    );
}

proof fn lemma_ran<F>(
    shape: IslandShape,
    start: Progress<F>,
    history: TickHistory,
    replies: Seq<Reply<F>>,
)
    requires
        is_tick(shape, start.tick),
        start.tick.stage is Tick,
        start.request is ComputeTick,
        shape.plan.requires_nonlinear_iteration,
        start.state.solution == history.solved,
        all_answered(shape, start, history, replies),
    ensures
        replies.len() > 0 ==> keeps(
            shape,
            ran(shape, start, history, replies).0,
            ran(shape, start, history, replies).1,
        ),
    decreases replies.len(),
{
    if replies.len() > 0 {
        let init = replies.drop_last();
        lemma_ran(shape, start, history, init);
        let (progress, known) = ran(shape, start, history, init);
        if init.len() == 0 {
            lemma_started_keeps(shape, progress, known, replies.last());
        } else {
            lemma_resumed_keeps(shape, progress, known, replies.last());
        }
    }
}

/// A tick of an island whose values depend on the solution, whatever the caller answers:
///
/// - Where a solve is asked for, the matrix is factorized with the values as they are. Where there
///   are no drivers, every latch holds the update that the last evaluation computed for it, and all
///   other values are as that evaluation gave them.
/// - Drivers are followed only while nothing has changed that the island was last solved with.
/// - What is compared is the solution that the island was just solved to and the one before it.
/// - A tick finishes only with the solution that the island was last solved to, evaluated; where
///   nothing that has to be stable changed; and where that solution is close to the one before, or,
///   with drivers, would be solved from the same matrix and right-hand side. Without drivers every
///   latch input it was solved from held its update, not what the tick began with.
pub proof fn law_ticks_finish_with_stable_solutions<F>(
    shape: IslandShape,
    start: Progress<F>,
    history: TickHistory,
    replies: Seq<Reply<F>>,
)
    requires
        is_tick(shape, start.tick),
        start.tick.stage is Tick,
        start.request is ComputeTick,
        shape.plan.requires_nonlinear_iteration,
        start.state.solution == history.solved,
        all_answered(shape, start, history, replies),
        replies.len() > 0,
    ensures
        ({
            let (progress, known) = ran(shape, start, history, replies);
            let latches = shape.plan.iteration_latches@;
            let state = progress.state;
            &&& progress.request is Solve ==> {
                &&& factorized_with(shape, state)
                &&& known.asked == state.values
                &&& shape.discrete is None && latches_apart(
                    latches,
                    known.evaluated.len() as int,
                ) ==> {
                    &&& state.values.len() == known.evaluated.len()
                    &&& forall|i: int|
                        0 <= i < latches.len() ==> state.values[(
                        #[trigger] latches[i]).input.spec_value() as int]
                            == known.evaluated[latches[i].update.value() as int]
                    &&& forall|s: int|
                        0 <= s < state.values.len() && no_latch(latches, s)
                            ==> #[trigger] state.values[s] == known.evaluated[s]
                }
            }
            &&& progress.request matches Request::Compare { previous, current } ==> {
                &&& state.buffer(current) == known.solved
                &&& state.buffer(previous) == known.before
            }
            &&& progress.request is Predict ==> {
                &&& shape.discrete is Some
                &&& undisturbed(shape.discrete->Some_0, state)
                &&& state.values == known.evaluated
            }
            &&& progress.request is Finished ==> {
                &&& state.solution == known.solved
                &&& state.observer_outputs_dirty
                &&& shape.sleepable ==> !state.needs_solve
                &&& state.values == known.evaluated
                &&& state.solution_valid
                &&& forall|i: int|
                    0 <= i < shape.plan.iteration_stability_values@.len() ==> {
                        let slot = (
                        #[trigger] shape.plan.iteration_stability_values@[i]).value() as int;
                        float_eq(known.from[slot], known.evaluated[slot])
                    }
                &&& shape.discrete is None ==> known.close
                &&& shape.discrete is None && latches_apart(latches, known.from.len() as int)
                    ==> forall|i: int|
                    0 <= i < latches.len() ==> known.asked[(
                    #[trigger] latches[i]).input.spec_value() as int]
                        == known.from[latches[i].update.value() as int]
            }
        }),
{
    let (progress, known) = ran(shape, start, history, replies);
    let latches = shape.plan.iteration_latches@;
    let slots = shape.plan.iteration_stability_values@;
    lemma_ran(shape, start, history, replies);
    if latches_apart(latches, known.evaluated.len() as int) {
        law_latches_take_what_was_computed_for_them(known.evaluated, latches, false);
    }
    if latches_apart(latches, known.from.len() as int) {
        law_latches_take_what_was_computed_for_them(known.from, latches, false);
    }
    if progress.request is Finished {
        let a = values_at(known.from, slots);
        let b = values_at(known.evaluated, slots);
        assert forall|i: int| 0 <= i < slots.len() implies {
            let slot = (#[trigger] slots[i]).value() as int;
            float_eq(known.from[slot], known.evaluated[slot])
        } by {
            assert(a[i] == known.from[slots[i].value() as int]);
            assert(b[i] == known.evaluated[slots[i].value() as int]);
            assert(float_eq(a[i], b[i]));
        }
    }
}

/// When the values of a tick have been computed, each latch is given its initial value; where values
/// depend on the solution, the island is then evaluated with the solution it had.
pub proof fn law_latches_start_with_their_initial_values<F>(
    shape: IslandShape,
    state: IslandState<F>,
    tick: TickModel,
    reply: Reply<F>,
)
    requires
        tick.stage is Tick,
        reply is Values,
        latches_apart(shape.plan.iteration_latches@, reply->Values_0@.len() as int),
        inputs_apart(shape.plan.solution_inputs@, reply->Values_0@.len() as int),
        forall|i: int, j: int|
            0 <= i < shape.plan.iteration_latches@.len() && 0 <= j
                < shape.plan.solution_inputs@.len() ==> (
            #[trigger] shape.plan.iteration_latches@[i]).input.spec_value() != (
            #[trigger] shape.plan.solution_inputs@[j]).1.spec_value(),
    ensures
        ({
            let next = resumed(shape, state, tick, reply);
            let values = reply->Values_0@;
            let latches = shape.plan.iteration_latches@;
            let inputs = shape.plan.solution_inputs@;
            &&& forall|i: int|
                0 <= i < latches.len() ==> next.state.values[(
                #[trigger] latches[i]).input.spec_value() as int]
                    == values[latches[i].initial.value() as int]
            &&& shape.plan.requires_nonlinear_iteration ==> {
                &&& next.request is ComputeIteration
                &&& forall|j: int|
                    0 <= j < inputs.len() ==> next.state.values[(
                    #[trigger] inputs[j]).1.spec_value() as int]
                        == state.solution[inputs[j].0.value() as int]
            }
            &&& !shape.plan.requires_nonlinear_iteration ==> if state.matrix_dirty {
                next.request is StampMatrix
            } else if shape.dimension == 0 || state.numeric is Some {
                next.request is Solve
            } else {
                next.request is Failed
            }
        }),
{
    reveal(computed);
    reveal(started);
    reveal(begun);
    let values = reply->Values_0@;
    let latches = shape.plan.iteration_latches@;
    let inputs = shape.plan.solution_inputs@;
    let set = latched(values, latches, latches.len() as int, true);
    law_latches_take_what_was_computed_for_them(values, latches, true);
    law_inputs_hold_the_solution(set, inputs, state.solution);
    let next = resumed(shape, state, tick, reply);
    assert forall|i: int| 0 <= i < latches.len() implies next.state.values[(
    #[trigger] latches[i]).input.spec_value() as int] == values[latches[i].initial.value() as int] by {
        let slot = latches[i].input.spec_value() as int;
        assert forall|j: int| 0 <= j < inputs.len() implies (
        #[trigger] inputs[j]).1.spec_value() != slot by {
            assert(latches[i].input.spec_value() != inputs[j].1.spec_value());
        }
        assert(set[slot] == values[latches[i].initial.value() as int]);
        assert(crate::island_runtime::filled(
            set,
            inputs,
            state.solution,
            inputs.len() as int,
        )[slot] == set[slot]);
    }
}

/// An island where nothing depends on the solution finishes with what it is solved to: the solution
/// is kept as it was answered, and so are the values that are then computed from it.
pub proof fn law_linear_islands_finish_with_their_solution<F>(
    shape: IslandShape,
    state: IslandState<F>,
    tick: TickModel,
    solution: Reply<F>,
    values: Reply<F>,
)
    requires
        tick.control.action is SolveLinear,
        tick.stage == Stage::Solving(Buffer::Solution),
        solution is Solution,
        values is Values,
        forall|i: int|
            0 <= i < solution->Solution_0@.len() ==> is_finite(
                #[trigger] solution->Solution_0@[i],
            ),
    ensures
        ({
            let solved = resumed(shape, state, tick, solution);
            let done = resumed(shape, solved.state, solved.tick, values);
            &&& solved.request is ComputeIteration
            &&& done.request is Finished
            &&& done.state.solution == solution->Solution_0@
            &&& done.state.values == values->Values_0@
            &&& done.state.solution_valid
            &&& done.state.observer_outputs_dirty
            &&& done.state.needs_solve == (state.needs_solve && !shape.sleepable)
            &&& done.state.matrix == state.matrix
            &&& done.state.numeric == state.numeric
        }),
{
    reveal(solved_to);
    reveal(computed);
    reveal(evaluated);
    reveal(after);
    reveal(begun);
}

/// A matrix is kept as it was stamped and takes the place of the old factorization. It has to be
/// finite; then it is factorized, and what it was factorized with is noted.
pub proof fn law_stamped_matrices_are_factorized<F>(
    shape: IslandShape,
    state: IslandState<F>,
    tick: TickModel,
    reply: Reply<F>,
)
    requires
        tick.stage is Stamping && reply is Matrix || tick.stage is Factorizing
            && reply is Factorization,
    ensures
        ({
            let next = resumed(shape, state, tick, reply);
            let sources = shape.plan.iteration_matrix_sources@;
            &&& next.state.values == state.values
            &&& next.state.solution == state.solution
            &&& next.state.current == state.current
            &&& next.state.next == state.next
            &&& reply matches Reply::Matrix(matrix) ==> {
                &&& next.state.matrix == matrix@
                &&& next.state.numeric is None
                &&& if forall|i: int| 0 <= i < matrix@.len() ==> is_finite(#[trigger] matrix@[i]) {
                    next.request is Factorize
                } else {
                    next.request == Request::Failed(
                        crate::bindings::IslandRuntimeError::NonFiniteMatrix,
                    )
                }
            }
            &&& reply matches Reply::Factorization(result) ==> {
                &&& next.state.matrix == state.matrix
                &&& result is Ok && shape.dimension > 0 ==> {
                    &&& next.request is Solve
                    &&& next.state.numeric == Some(result->Ok_0)
                    &&& !next.state.matrix_dirty
                    &&& next.state.factorized_sources.len() == sources.len()
                    &&& forall|i: int|
                        0 <= i < sources.len() ==> #[trigger] next.state.factorized_sources[i]
                            == state.values[sources[i].value() as int]
                }
                &&& result is Err && shape.dimension > 0 ==> next.request is Failed
                    && next.state.matrix_dirty == state.matrix_dirty
            }
        }),
{
    reveal(stamped);
    reveal(factored);
}

/// A solution that is not finite fails the tick. One that is is kept where it belongs, and the
/// island is evaluated with it: each input that depends on the solution holds its unknown.
pub proof fn law_solutions_are_finite_and_evaluated<F>(
    shape: IslandShape,
    state: IslandState<F>,
    tick: TickModel,
    which: Buffer,
    reply: Reply<F>,
)
    requires
        tick.stage == Stage::Solving(which),
        reply is Solution,
        inputs_apart(shape.plan.solution_inputs@, state.values.len() as int),
    ensures
        ({
            let next = resumed(shape, state, tick, reply);
            let solution = reply->Solution_0@;
            let inputs = shape.plan.solution_inputs@;
            &&& next.state.buffer(which) == solution
            &&& forall|other: Buffer|
                other != which ==> #[trigger] next.state.buffer(other) == state.buffer(other)
            &&& if forall|i: int| 0 <= i < solution.len() ==> is_finite(#[trigger] solution[i]) {
                &&& next.request is ComputeIteration
                &&& next.tick.stage == (Stage::Evaluating { which, solved: true })
                &&& forall|j: int|
                    0 <= j < inputs.len() ==> next.state.values[(
                    #[trigger] inputs[j]).1.spec_value() as int]
                        == solution[inputs[j].0.value() as int]
            } else {
                next.request == Request::Failed(
                    crate::bindings::IslandRuntimeError::NonFiniteSolution,
                )
            }
        }),
{
    reveal(solved_to);
    law_inputs_hold_the_solution(
        state.values,
        shape.plan.solution_inputs@,
        reply->Solution_0@,
    );
}

} // verus!
