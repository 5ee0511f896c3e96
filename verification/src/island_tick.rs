//! One tick of an island, from its beginning to a stable solution.
//!
//! The library decides what is computed, in which order, and what becomes of the results. What takes
//! floating-point arithmetic is asked of the caller, one request at a time.

use crate::bindings::IslandRuntimeError;
use crate::discrete::{
    all_usable, driven, matrix_barrier_changed, output_changed, rhs_barrier_changed, ClosureOutcome,
    ClosureRun, ClosureStep, CompiledDiscretePlan, DriverPrediction, DISCRETE_CLOSURE_MAX_ROUNDS,
};
use crate::island_runtime::{
    all_equal, all_finite, filled, latched, values_at, Buffer, IslandPlan, IslandRuntime, TickStart,
};
use crate::mna_system::{FactorFailure, MnaError};
use crate::network::Network;
use crate::solve_control::{
    answers, first_action, next_control, solves, SolveAction, SolveControl, SolveEvent, SolveStart,
    NONLINEAR_MAX_ITERATIONS,
};
use vstd::prelude::*;

verus! {

/// What the caller is asked for, or how the tick ended.
#[derive(Debug, Clone, Copy, PartialEq, Eq, Structural)]
pub enum Request {
    /// The values after the static program.
    ComputeStatic,
    /// The values after the program of each tick.
    ComputeTick,
    /// The values after the program of each iteration.
    ComputeIteration,
    /// The values of the matrix.
    StampMatrix,
    /// A factorization of the matrix.
    Factorize,
    /// The solution for the right-hand side that the values give.
    Solve,
    /// Whether two solutions are close.
    Compare { previous: Buffer, current: Buffer },
    /// The outputs of the drivers.
    Predict,
    /// The island sleeps.
    Slept,
    /// The island has been solved.
    Finished,
    Failed(IslandRuntimeError),
}

/// What the caller answers.
#[derive(Debug)]
pub enum Reply<F> {
    Values(Vec<u64>),
    Matrix(Vec<u64>),
    Factorization(Result<F, FactorFailure>),
    Solution(Vec<u64>),
    Close(bool),
    Predictions(Vec<DriverPrediction>),
}

/// What the tick waits for.
#[derive(Debug, Clone, Copy, PartialEq, Eq, Structural)]
pub enum Stage {
    Static,
    Tick,
    /// The values of a solution; `solved` tells whether the island has just been solved to it.
    Evaluating { which: Buffer, solved: bool },
    Stamping(Buffer),
    Factorizing(Buffer),
    Solving(Buffer),
    Comparing,
    Predicting,
    Done,
}

/// How far a tick has got.
#[derive(Debug, Clone, Copy, PartialEq, Eq, Structural)]
pub struct IslandTick {
    pub stage: Stage,
    pub control: SolveControl,
    pub closure: ClosureRun,
    pub had_solution: bool,
}

/// How far a tick has got: what it waits for, what is done next, how often drivers may still be
/// followed, and whether there was a stable solution before.
pub struct TickModel {
    pub stage: Stage,
    pub control: SolveControl,
    pub rounds_left: nat,
    pub had_solution: bool,
}

/// What changes of an island during a tick.
pub struct IslandState<F> {
    pub matrix: Seq<u64>,
    pub numeric: Option<F>,
    pub values: Seq<u64>,
    pub solution: Seq<u64>,
    pub current: Seq<u64>,
    pub next: Seq<u64>,
    pub stability: Seq<u64>,
    pub rhs_reference: Seq<u64>,
    pub rhs_reference_valid: bool,
    pub factorized_sources: Seq<u64>,
    pub solution_valid: bool,
    pub static_initialized: bool,
    pub matrix_dirty: bool,
    pub static_inputs_dirty: bool,
    pub observer_outputs_dirty: bool,
    pub needs_solve: bool,
}

/// What stays of an island during a tick.
pub struct IslandShape {
    pub plan: IslandPlan,
    pub discrete: Option<CompiledDiscretePlan>,
    pub dimension: int,
    pub sleepable: bool,
}

impl<F> IslandRuntime<F> {
    pub open spec fn state(self) -> IslandState<F> {
        IslandState {
            matrix: self.system.spec_values(),
            numeric: self.system.spec_numeric(),
            values: self.workspace@,
            solution: self.solution@,
            current: self.current@,
            next: self.next@,
            stability: self.stability@,
            rhs_reference: self.rhs_reference@,
            rhs_reference_valid: self.rhs_reference_valid,
            factorized_sources: self.factorized_sources@,
            solution_valid: self.solution_valid,
            static_initialized: self.static_initialized,
            matrix_dirty: self.matrix_dirty,
            static_inputs_dirty: self.static_inputs_dirty,
            observer_outputs_dirty: self.observer_outputs_dirty,
            needs_solve: self.needs_solve,
        }
    }

    pub open spec fn shape(self) -> IslandShape {
        IslandShape {
            plan: self.plan,
            discrete: self.discrete_plan,
            dimension: self.dimension(),
            sleepable: self.sleepable,
        }
    }

    /// Whether `after` is the same island, however far it has been solved.
    pub open spec fn is_same(self, after: Self) -> bool {
        &&& after.shape() == self.shape()
        &&& after.bindings == self.bindings
        &&& after.observer_outputs == self.observer_outputs
        &&& after.system.spec_pattern() == self.system.spec_pattern()
    }
}

impl<F> IslandState<F> {
    pub open spec fn buffer(self, which: Buffer) -> Seq<u64> {
        match which {
            Buffer::Solution => self.solution,
            Buffer::Current => self.current,
            Buffer::Next => self.next,
        }
    }

    pub open spec fn with_buffer(self, which: Buffer, solution: Seq<u64>) -> Self {
        match which {
            Buffer::Solution => IslandState { solution, ..self },
            Buffer::Current => IslandState { current: solution, ..self },
            Buffer::Next => IslandState { next: solution, ..self },
        }
    }

    /// The inputs that depend on a solution are filled.
    pub open spec fn with_inputs(self, shape: IslandShape, which: Buffer) -> Self {
        let inputs = shape.plan.solution_inputs@;
        IslandState {
            values: filled(self.values, inputs, self.buffer(which), inputs.len() as int),
            ..self
        }
    }

    /// The values that have to be stable are noted.
    pub open spec fn captured(self, shape: IslandShape) -> Self {
        IslandState {
            stability: values_at(self.values, shape.plan.iteration_stability_values@),
            ..self
        }
    }

    /// The latches are updated.
    pub open spec fn with_latches(self, shape: IslandShape, first: bool) -> Self {
        let latches = shape.plan.iteration_latches@;
        IslandState { values: latched(self.values, latches, latches.len() as int, first), ..self }
    }

    /// Whether the values that the matrix was factorized with are the same.
    pub open spec fn sources_match(self, shape: IslandShape) -> bool {
        all_equal(
            self.factorized_sources,
            values_at(self.values, shape.plan.iteration_matrix_sources@),
        )
    }

    pub open spec fn factorized(self, shape: IslandShape) -> bool {
        shape.dimension == 0 || self.numeric is Some
    }

    /// The matrix is marked where it is factorized with values that have changed.
    pub open spec fn dirtied(self, shape: IslandShape) -> Self {
        IslandState {
            matrix_dirty: self.matrix_dirty || (shape.plan.iteration_matrix_sources@.len() > 0
                && self.factorized(shape) && !self.sources_match(shape)),
            ..self
        }
    }

    /// What the right-hand side is made of is noted, where drivers are followed.
    pub open spec fn referenced(self, shape: IslandShape) -> Self {
        match shape.discrete {
            None => self,
            Some(plan) => IslandState {
                rhs_reference: values_at(self.values, plan.rhs_barriers@),
                rhs_reference_valid: false,
                ..self
            },
        }
    }

    /// Whether the values that have to be stable are as noted.
    pub open spec fn is_stable(self, shape: IslandShape) -> bool {
        all_equal(self.stability, values_at(self.values, shape.plan.iteration_stability_values@))
    }

    /// Whether what the right-hand side is made of is as noted.
    pub open spec fn rhs_matches(self, shape: IslandShape) -> bool {
        &&& self.rhs_reference_valid
        &&& shape.discrete matches Some(plan)
        &&& all_equal(self.rhs_reference, values_at(self.values, plan.rhs_barriers@))
    }
}

/// Where a tick stands: the island, how far the tick has got, and what the caller is asked for.
pub struct Progress<F> {
    pub state: IslandState<F>,
    pub tick: TickModel,
    pub request: Request,
}

/// The tick waits for something.
pub open spec fn waiting<F>(
    state: IslandState<F>,
    tick: TickModel,
    stage: Stage,
    request: Request,
) -> Progress<F> {
    Progress { state, tick: TickModel { stage, ..tick }, request }
}

/// The tick has failed.
pub open spec fn failed<F>(
    state: IslandState<F>,
    tick: TickModel,
    error: IslandRuntimeError,
) -> Progress<F> {
    waiting(state, tick, Stage::Done, Request::Failed(error))
}

/// The island is evaluated with a solution.
pub open spec fn evaluating<F>(
    shape: IslandShape,
    state: IslandState<F>,
    tick: TickModel,
    which: Buffer,
    solved: bool,
) -> Progress<F> {
    waiting(
        state.with_inputs(shape, which),
        tick,
        Stage::Evaluating { which, solved },
        Request::ComputeIteration,
    )
}

/// The island is solved with the matrix as it is factorized.
pub open spec fn solving<F>(
    shape: IslandShape,
    state: IslandState<F>,
    tick: TickModel,
    which: Buffer,
) -> Progress<F> {
    if !state.factorized(shape) {
        failed(
            state.referenced(shape),
            tick,
            IslandRuntimeError::Mna(MnaError::NotFactorized),
        )
    } else {
        waiting(state.referenced(shape), tick, Stage::Solving(which), Request::Solve)
    }
}

/// The island is solved, after the matrix has been factorized where it has to be.
pub open spec fn candidate<F>(
    shape: IslandShape,
    state: IslandState<F>,
    tick: TickModel,
    which: Buffer,
) -> Progress<F> {
    if state.matrix_dirty {
        waiting(state, tick, Stage::Stamping(which), Request::StampMatrix)
    } else {
        solving(shape, state, tick, which)
    }
}

/// The solution is verified: the island is solved with the values that it gives.
pub open spec fn verifying<F>(
    shape: IslandShape,
    state: IslandState<F>,
    tick: TickModel,
) -> Progress<F> {
    candidate(shape, state.captured(shape).dirtied(shape), tick, Buffer::Next)
}

/// The solution is improved: the latches advance, and the island is solved again.
pub open spec fn iterating<F>(
    shape: IslandShape,
    state: IslandState<F>,
    tick: TickModel,
    which: Buffer,
) -> Progress<F> {
    candidate(
        shape,
        state.captured(shape).with_latches(shape, false).dirtied(shape),
        tick,
        which,
    )
}

/// What is done next is begun, unless it is to follow the drivers.
#[verifier::opaque]
pub open spec fn begun<F>(
    shape: IslandShape,
    state: IslandState<F>,
    tick: TickModel,
) -> Progress<F> {
    match tick.control.action {
        SolveAction::SolveLinear => candidate(shape, state, tick, Buffer::Solution),
        SolveAction::EvaluateAndVerify => evaluating(shape, state, tick, Buffer::Solution, false),
        SolveAction::Evaluate => evaluating(shape, state, tick, Buffer::Solution, false),
        SolveAction::IterateFirst => evaluating(shape, state, tick, Buffer::Solution, false),
        SolveAction::Verify => verifying(shape, state, tick),
        SolveAction::Iterate => iterating(shape, state, tick, Buffer::Next),
        SolveAction::FollowDrivers => waiting(state, tick, Stage::Done, Request::Finished),
        SolveAction::Finish => waiting(
            IslandState {
                observer_outputs_dirty: true,
                needs_solve: state.needs_solve && !shape.sleepable,
                ..state
            },
            tick,
            Stage::Done,
            Request::Finished,
        ),
        SolveAction::Fail(error) => failed(state, tick, error),
    }
}

/// The drivers have been followed.
#[verifier::opaque]
pub open spec fn followed<F>(
    shape: IslandShape,
    state: IslandState<F>,
    tick: TickModel,
    outcome: ClosureOutcome,
) -> Progress<F> {
    begun(
        shape,
        state,
        TickModel { control: next_control(tick.control, SolveEvent::Followed(outcome)), ..tick },
    )
}

/// A round of following the drivers begins.
#[verifier::opaque]
pub open spec fn round<F>(
    shape: IslandShape,
    plan: CompiledDiscretePlan,
    state: IslandState<F>,
    tick: TickModel,
) -> Progress<F> {
    if tick.rounds_left == 0 {
        followed(shape, state, tick, ClosureOutcome::BudgetExceeded)
    } else if matrix_barrier_changed(plan, state.values, state.factorized_sources)
        || rhs_barrier_changed(plan, state.values, state.rhs_reference) {
        followed(shape, state, tick, ClosureOutcome::Barrier)
    } else {
        waiting(state, tick, Stage::Predicting, Request::Predict)
    }
}

/// A round of following the drivers ends.
#[verifier::opaque]
pub open spec fn rounded<F>(
    shape: IslandShape,
    plan: CompiledDiscretePlan,
    state: IslandState<F>,
    tick: TickModel,
    predictions: Seq<DriverPrediction>,
) -> Progress<F> {
    let count = plan.drivers@.len() as int;
    let moved = IslandState { current: driven(plan, state.current, predictions, count), ..state };
    if !all_usable(plan, state.values, state.current, predictions) {
        followed(shape, state, tick, ClosureOutcome::InvalidPrediction)
    } else if output_changed(plan, state.current, predictions, count) {
        evaluating(
            shape,
            moved,
            TickModel { rounds_left: (tick.rounds_left - 1) as nat, ..tick },
            Buffer::Current,
            false,
        )
    } else {
        followed(shape, moved, tick, ClosureOutcome::Settled)
    }
}

/// Something has been done, and what comes next is begun.
#[verifier::opaque]
pub open spec fn after<F>(
    shape: IslandShape,
    state: IslandState<F>,
    tick: TickModel,
    event: SolveEvent,
) -> Progress<F> {
    let control = next_control(tick.control, event);
    let next = TickModel { control, ..tick };
    match shape.discrete {
        Some(plan) if control.action is FollowDrivers => round(
            shape,
            plan,
            IslandState { current: state.solution, ..state },
            TickModel { rounds_left: DISCRETE_CLOSURE_MAX_ROUNDS as nat, ..next },
        ),
        _ => begun(shape, state, next),
    }
}

/// The values of a solution have been computed.
#[verifier::opaque]
pub open spec fn evaluated<F>(
    shape: IslandShape,
    state: IslandState<F>,
    tick: TickModel,
    which: Buffer,
    solved: bool,
) -> Progress<F> {
    match tick.control.action {
        SolveAction::SolveLinear => after(
            shape,
            IslandState { solution_valid: true, ..state },
            tick,
            SolveEvent::Solved { converged: true },
        ),
        SolveAction::Evaluate => after(
            shape,
            state,
            tick,
            SolveEvent::Evaluated { stable: state.is_stable(shape) },
        ),
        SolveAction::FollowDrivers => match shape.discrete {
            Some(plan) => round(shape, plan, state, tick),
            None => waiting(state, tick, Stage::Done, Request::Finished),
        },
        _ => if solved {
            waiting(
                state,
                tick,
                Stage::Comparing,
                Request::Compare {
                    previous: if tick.control.action is Iterate {
                        Buffer::Current
                    } else {
                        Buffer::Solution
                    },
                    current: which,
                },
            )
        } else if tick.control.action is IterateFirst {
            iterating(shape, state, tick, Buffer::Current)
        } else {
            verifying(shape, state, tick)
        },
    }
}

/// Two solutions have been compared.
#[verifier::opaque]
pub open spec fn compared<F>(
    shape: IslandShape,
    state: IslandState<F>,
    tick: TickModel,
    close: bool,
) -> Progress<F> {
    let stable = state.is_stable(shape);
    match tick.control.action {
        SolveAction::IterateFirst => {
            let converged = close && stable;
            after(
                shape,
                if converged {
                    IslandState {
                        solution: state.current,
                        current: state.solution,
                        solution_valid: true,
                        ..state
                    }
                } else {
                    state
                },
                tick,
                SolveEvent::Solved { converged },
            )
        },
        SolveAction::Iterate => {
            let converged = close && stable;
            after(
                shape,
                if converged {
                    IslandState {
                        solution: state.next,
                        next: state.solution,
                        solution_valid: true,
                        ..state
                    }
                } else {
                    IslandState { current: state.next, next: state.current, ..state }
                },
                tick,
                SolveEvent::Solved { converged },
            )
        },
        _ => {
            let exact = state.sources_match(shape) && state.rhs_matches(shape);
            let converged = stable && (exact || close);
            after(
                shape,
                IslandState {
                    solution: state.next,
                    next: state.solution,
                    solution_valid: state.solution_valid || converged,
                    ..state
                },
                tick,
                SolveEvent::Solved { converged },
            )
        },
    }
}

/// Whether a reply is what the tick waits for.
pub open spec fn expects<F>(island: IslandRuntime<F>, stage: Stage, reply: Reply<F>) -> bool {
    match (stage, reply) {
        (Stage::Static, Reply::Values(values)) => values@.len() == island.workspace@.len(),
        (Stage::Tick, Reply::Values(values)) => values@.len() == island.workspace@.len(),
        (Stage::Evaluating { .. }, Reply::Values(values)) => values@.len()
            == island.workspace@.len(),
        (Stage::Stamping(_), Reply::Matrix(matrix)) => matrix@.len()
            == island.system.spec_values().len(),
        (Stage::Factorizing(_), Reply::Factorization(_)) => true,
        (Stage::Solving(_), Reply::Solution(solution)) => solution@.len() == island.dimension(),
        (Stage::Comparing, Reply::Close(_)) => true,
        (Stage::Predicting, Reply::Predictions(predictions)) => {
            &&& island.discrete_plan matches Some(plan)
            &&& predictions@.len() == plan.drivers@.len()
        },
        _ => false,
    }
}

/// The values of the tick have been computed, and solving begins.
#[verifier::opaque]
pub open spec fn started<F>(
    shape: IslandShape,
    state: IslandState<F>,
    tick: TickModel,
) -> Progress<F> {
    let start = SolveStart {
        nonlinear: shape.plan.requires_nonlinear_iteration,
        discrete: shape.discrete is Some,
        resumable: tick.had_solution && !state.matrix_dirty && state.factorized(shape)
            && state.rhs_reference_valid,
    };
    begun(
        shape,
        state.with_latches(shape, true),
        TickModel {
            control: SolveControl { action: first_action(start), iterations_used: 0 },
            ..tick
        },
    )
}

/// The matrix has been stamped. It has to be finite.
#[verifier::opaque]
pub open spec fn stamped<F>(
    state: IslandState<F>,
    tick: TickModel,
    which: Buffer,
    matrix: Seq<u64>,
) -> Progress<F> {
    let filled = IslandState { matrix, numeric: None, ..state };
    if all_finite(matrix) {
        waiting(filled, tick, Stage::Factorizing(which), Request::Factorize)
    } else {
        failed(filled, tick, IslandRuntimeError::NonFiniteMatrix)
    }
}

/// The matrix has been factorized, or cannot be.
#[verifier::opaque]
pub open spec fn factored<F>(
    shape: IslandShape,
    state: IslandState<F>,
    tick: TickModel,
    which: Buffer,
    factorization: Result<F, FactorFailure>,
) -> Progress<F> {
    let clean = IslandState {
        factorized_sources: values_at(state.values, shape.plan.iteration_matrix_sources@),
        matrix_dirty: false,
        ..state
    };
    if shape.dimension == 0 {
        solving(shape, clean, tick, which)
    } else {
        match factorization {
            Ok(factor) => solving(
                shape,
                IslandState { numeric: Some(factor), ..clean },
                tick,
                which,
            ),
            Err(failure) => failed(
                state,
                tick,
                IslandRuntimeError::Mna(MnaError::of_factor(failure)),
            ),
        }
    }
}

/// The island has been solved. The solution has to be finite.
#[verifier::opaque]
pub open spec fn solved_to<F>(
    shape: IslandShape,
    state: IslandState<F>,
    tick: TickModel,
    which: Buffer,
    solution: Seq<u64>,
) -> Progress<F> {
    let solved = state.with_buffer(which, solution);
    if all_finite(solution) {
        evaluating(
            shape,
            IslandState {
                rhs_reference_valid: state.rhs_reference_valid || shape.discrete is Some,
                ..solved
            },
            tick,
            which,
            true,
        )
    } else {
        failed(solved, tick, IslandRuntimeError::NonFiniteSolution)
    }
}

/// Values have been computed.
#[verifier::opaque]
pub open spec fn computed<F>(
    shape: IslandShape,
    state: IslandState<F>,
    tick: TickModel,
) -> Progress<F> {
    match tick.stage {
        Stage::Tick => started(shape, state, tick),
        Stage::Evaluating { which, solved } => evaluated(shape, state, tick, which, solved),
        _ => waiting(state, tick, Stage::Tick, Request::ComputeTick),
    }
}

/// What a reply makes of a tick.
pub open spec fn resumed<F>(
    shape: IslandShape,
    state: IslandState<F>,
    tick: TickModel,
    reply: Reply<F>,
) -> Progress<F> {
    match (tick.stage, reply) {
        (_, Reply::Values(values)) => computed(
            shape,
            IslandState { values: values@, ..state },
            tick,
        ),
        (Stage::Stamping(which), Reply::Matrix(matrix)) => stamped(state, tick, which, matrix@),
        (Stage::Factorizing(which), Reply::Factorization(factorization)) => factored(
            shape,
            state,
            tick,
            which,
            factorization,
        ),
        (Stage::Solving(which), Reply::Solution(solution)) => solved_to(
            shape,
            state,
            tick,
            which,
            solution@,
        ),
        (Stage::Comparing, Reply::Close(close)) => compared(shape, state, tick, close),
        (Stage::Predicting, Reply::Predictions(predictions)) => match shape.discrete {
            Some(plan) => rounded(shape, plan, state, tick, predictions@),
            None => waiting(state, tick, tick.stage, Request::Finished),
        },
        _ => waiting(state, tick, tick.stage, Request::Finished),
    }
}

/// Whether an action has to do with drivers.
pub open spec fn needs_drivers(action: SolveAction) -> bool {
    action is EvaluateAndVerify || action is Evaluate || action is Verify || action is FollowDrivers
}

/// Whether what is done next can be done.
pub open spec fn is_control(shape: IslandShape, tick: TickModel) -> bool {
    &&& tick.control.wf()
    &&& needs_drivers(tick.control.action) ==> shape.discrete is Some
    &&& tick.rounds_left <= DISCRETE_CLOSURE_MAX_ROUNDS
}

/// Whether a tick waits for something that the action asks for.
pub open spec fn is_tick(shape: IslandShape, tick: TickModel) -> bool {
    &&& is_control(shape, tick)
    &&& match tick.stage {
        Stage::Evaluating { solved, .. } => if solved {
            solves(tick.control.action)
        } else {
            tick.control.action is EvaluateAndVerify || tick.control.action is Evaluate
                || tick.control.action is IterateFirst || tick.control.action is FollowDrivers
        },
        Stage::Stamping(_) => solves(tick.control.action),
        Stage::Factorizing(_) => solves(tick.control.action),
        Stage::Solving(_) => solves(tick.control.action),
        Stage::Comparing => solves(tick.control.action) && !(tick.control.action is SolveLinear),
        Stage::Predicting => tick.control.action is FollowDrivers && tick.rounds_left > 0,
        _ => true,
    }
}

impl IslandTick {
    pub open spec fn view(self) -> TickModel {
        TickModel {
            stage: self.stage,
            control: self.control,
            rounds_left: self.closure.spec_rounds_left(),
            had_solution: self.had_solution,
        }
    }

    /// Whether what is done next can be done with an island.
    pub open spec fn control_fits<F>(self, island: IslandRuntime<F>) -> bool {
        is_control(island.shape(), self@)
    }

    /// Whether the tick is one of an island.
    pub open spec fn fits<F>(self, island: IslandRuntime<F>) -> bool {
        is_tick(island.shape(), self@)
    }

    /// Whether a step was taken as foreseen.
    pub open spec fn stepped<F>(
        self,
        before: IslandRuntime<F>,
        after: IslandRuntime<F>,
        request: Request,
        progress: Progress<F>,
    ) -> bool {
        &&& before.is_same(after)
        &&& after.wf()
        &&& self.fits(after)
        &&& after.state() == progress.state
        &&& self@ == progress.tick
        &&& request == progress.request
    }

    /// Whether a tick of an island has begun. An island that sleeps is left as it is. Else the
    /// parameters are looked at, and values are asked for unless one is missing.
    pub open spec fn began<F>(
        self,
        before: IslandRuntime<F>,
        after: IslandRuntime<F>,
        network: Network,
        request: Request,
    ) -> bool {
        if before.sleeps() {
            &&& request == Request::Slept
            &&& self.stage is Done
            &&& after == before
        } else {
            let (values, look) = before.static_look(network);
            let begun = IslandState { values, solution_valid: false, ..before.state() };
            &&& self.had_solution == before.solution_valid
            &&& match look {
                Err(error) => {
                    &&& request == Request::Failed(error)
                    &&& self.stage is Done
                    &&& after.state() == begun
                },
                Ok(changes) => {
                    let first = !before.static_initialized;
                    &&& after.state() == (IslandState {
                        static_inputs_dirty: false,
                        static_initialized: true,
                        matrix_dirty: begun.matrix_dirty || first || changes.matrix,
                        ..begun
                    })
                    &&& if first || changes.values {
                        request == Request::ComputeStatic && self.stage is Static
                    } else {
                        request == Request::ComputeTick && self.stage is Tick
                    }
                },
            }
        }
    }

    /// Begins a tick, once the states have been read. The caller is asked for values, unless the
    /// island sleeps or a parameter is missing.
    pub fn start<F>(island: &mut IslandRuntime<F>, network: &Network) -> (result: (Self, Request))
        requires
            old(island).wf(),
            network.wf(),
        ensures
            final(island).wf(),
            old(island).is_same(*final(island)),
            result.0.fits(*final(island)),
            result.0.began(*old(island), *final(island), *network, result.1),
    {
        let had_solution = island.solution_valid;
        let mut tick = IslandTick {
            stage: Stage::Done,
            control: SolveControl::new(
                SolveStart { nonlinear: false, discrete: false, resumable: false },
            ),
            closure: ClosureRun::new(),
            had_solution,
        };
        match island.begin_tick(network) {
            Ok(TickStart::Slept) => (tick, Request::Slept),
            Ok(TickStart::Solve { execute_static, .. }) => {
                if execute_static {
                    tick.stage = Stage::Static;
                    (tick, Request::ComputeStatic)
                } else {
                    tick.stage = Stage::Tick;
                    (tick, Request::ComputeTick)
                }
            },
            Err(error) => (tick, Request::Failed(error)),
        }
    }

    fn evaluate<F>(
        &mut self,
        island: &mut IslandRuntime<F>,
        which: Buffer,
        solved: bool,
    ) -> (result: Request)
        requires
            old(island).wf(),
            old(self).control_fits(*old(island)),
            if solved {
                solves(old(self).control.action)
            } else {
                old(self).control.action is EvaluateAndVerify || old(self).control.action is Evaluate
                    || old(self).control.action is IterateFirst
                    || old(self).control.action is FollowDrivers
            },
        ensures
            final(self).stepped(
                *old(island),
                *final(island),
                result,
                evaluating(
                    old(island).shape(),
                    old(island).state(),
                    old(self)@,
                    which,
                    solved,
                ),
            ),
    {
        island.fill_solution_inputs(which);
        self.stage = Stage::Evaluating { which, solved };
        Request::ComputeIteration
    }

    fn fail(&mut self, error: IslandRuntimeError) -> (result: Request)
        ensures
            *final(self) == (IslandTick { stage: Stage::Done, ..*old(self) }),
            result == Request::Failed(error),
    {
        self.stage = Stage::Done;
        Request::Failed(error)
    }

    fn solve<F>(&mut self, island: &mut IslandRuntime<F>, which: Buffer) -> (result: Request)
        requires
            old(island).wf(),
            old(self).control_fits(*old(island)),
            solves(old(self).control.action),
        ensures
            final(self).stepped(
                *old(island),
                *final(island),
                result,
                solving(old(island).shape(), old(island).state(), old(self)@, which),
            ),
    {
        island.begin_candidate();
        let dimension: usize = island.system.dimension();
        let failure = match island.system.solver_for(dimension) {
            Ok(_) => None,
            Err(error) => Some(error),
        };
        match failure {
            Some(error) => self.fail(IslandRuntimeError::Mna(error)),
            None => {
                self.stage = Stage::Solving(which);
                Request::Solve
            },
        }
    }

    fn seek_candidate<F>(&mut self, island: &mut IslandRuntime<F>, which: Buffer) -> (result:
        Request)
        requires
            old(island).wf(),
            old(self).control_fits(*old(island)),
            solves(old(self).control.action),
        ensures
            final(self).stepped(
                *old(island),
                *final(island),
                result,
                candidate(old(island).shape(), old(island).state(), old(self)@, which),
            ),
    {
        if island.matrix_dirty {
            self.stage = Stage::Stamping(which);
            Request::StampMatrix
        } else {
            self.solve(island, which)
        }
    }

    fn verify<F>(&mut self, island: &mut IslandRuntime<F>) -> (result: Request)
        requires
            old(island).wf(),
            old(self).control_fits(*old(island)),
            solves(old(self).control.action),
        ensures
            final(self).stepped(
                *old(island),
                *final(island),
                result,
                verifying(old(island).shape(), old(island).state(), old(self)@),
            ),
    {
        island.capture_iteration_stability();
        island.update_iteration_matrix_dirty();
        self.seek_candidate(island, Buffer::Next)
    }

    fn iterate<F>(&mut self, island: &mut IslandRuntime<F>, which: Buffer) -> (result: Request)
        requires
            old(island).wf(),
            old(self).control_fits(*old(island)),
            solves(old(self).control.action),
        ensures
            final(self).stepped(
                *old(island),
                *final(island),
                result,
                iterating(old(island).shape(), old(island).state(), old(self)@, which),
            ),
    {
        island.capture_iteration_stability();
        island.advance_iteration_latches();
        island.update_iteration_matrix_dirty();
        self.seek_candidate(island, which)
    }

    fn begin<F>(&mut self, island: &mut IslandRuntime<F>) -> (result: Request)
        requires
            old(island).wf(),
            old(self).control_fits(*old(island)),
        ensures
            final(self).stepped(
                *old(island),
                *final(island),
                result,
                begun(old(island).shape(), old(island).state(), old(self)@),
            ),
    {
        proof {
            reveal(begun);
        }
        match self.control.action {
            SolveAction::SolveLinear => self.seek_candidate(island, Buffer::Solution),
            SolveAction::EvaluateAndVerify => self.evaluate(island, Buffer::Solution, false),
            SolveAction::Evaluate => self.evaluate(island, Buffer::Solution, false),
            SolveAction::IterateFirst => self.evaluate(island, Buffer::Solution, false),
            SolveAction::Verify => self.verify(island),
            SolveAction::Iterate => self.iterate(island, Buffer::Next),
            SolveAction::FollowDrivers => {
                self.stage = Stage::Done;
                Request::Finished
            },
            SolveAction::Finish => {
                island.finish_tick();
                self.stage = Stage::Done;
                Request::Finished
            },
            SolveAction::Fail(error) => self.fail(error),
        }
    }

    fn follow<F>(&mut self, island: &mut IslandRuntime<F>, outcome: ClosureOutcome) -> (result:
        Request)
        requires
            old(island).wf(),
            old(self).control_fits(*old(island)),
            old(self).control.action is FollowDrivers,
        ensures
            final(self).stepped(
                *old(island),
                *final(island),
                result,
                followed(old(island).shape(), old(island).state(), old(self)@, outcome),
            ),
    {
        proof {
            reveal(followed);
        }
        self.control = self.control.advance(SolveEvent::Followed(outcome));
        self.begin(island)
    }

    fn begin_round<F>(&mut self, island: &mut IslandRuntime<F>) -> (result: Request)
        requires
            old(island).wf(),
            old(self).control_fits(*old(island)),
            old(self).control.action is FollowDrivers,
        ensures
            final(self).stepped(
                *old(island),
                *final(island),
                result,
                round(
                    old(island).shape(),
                    old(island).discrete_plan->Some_0,
                    old(island).state(),
                    old(self)@,
                ),
            ),
    {
        proof {
            reveal(round);
        }
        let step = match &island.discrete_plan {
            Some(plan) => {
                assert(plan.fits(
                    island.workspace@.len() as int,
                    island.dimension(),
                    island.factorized_sources@.len() as int,
                ));
                self.closure.begin_round(
                    plan,
                    &island.workspace,
                    &island.factorized_sources,
                    &island.rhs_reference,
                )
            },
            None => ClosureStep::Predict,
        };
        match step {
            ClosureStep::Finished(outcome) => self.follow(island, outcome),
            _ => {
                self.stage = Stage::Predicting;
                Request::Predict
            },
        }
    }

    fn finish_round<F>(
        &mut self,
        island: &mut IslandRuntime<F>,
        predictions: Vec<DriverPrediction>,
    ) -> (result: Request)
        requires
            old(island).wf(),
            old(self).control_fits(*old(island)),
            old(self).control.action is FollowDrivers,
            old(self).closure.spec_rounds_left() > 0,
            predictions@.len() == old(island).discrete_plan->Some_0.drivers@.len(),
        ensures
            final(self).stepped(
                *old(island),
                *final(island),
                result,
                rounded(
                    old(island).shape(),
                    old(island).discrete_plan->Some_0,
                    old(island).state(),
                    old(self)@,
                    predictions@,
                ),
            ),
    {
        proof {
            reveal(rounded);
        }
        let mut current: Vec<u64> = Vec::new();
        std::mem::swap(&mut island.current, &mut current);
        let ghost before = current@;
        let step = match &island.discrete_plan {
            Some(plan) => {
                assert(plan.fits(
                    island.workspace@.len() as int,
                    before.len() as int,
                    island.factorized_sources@.len() as int,
                ));
                proof {
                    lemma_driven_length(*plan, before, predictions@, plan.drivers@.len() as int);
                }
                self.closure.finish_round(plan, &island.workspace, &mut current, &predictions)
            },
            None => ClosureStep::Evaluate,
        };
        island.current = current;
        assert(island.wf());
        match step {
            ClosureStep::Finished(outcome) => self.follow(island, outcome),
            _ => self.evaluate(island, Buffer::Current, false),
        }
    }

    fn advance<F>(&mut self, island: &mut IslandRuntime<F>, event: SolveEvent) -> (result: Request)
        requires
            old(island).wf(),
            old(self).control_fits(*old(island)),
            answers(old(self).control.action, event),
        ensures
            final(self).stepped(
                *old(island),
                *final(island),
                result,
                after(old(island).shape(), old(island).state(), old(self)@, event),
            ),
    {
        proof {
            reveal(after);
        }
        self.control = self.control.advance(event);
        match self.control.action {
            SolveAction::FollowDrivers => {
                island.current = copy_of(&island.solution);
                self.closure = ClosureRun::new();
                self.begin_round(island)
            },
            _ => self.begin(island),
        }
    }

    fn finish_evaluation<F>(
        &mut self,
        island: &mut IslandRuntime<F>,
        which: Buffer,
        solved: bool,
    ) -> (result: Request)
        requires
            old(island).wf(),
            old(self).fits(*old(island)),
            old(self).stage == (Stage::Evaluating { which, solved }),
        ensures
            final(self).stepped(
                *old(island),
                *final(island),
                result,
                evaluated(old(island).shape(), old(island).state(), old(self)@, which, solved),
            ),
    {
        proof {
            reveal(evaluated);
        }
        match self.control.action {
            SolveAction::SolveLinear => {
                island.finish_linear();
                self.advance(island, SolveEvent::Solved { converged: true })
            },
            SolveAction::Evaluate => {
                let stable = island.stability_matches();
                self.advance(island, SolveEvent::Evaluated { stable })
            },
            SolveAction::FollowDrivers => self.begin_round(island),
            SolveAction::IterateFirst => if solved {
                self.stage = Stage::Comparing;
                Request::Compare { previous: Buffer::Solution, current: which }
            } else {
                self.iterate(island, Buffer::Current)
            },
            SolveAction::Iterate => {
                self.stage = Stage::Comparing;
                Request::Compare { previous: Buffer::Current, current: which }
            },
            _ => if solved {
                self.stage = Stage::Comparing;
                Request::Compare { previous: Buffer::Solution, current: which }
            } else {
                self.verify(island)
            },
        }
    }

    fn finish_comparison<F>(&mut self, island: &mut IslandRuntime<F>, close: bool) -> (result:
        Request)
        requires
            old(island).wf(),
            old(self).fits(*old(island)),
            old(self).stage is Comparing,
        ensures
            final(self).stepped(
                *old(island),
                *final(island),
                result,
                compared(old(island).shape(), old(island).state(), old(self)@, close),
            ),
    {
        proof {
            reveal(compared);
        }
        let converged = match self.control.action {
            SolveAction::IterateFirst => island.finish_iteration(true, close),
            SolveAction::Iterate => island.finish_iteration(false, close),
            _ => island.finish_verification(close),
        };
        self.advance(island, SolveEvent::Solved { converged })
    }

    fn take_values<F>(&mut self, island: &mut IslandRuntime<F>, values: Vec<u64>) -> (result: Request)
        requires
            old(island).wf(),
            old(self).fits(*old(island)),
            values@.len() == old(island).workspace@.len(),
            old(self).stage is Static || old(self).stage is Tick || old(self).stage is Evaluating,
        ensures
            final(self).stepped(
                *old(island),
                *final(island),
                result,
                computed(
                    old(island).shape(),
                    IslandState { values: values@, ..old(island).state() },
                    old(self)@,
                ),
            ),
    {
        proof {
            reveal(computed);
        }
        let ghost before = *island;
        *island.workspace.values_mut() = values;
        assert(island.wf());
        assert(before.is_same(*island));
        assert(island.state() == (IslandState { values: values@, ..before.state() }));
        match self.stage {
            Stage::Tick => self.start_solving(island),
            Stage::Evaluating { which, solved } => self.finish_evaluation(island, which, solved),
            _ => {
                self.stage = Stage::Tick;
                Request::ComputeTick
            },
        }
    }

    fn start_solving<F>(&mut self, island: &mut IslandRuntime<F>) -> (result: Request)
        requires
            old(island).wf(),
            old(self).control_fits(*old(island)),
        ensures
            final(self).stepped(
                *old(island),
                *final(island),
                result,
                started(old(island).shape(), old(island).state(), old(self)@),
            ),
    {
        proof {
            reveal(started);
        }
        self.control = island.begin_solve(self.had_solution);
        self.begin(island)
    }

    fn take_matrix<F>(
        &mut self,
        island: &mut IslandRuntime<F>,
        which: Buffer,
        matrix: Vec<u64>,
    ) -> (result: Request)
        requires
            old(island).wf(),
            old(self).control_fits(*old(island)),
            solves(old(self).control.action),
            matrix@.len() == old(island).system.spec_values().len(),
        ensures
            final(self).stepped(
                *old(island),
                *final(island),
                result,
                stamped(old(island).state(), old(self)@, which, matrix@),
            ),
    {
        proof {
            reveal(stamped);
        }
        island.system.values_mut().copy_from_slice(matrix.as_slice());
        match island.check_matrix() {
            Ok(_) => {
                self.stage = Stage::Factorizing(which);
                Request::Factorize
            },
            Err(error) => self.fail(error),
        }
    }

    fn take_factorization<F>(
        &mut self,
        island: &mut IslandRuntime<F>,
        which: Buffer,
        factorization: Result<F, FactorFailure>,
    ) -> (result: Request)
        requires
            old(island).wf(),
            old(self).control_fits(*old(island)),
            solves(old(self).control.action),
        ensures
            final(self).stepped(
                *old(island),
                *final(island),
                result,
                factored(
                    old(island).shape(),
                    old(island).state(),
                    old(self)@,
                    which,
                    factorization,
                ),
            ),
    {
        proof {
            reveal(factored);
        }
        match island.system.factorize(factorization) {
            Ok(_) => {
                island.matrix_factorized();
                self.solve(island, which)
            },
            Err(error) => self.fail(IslandRuntimeError::Mna(error)),
        }
    }

    fn take_solution<F>(
        &mut self,
        island: &mut IslandRuntime<F>,
        which: Buffer,
        solution: Vec<u64>,
    ) -> (result: Request)
        requires
            old(island).wf(),
            old(self).control_fits(*old(island)),
            solves(old(self).control.action),
            solution@.len() == old(island).dimension(),
        ensures
            final(self).stepped(
                *old(island),
                *final(island),
                result,
                solved_to(old(island).shape(), old(island).state(), old(self)@, which, solution@),
            ),
    {
        proof {
            reveal(solved_to);
        }
        match island.accept_candidate(which, solution) {
            Ok(_) => self.evaluate(island, which, true),
            Err(error) => self.fail(error),
        }
    }

    /// Goes on with what the caller has computed.
    pub fn resume<F>(&mut self, island: &mut IslandRuntime<F>, reply: Reply<F>) -> (result: Request)
        requires
            old(island).wf(),
            old(self).fits(*old(island)),
            expects(*old(island), old(self).stage, reply),
        ensures
            final(self).stepped(
                *old(island),
                *final(island),
                result,
                resumed(old(island).shape(), old(island).state(), old(self)@, reply),
            ),
    {
        match (self.stage, reply) {
            (_, Reply::Values(values)) => self.take_values(island, values),
            (Stage::Stamping(which), Reply::Matrix(matrix)) => {
                self.take_matrix(island, which, matrix)
            },
            (Stage::Factorizing(which), Reply::Factorization(factorization)) => {
                self.take_factorization(island, which, factorization)
            },
            (Stage::Solving(which), Reply::Solution(solution)) => {
                self.take_solution(island, which, solution)
            },
            (Stage::Comparing, Reply::Close(close)) => self.finish_comparison(island, close),
            (Stage::Predicting, Reply::Predictions(predictions)) => {
                self.finish_round(island, predictions)
            },
            _ => Request::Finished,
        }
    }
}

fn copy_of(items: &Vec<u64>) -> (result: Vec<u64>)
    ensures
        result@ == items@,
{
    let mut copy: Vec<u64> = Vec::new();
    while copy.len() < items.len()
        invariant
            copy@.len() <= items@.len(),
            copy@ == items@.take(copy@.len() as int),
        decreases items@.len() - copy@.len(),
    {
        copy.push(items[copy.len()]);
        assert(copy@ =~= items@.take(copy@.len() as int));
    }
    assert(items@.take(items@.len() as int) =~= items@);
    copy
}

proof fn lemma_driven_length(
    plan: CompiledDiscretePlan,
    predicted: Seq<u64>,
    predictions: Seq<DriverPrediction>,
    count: int,
)
    requires
        count <= plan.drivers@.len(),
        forall|k: int|
            0 <= k < plan.drivers@.len() ==> (#[trigger] plan.drivers@[k]).output.value()
                < predicted.len(),
    ensures
        driven(plan, predicted, predictions, count).len() == predicted.len(),
    decreases count,
{
    if count > 0 {
        lemma_driven_length(plan, predicted, predictions, count - 1);
        assert(plan.drivers@[count - 1].output.value() < predicted.len());
    }
}

/// A bound on the number of requests that are left.
pub open spec fn requests_left(tick: TickModel) -> int {
    let solves_left = (NONLINEAR_MAX_ITERATIONS - tick.control.iterations_used) * 1000;
    match tick.stage {
        Stage::Static => 201_001,
        Stage::Tick => 201_000,
        Stage::Done => 0,
        Stage::Stamping(_) => solves_left + 6,
        Stage::Factorizing(_) => solves_left + 5,
        Stage::Solving(_) => solves_left + 4,
        Stage::Evaluating { solved: true, .. } => solves_left + 3,
        Stage::Comparing => solves_left + 2,
        Stage::Predicting => solves_left + 20 + 2 * tick.rounds_left,
        Stage::Evaluating { .. } => match tick.control.action {
            SolveAction::Evaluate => solves_left + 600,
            SolveAction::FollowDrivers => solves_left + 21 + 2 * tick.rounds_left,
            _ => solves_left + 10,
        },
    }
}

/// Whether a reply is of the kind that a stage waits for.
pub open spec fn is_answer<F>(stage: Stage, reply: Reply<F>) -> bool {
    match stage {
        Stage::Static => reply is Values,
        Stage::Tick => reply is Values,
        Stage::Evaluating { .. } => reply is Values,
        Stage::Stamping(_) => reply is Matrix,
        Stage::Factorizing(_) => reply is Factorization,
        Stage::Solving(_) => reply is Solution,
        Stage::Comparing => reply is Close,
        Stage::Predicting => reply is Predictions,
        Stage::Done => false,
    }
}

/// What holds of a tick and of where it goes from there.
spec fn goes_on<F>(
    shape: IslandShape,
    state: IslandState<F>,
    limit: int,
    progress: Progress<F>,
) -> bool {
    &&& is_tick(shape, progress.tick)
    &&& requests_left(progress.tick) < limit
    &&& 0 <= requests_left(progress.tick)
    &&& progress.request is Finished ==> progress.state.solution_valid
    &&& !(progress.request is Finished) ==> progress.state.solution_valid == state.solution_valid
}

proof fn lemma_begun<F>(shape: IslandShape, state: IslandState<F>, tick: TickModel, limit: int)
    requires
        tick.control.wf(),
        needs_drivers(tick.control.action) ==> shape.discrete is Some,
        !(tick.control.action is FollowDrivers),
        tick.control.action is Finish ==> state.solution_valid,
        tick.rounds_left <= DISCRETE_CLOSURE_MAX_ROUNDS,
        limit > if tick.control.action is Evaluate {
            (NONLINEAR_MAX_ITERATIONS - tick.control.iterations_used) * 1000 + 600
        } else if tick.control.action is Finish || tick.control.action is Fail {
            0
        } else {
            (NONLINEAR_MAX_ITERATIONS - tick.control.iterations_used) * 1000 + 10
        },
    ensures
        goes_on(shape, state, limit, begun(shape, state, tick)),
        tick.control.action is Finish ==> begun(shape, state, tick).request is Finished,
{
    reveal(begun);
}

proof fn lemma_round<F>(
    shape: IslandShape,
    plan: CompiledDiscretePlan,
    state: IslandState<F>,
    tick: TickModel,
    limit: int,
)
    requires
        tick.control.wf(),
        shape.discrete is Some,
        tick.control.action is FollowDrivers,
        tick.rounds_left <= DISCRETE_CLOSURE_MAX_ROUNDS,
        limit > (NONLINEAR_MAX_ITERATIONS - tick.control.iterations_used) * 1000 + 20 + 2
            * tick.rounds_left,
    ensures
        goes_on(shape, state, limit, round(shape, plan, state, tick)),
{
    reveal(round);
    reveal(followed);
    let budget = TickModel {
        control: next_control(
            tick.control,
            SolveEvent::Followed(ClosureOutcome::BudgetExceeded),
        ),
        ..tick
    };
    let barrier = TickModel {
        control: next_control(tick.control, SolveEvent::Followed(ClosureOutcome::Barrier)),
        ..tick
    };
    lemma_begun(shape, state, budget, limit);
    lemma_begun(shape, state, barrier, limit);
}

proof fn lemma_after<F>(
    shape: IslandShape,
    state: IslandState<F>,
    tick: TickModel,
    event: SolveEvent,
    limit: int,
)
    requires
        tick.control.wf(),
        needs_drivers(tick.control.action) ==> shape.discrete is Some,
        answers(tick.control.action, event),
        !(event is Followed),
        tick.rounds_left <= DISCRETE_CLOSURE_MAX_ROUNDS,
        event matches SolveEvent::Solved { converged } ==> (converged
            || tick.control.action is SolveLinear ==> state.solution_valid),
        limit >= (NONLINEAR_MAX_ITERATIONS - tick.control.iterations_used) * 1000 + if event is Solved {
            2int
        } else {
            600
        },
    ensures
        goes_on(shape, state, limit, after(shape, state, tick, event)),
        (event matches SolveEvent::Solved { converged } && (converged
            || tick.control.action is SolveLinear)) ==> after(
            shape,
            state,
            tick,
            event,
        ).request is Finished,
{
    reveal(after);
    let control = next_control(tick.control, event);
    let next = TickModel { control, ..tick };
    if control.action is FollowDrivers {
        lemma_round(
            shape,
            shape.discrete->Some_0,
            IslandState { current: state.solution, ..state },
            TickModel { rounds_left: DISCRETE_CLOSURE_MAX_ROUNDS as nat, ..next },
            limit,
        );
    } else {
        lemma_begun(shape, state, next, limit);
    }
}

proof fn lemma_resumed<F>(
    shape: IslandShape,
    state: IslandState<F>,
    tick: TickModel,
    reply: Reply<F>,
)
    requires
        is_tick(shape, tick),
        is_answer(tick.stage, reply),
        !state.solution_valid,
    ensures
        goes_on(shape, state, requests_left(tick), resumed(shape, state, tick, reply)),
{
    let limit = requests_left(tick);
    match (tick.stage, reply) {
        (_, Reply::Values(values)) => {
            reveal(computed);
            let given = IslandState { values: values@, ..state };
            match tick.stage {
                Stage::Tick => {
                    reveal(started);
                    let start = SolveStart {
                        nonlinear: shape.plan.requires_nonlinear_iteration,
                        discrete: shape.discrete is Some,
                        resumable: tick.had_solution && !given.matrix_dirty && given.factorized(
                            shape,
                        ) && given.rhs_reference_valid,
                    };
                    lemma_begun(
                        shape,
                        given.with_latches(shape, true),
                        TickModel {
                            control: SolveControl {
                                action: first_action(start),
                                iterations_used: 0,
                            },
                            ..tick
                        },
                        limit,
                    );
                },
                Stage::Evaluating { which, solved } => {
                    reveal(evaluated);
                    match tick.control.action {
                        SolveAction::SolveLinear => lemma_after(
                            shape,
                            IslandState { solution_valid: true, ..given },
                            tick,
                            SolveEvent::Solved { converged: true },
                            limit,
                        ),
                        SolveAction::Evaluate => lemma_after(
                            shape,
                            given,
                            tick,
                            SolveEvent::Evaluated { stable: given.is_stable(shape) },
                            limit,
                        ),
                        SolveAction::FollowDrivers => lemma_round(
                            shape,
                            shape.discrete->Some_0,
                            given,
                            tick,
                            limit,
                        ),
                        _ => {},
                    }
                },
                _ => {},
            }
        },
        (Stage::Stamping(_), Reply::Matrix(_)) => {
            reveal(stamped);
        },
        (Stage::Factorizing(_), Reply::Factorization(_)) => {
            reveal(factored);
        },
        (Stage::Solving(_), Reply::Solution(_)) => {
            reveal(solved_to);
        },
        (Stage::Comparing, Reply::Close(close)) => {
            reveal(compared);
            let stable = state.is_stable(shape);
            let exact = state.sources_match(shape) && state.rhs_matches(shape);
            let converged = close && stable;
            let verified = stable && (exact || close);
            lemma_after(
                shape,
                if converged {
                    IslandState {
                        solution: state.current,
                        current: state.solution,
                        solution_valid: true,
                        ..state
                    }
                } else {
                    state
                },
                tick,
                SolveEvent::Solved { converged },
                limit,
            );
            lemma_after(
                shape,
                if converged {
                    IslandState {
                        solution: state.next,
                        next: state.solution,
                        solution_valid: true,
                        ..state
                    }
                } else {
                    IslandState { current: state.next, next: state.current, ..state }
                },
                tick,
                SolveEvent::Solved { converged },
                limit,
            );
            lemma_after(
                shape,
                IslandState {
                    solution: state.next,
                    next: state.solution,
                    solution_valid: state.solution_valid || verified,
                    ..state
                },
                tick,
                SolveEvent::Solved { converged: verified },
                limit,
            );
        },
        (Stage::Predicting, Reply::Predictions(predictions)) => {
            reveal(rounded);
            reveal(followed);
            let plan = shape.discrete->Some_0;
            let count = plan.drivers@.len() as int;
            let moved = IslandState {
                current: driven(plan, state.current, predictions@, count),
                ..state
            };
            let invalid = SolveEvent::Followed(ClosureOutcome::InvalidPrediction);
            let settled = SolveEvent::Followed(ClosureOutcome::Settled);
            lemma_begun(
                shape,
                state,
                TickModel { control: next_control(tick.control, invalid), ..tick },
                limit,
            );
            lemma_begun(
                shape,
                moved,
                TickModel { control: next_control(tick.control, settled), ..tick },
                limit,
            );
        },
        _ => {},
    }
}

/// Every reply brings a tick closer to its end: there is a bound on the number of requests, which
/// each reply lowers.
pub proof fn law_ticks_end<F>(
    shape: IslandShape,
    state: IslandState<F>,
    tick: TickModel,
    reply: Reply<F>,
)
    requires
        is_tick(shape, tick),
        is_answer(tick.stage, reply),
        !state.solution_valid,
    ensures
        is_tick(shape, resumed(shape, state, tick, reply).tick),
        0 <= requests_left(resumed(shape, state, tick, reply).tick) < requests_left(tick),
{
    lemma_resumed(shape, state, tick, reply);
}

/// The solution of an island is valid exactly once the tick has finished: as long as the tick goes
/// on, and where it fails, nothing can be observed.
pub proof fn law_solutions_are_valid_once_finished<F>(
    shape: IslandShape,
    state: IslandState<F>,
    tick: TickModel,
    reply: Reply<F>,
)
    requires
        is_tick(shape, tick),
        is_answer(tick.stage, reply),
        !state.solution_valid,
    ensures
        resumed(shape, state, tick, reply).state.solution_valid <==> resumed(
            shape,
            state,
            tick,
            reply,
        ).request is Finished,
{
    lemma_resumed(shape, state, tick, reply);
}

} // verus!
