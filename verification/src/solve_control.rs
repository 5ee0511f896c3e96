//! In which order an island is evaluated and solved until its solution is stable.

use crate::bindings::IslandRuntimeError;
use crate::discrete::ClosureOutcome;
use vstd::prelude::*;

verus! {

/// How often an island is solved at most until it has to be stable.
pub const NONLINEAR_MAX_ITERATIONS: usize = 128;

/// What is done next.
#[derive(Debug, Clone, Copy, PartialEq, Eq, Structural)]
pub enum SolveAction {
    /// Solve once; there is nothing that depends on the solution.
    SolveLinear,
    /// Evaluate the island with its solution, and solve it with the values that result.
    EvaluateAndVerify,
    /// Evaluate the island with its solution.
    Evaluate,
    /// Follow the discrete drivers.
    FollowDrivers,
    /// Solve the island with the values as they are.
    Verify,
    /// Evaluate the island with its solution, advance the latches, and solve.
    IterateFirst,
    /// Advance the latches and solve.
    Iterate,
    /// The solution is stable.
    Finish,
    /// The solution does not become stable.
    Fail(IslandRuntimeError),
}

/// What came of it.
#[derive(Debug, Clone, Copy, PartialEq, Eq, Structural)]
pub enum SolveEvent {
    /// The island was solved, and is stable or not.
    Solved { converged: bool },
    /// The island was evaluated; the values that have to be stable are as before or not.
    Evaluated { stable: bool },
    /// The drivers were followed.
    Followed(ClosureOutcome),
}

/// How far solving an island has got, and how often it has been solved.
#[derive(Debug, Clone, Copy, PartialEq, Eq, Structural)]
pub struct SolveControl {
    pub action: SolveAction,
    pub iterations_used: usize,
}

/// What an island is like before it is solved.
#[derive(Debug, Clone, Copy, PartialEq, Eq, Structural)]
pub struct SolveStart {
    /// Whether values depend on the solution.
    pub nonlinear: bool,
    /// Whether there are discrete drivers to follow.
    pub discrete: bool,
    /// Whether the last solution was stable, and the matrix and the right-hand side that it was
    /// solved with are known.
    pub resumable: bool,
}

/// The failure to become stable.
pub open spec fn not_converged() -> SolveAction {
    SolveAction::Fail(
        IslandRuntimeError::NonlinearDidNotConverge { iterations: NONLINEAR_MAX_ITERATIONS },
    )
}

/// The first action.
pub open spec fn first_action(start: SolveStart) -> SolveAction {
    if !start.nonlinear {
        SolveAction::SolveLinear
    } else if !start.discrete {
        SolveAction::IterateFirst
    } else if !start.resumable {
        SolveAction::EvaluateAndVerify
    } else {
        SolveAction::Evaluate
    }
}

/// What follows a solve that did not give a stable solution.
pub open spec fn after_unstable(action: SolveAction, used: int) -> SolveAction {
    if used >= NONLINEAR_MAX_ITERATIONS {
        not_converged()
    } else {
        match action {
            SolveAction::IterateFirst => SolveAction::Iterate,
            SolveAction::Iterate => SolveAction::Iterate,
            _ => SolveAction::Evaluate,
        }
    }
}

/// Whether an action solves the island.
pub open spec fn solves(action: SolveAction) -> bool {
    action is SolveLinear || action is EvaluateAndVerify || action is Verify
        || action is IterateFirst || action is Iterate
}

/// Whether an event can be what came of an action.
pub open spec fn answers(action: SolveAction, event: SolveEvent) -> bool {
    match event {
        SolveEvent::Solved { .. } => solves(action),
        SolveEvent::Evaluated { .. } => action is Evaluate,
        SolveEvent::Followed(_) => action is FollowDrivers,
    }
}

/// What comes next.
pub open spec fn next_control(control: SolveControl, event: SolveEvent) -> SolveControl {
    let used = control.iterations_used;
    match event {
        SolveEvent::Solved { converged } => {
            let now = (used + 1) as usize;
            if converged || control.action is SolveLinear {
                SolveControl { action: SolveAction::Finish, iterations_used: now }
            } else {
                SolveControl {
                    action: after_unstable(control.action, now as int),
                    iterations_used: now,
                }
            }
        },
        SolveEvent::Evaluated { stable } => SolveControl {
            action: if stable {
                SolveAction::Verify
            } else {
                SolveAction::FollowDrivers
            },
            iterations_used: used,
        },
        SolveEvent::Followed(outcome) => SolveControl {
            action: match outcome {
                ClosureOutcome::Settled => SolveAction::Verify,
                ClosureOutcome::Barrier => SolveAction::Verify,
                ClosureOutcome::BudgetExceeded => SolveAction::IterateFirst,
                ClosureOutcome::InvalidPrediction => SolveAction::IterateFirst,
            },
            iterations_used: used,
        },
    }
}

impl SolveControl {
    /// The island has been solved less often than it may be, as long as it is not done.
    pub open spec fn wf(self) -> bool {
        &&& self.iterations_used <= NONLINEAR_MAX_ITERATIONS
        &&& !(self.action is Finish || self.action is Fail) ==> self.iterations_used
            < NONLINEAR_MAX_ITERATIONS
        &&& self.action is SolveLinear ==> self.iterations_used == 0
        &&& self.action is Fail ==> self.action == not_converged() && self.iterations_used
            == NONLINEAR_MAX_ITERATIONS
    }

    pub fn new(start: SolveStart) -> (result: Self)
        ensures
            result.wf(),
            result.action == first_action(start),
            result.iterations_used == 0,
    {
        let action = if !start.nonlinear {
            SolveAction::SolveLinear
        } else if !start.discrete {
            SolveAction::IterateFirst
        } else if !start.resumable {
            SolveAction::EvaluateAndVerify
        } else {
            SolveAction::Evaluate
        };
        SolveControl { action, iterations_used: 0 }
    }

    /// Decides what comes next.
    pub fn advance(self, event: SolveEvent) -> (result: Self)
        requires
            self.wf(),
            answers(self.action, event),
        ensures
            result.wf(),
            result == next_control(self, event),
    {
        let used: usize = self.iterations_used;
        match event {
            SolveEvent::Solved { converged } => {
                let now: usize = used + 1;
                let action = match self.action {
                    SolveAction::SolveLinear => SolveAction::Finish,
                    _ => if converged {
                        SolveAction::Finish
                    } else if now >= NONLINEAR_MAX_ITERATIONS {
                        SolveAction::Fail(
                            IslandRuntimeError::NonlinearDidNotConverge {
                                iterations: NONLINEAR_MAX_ITERATIONS,
                            },
                        )
                    } else {
                        match self.action {
                            SolveAction::IterateFirst => SolveAction::Iterate,
                            SolveAction::Iterate => SolveAction::Iterate,
                            _ => SolveAction::Evaluate,
                        }
                    },
                };
                SolveControl { action, iterations_used: now }
            },
            SolveEvent::Evaluated { stable } => {
                let action = if stable {
                    SolveAction::Verify
                } else {
                    SolveAction::FollowDrivers
                };
                SolveControl { action, iterations_used: used }
            },
            SolveEvent::Followed(outcome) => {
                let action = match outcome {
                    ClosureOutcome::Settled => SolveAction::Verify,
                    ClosureOutcome::Barrier => SolveAction::Verify,
                    ClosureOutcome::BudgetExceeded => SolveAction::IterateFirst,
                    ClosureOutcome::InvalidPrediction => SolveAction::IterateFirst,
                };
                SolveControl { action, iterations_used: used }
            },
        }
    }
}

/// The control after the first events.
pub open spec fn control_after(start: SolveStart, events: Seq<SolveEvent>) -> SolveControl
    decreases events.len(),
{
    if events.len() == 0 {
        SolveControl { action: first_action(start), iterations_used: 0 }
    } else {
        next_control(control_after(start, events.drop_last()), events.last())
    }
}

/// Whether each event answers the action before it.
pub open spec fn answered(start: SolveStart, events: Seq<SolveEvent>) -> bool
    decreases events.len(),
{
    if events.len() == 0 {
        true
    } else {
        answered(start, events.drop_last()) && answers(
            control_after(start, events.drop_last()).action,
            events.last(),
        )
    }
}

/// How often the island was solved.
pub open spec fn solve_count(events: Seq<SolveEvent>) -> int
    decreases events.len(),
{
    if events.len() == 0 {
        0
    } else {
        solve_count(events.drop_last()) + if events.last() is Solved {
            1int
        } else {
            0
        }
    }
}

/// Whatever comes of the actions, an island is solved at most 128 times before it is done, whether
/// drivers are followed or not.
pub proof fn law_solves_are_bounded(start: SolveStart, events: Seq<SolveEvent>)
    requires
        answered(start, events),
    ensures
        control_after(start, events).wf(),
        control_after(start, events).iterations_used == solve_count(events),
        solve_count(events) <= NONLINEAR_MAX_ITERATIONS,
    decreases events.len(),
{
    if events.len() > 0 {
        law_solves_are_bounded(start, events.drop_last());
    }
}

/// An island with values that depend on the solution is finished only by a solve that was stable,
/// and fails only once all solves are used up.
pub proof fn law_finished_islands_are_stable(start: SolveStart, events: Seq<SolveEvent>)
    requires
        answered(start, events),
        start.nonlinear,
    ensures
        control_after(start, events).action is Finish ==> events.len() > 0 && events.last() == (
        SolveEvent::Solved { converged: true }),
        control_after(start, events).action is Fail ==> solve_count(events)
            == NONLINEAR_MAX_ITERATIONS,
    decreases events.len(),
{
    law_solves_are_bounded(start, events);
    if events.len() > 0 {
        lemma_never_linear(start, events.drop_last());
    }
}

/// Where values depend on the solution, the island is never solved as if they did not.
proof fn lemma_never_linear(start: SolveStart, events: Seq<SolveEvent>)
    requires
        answered(start, events),
        start.nonlinear,
    ensures
        !(control_after(start, events).action is SolveLinear),
    decreases events.len(),
{
    if events.len() > 0 {
        lemma_never_linear(start, events.drop_last());
    }
}

/// Between two solves, an island is evaluated once and its drivers are followed once at most: after
/// three events at the latest it has been solved again.
pub proof fn law_solves_come_soon(control: SolveControl, first: SolveEvent, second: SolveEvent)
    requires
        control.wf(),
        control.action is Evaluate,
        answers(control.action, first),
        answers(next_control(control, first).action, second),
    ensures
        second is Solved || solves(next_control(next_control(control, first), second).action),
{
}

} // verus!
