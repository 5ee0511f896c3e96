//! Following discrete drivers until their outputs settle, without solving the island anew.

use crate::float_bits::{float_eq, float_eq_bits, is_finite, is_finite_bits};
use crate::matrix_program::ValueSlot;
use crate::pattern::UnknownIndex;
use crate::workspace::ValueWorkspace;
use vstd::prelude::*;

verus! {

/// How often outputs are followed at most.
pub const DISCRETE_CLOSURE_MAX_ROUNDS: usize = 128;

/// How following the drivers ended.
#[derive(Debug, Clone, Copy, PartialEq, Eq, Structural)]
pub enum ClosureOutcome {
    Settled,
    Barrier,
    BudgetExceeded,
    InvalidPrediction,
}

/// A driver pulls an unknown towards a high and a low rail; a rail without an unknown is at zero.
#[derive(Debug, Clone, Copy, PartialEq, Eq, Structural)]
pub struct ComplementaryDriver {
    pub output: UnknownIndex,
    pub high_rail: Option<UnknownIndex>,
    pub low_rail: Option<UnknownIndex>,
    pub pull_up: ValueSlot,
    pub pull_down: ValueSlot,
}

/// A value that the matrix was factorized with.
#[derive(Debug, Clone, Copy, PartialEq, Eq, Structural)]
pub struct MatrixBarrier {
    pub source: ValueSlot,
    pub factorized_source_index: usize,
}

/// The drivers of an island, and the values that must not change while they are followed.
#[derive(Debug)]
pub struct CompiledDiscretePlan {
    pub drivers: Vec<ComplementaryDriver>,
    pub matrix_barriers: Vec<MatrixBarrier>,
    pub rhs_barriers: Vec<ValueSlot>,
}

/// Whether a rail is one of the unknowns.
pub open spec fn rail_fits(rail: Option<UnknownIndex>, dimension: int) -> bool {
    rail matches Some(unknown) ==> unknown.value() < dimension
}

impl CompiledDiscretePlan {
    /// Whether the plan is about these values and unknowns.
    pub open spec fn fits(self, value_count: int, dimension: int, source_count: int) -> bool {
        &&& forall|k: int|
            0 <= k < self.drivers@.len() ==> {
                let driver = #[trigger] self.drivers@[k];
                &&& driver.output.value() < dimension
                &&& rail_fits(driver.high_rail, dimension)
                &&& rail_fits(driver.low_rail, dimension)
                &&& driver.pull_up.value() < value_count
                &&& driver.pull_down.value() < value_count
            }
        &&& forall|k: int|
            0 <= k < self.matrix_barriers@.len() ==> (
            #[trigger] self.matrix_barriers@[k]).source.value() < value_count
                && self.matrix_barriers@[k].factorized_source_index < source_count
        &&& forall|k: int|
            0 <= k < self.rhs_barriers@.len() ==> (#[trigger] self.rhs_barriers@[k]).value()
                < value_count
    }
}

/// Whether a value that the matrix was factorized with has changed.
pub open spec fn matrix_barrier_changed(
    plan: CompiledDiscretePlan,
    values: Seq<u64>,
    factorized: Seq<u64>,
) -> bool {
    exists|k: int|
        0 <= k < plan.matrix_barriers@.len() && !float_eq(
            values[(#[trigger] plan.matrix_barriers@[k]).source.value() as int],
            factorized[plan.matrix_barriers@[k].factorized_source_index as int],
        )
}

/// Whether a value that the right-hand side was made of has changed.
pub open spec fn rhs_barrier_changed(
    plan: CompiledDiscretePlan,
    values: Seq<u64>,
    reference: Seq<u64>,
) -> bool {
    exists|k: int|
        0 <= k < plan.rhs_barriers@.len() && !float_eq(
            values[(#[trigger] plan.rhs_barriers@[k]).value() as int],
            reference[k],
        )
}

/// Whether something has changed that the island was solved with.
fn barriers_changed(
    plan: &CompiledDiscretePlan,
    workspace: &ValueWorkspace,
    factorized: &Vec<u64>,
    reference: &Vec<u64>,
    Ghost(dimension): Ghost<int>,
) -> (result: bool)
    requires
        plan.fits(workspace@.len() as int, dimension, factorized@.len() as int),
        reference@.len() == plan.rhs_barriers@.len(),
    ensures
        result == (matrix_barrier_changed(*plan, workspace@, factorized@) || rhs_barrier_changed(
            *plan,
            workspace@,
            reference@,
        )),
{
    let mut index: usize = 0;
    while index < plan.matrix_barriers.len()
        invariant
            plan.fits(workspace@.len() as int, dimension, factorized@.len() as int),
            index <= plan.matrix_barriers@.len(),
            forall|k: int|
                0 <= k < index ==> float_eq(
                    workspace@[(#[trigger] plan.matrix_barriers@[k]).source.value() as int],
                    factorized@[plan.matrix_barriers@[k].factorized_source_index as int],
                ),
        decreases plan.matrix_barriers@.len() - index,
    {
        let barrier = plan.matrix_barriers[index];
        assert(plan.matrix_barriers@[index as int].source.value() < workspace@.len());
        if !float_eq_bits(
            workspace.value(barrier.source),
            factorized[barrier.factorized_source_index],
        ) {
            return true;
        }
        index = index + 1;
    }
    let mut at: usize = 0;
    while at < plan.rhs_barriers.len()
        invariant
            plan.fits(workspace@.len() as int, dimension, factorized@.len() as int),
            reference@.len() == plan.rhs_barriers@.len(),
            at <= plan.rhs_barriers@.len(),
            !matrix_barrier_changed(*plan, workspace@, factorized@),
            forall|k: int|
                0 <= k < at ==> float_eq(
                    workspace@[(#[trigger] plan.rhs_barriers@[k]).value() as int],
                    reference@[k],
                ),
        decreases plan.rhs_barriers@.len() - at,
    {
        assert(plan.rhs_barriers@[at as int].value() < workspace@.len());
        if !float_eq_bits(workspace.value(plan.rhs_barriers[at]), reference[at]) {
            return true;
        }
        at = at + 1;
    }
    false
}

/// The voltage of a rail.
pub open spec fn rail_voltage(solution: Seq<u64>, rail: Option<UnknownIndex>) -> u64 {
    match rail {
        Some(unknown) => solution[unknown.value() as int],
        None => 0,
    }
}

fn unknown_voltage(solution: &Vec<u64>, rail: Option<UnknownIndex>) -> (result: u64)
    requires
        rail_fits(rail, solution@.len() as int),
    ensures
        result == rail_voltage(solution@, rail),
{
    match rail {
        Some(unknown) => solution[unknown.index()],
        None => 0,
    }
}

/// What a driver's output is computed from, as bit patterns.
#[derive(Debug, Clone, Copy, PartialEq, Eq, Structural)]
pub struct DriverInputs {
    pub pull_up: u64,
    pub pull_down: u64,
    pub high: u64,
    pub low: u64,
}

/// What is computed for a driver, as bit patterns: the sum of its pulls, and its output.
#[derive(Debug, Clone, Copy, PartialEq, Eq, Structural)]
pub struct DriverPrediction {
    pub denominator: u64,
    pub output: u64,
}

/// What a driver's output is computed from.
pub open spec fn inputs_of(
    driver: ComplementaryDriver,
    values: Seq<u64>,
    predicted: Seq<u64>,
) -> DriverInputs {
    DriverInputs {
        pull_up: values[driver.pull_up.value() as int],
        pull_down: values[driver.pull_down.value() as int],
        high: rail_voltage(predicted, driver.high_rail),
        low: rail_voltage(predicted, driver.low_rail),
    }
}

/// Whether an output can be used: it comes from finite numbers, is not divided by zero, and is
/// finite.
pub open spec fn usable(inputs: DriverInputs, prediction: DriverPrediction) -> bool {
    &&& is_finite(inputs.pull_up)
    &&& is_finite(inputs.pull_down)
    &&& is_finite(inputs.high)
    &&& is_finite(inputs.low)
    &&& is_finite(prediction.denominator)
    &&& !float_eq(prediction.denominator, 0)
    &&& is_finite(prediction.output)
}

/// What the outputs of the drivers are computed from.
pub fn driver_inputs(
    plan: &CompiledDiscretePlan,
    workspace: &ValueWorkspace,
    predicted: &Vec<u64>,
) -> (result: Vec<DriverInputs>)
    requires
        exists|source_count: int| #[trigger]
            plan.fits(workspace@.len() as int, predicted@.len() as int, source_count),
    ensures
        result@.len() == plan.drivers@.len(),
        forall|k: int|
            0 <= k < result@.len() ==> #[trigger] result@[k] == inputs_of(
                plan.drivers@[k],
                workspace@,
                predicted@,
            ),
{
    let ghost source_count = choose|source_count: int| #[trigger]
        plan.fits(workspace@.len() as int, predicted@.len() as int, source_count);
    let mut inputs: Vec<DriverInputs> = Vec::new();
    while inputs.len() < plan.drivers.len()
        invariant
            plan.fits(workspace@.len() as int, predicted@.len() as int, source_count),
            inputs@.len() <= plan.drivers@.len(),
            forall|k: int|
                0 <= k < inputs@.len() ==> #[trigger] inputs@[k] == inputs_of(
                    plan.drivers@[k],
                    workspace@,
                    predicted@,
                ),
        decreases plan.drivers@.len() - inputs@.len(),
    {
        let driver = plan.drivers[inputs.len()];
        assert(plan.drivers@[inputs@.len() as int] == driver);
        inputs.push(
            DriverInputs {
                pull_up: workspace.value(driver.pull_up),
                pull_down: workspace.value(driver.pull_down),
                high: unknown_voltage(predicted, driver.high_rail),
                low: unknown_voltage(predicted, driver.low_rail),
            },
        );
    }
    inputs
}

/// The solution once the outputs of the first drivers have been put into it.
pub open spec fn driven(
    plan: CompiledDiscretePlan,
    predicted: Seq<u64>,
    predictions: Seq<DriverPrediction>,
    count: int,
) -> Seq<u64>
    decreases count,
{
    if count <= 0 {
        predicted
    } else {
        driven(plan, predicted, predictions, count - 1).update(
            plan.drivers@[count - 1].output.value() as int,
            predictions[count - 1].output,
        )
    }
}

/// Whether one of the first outputs differs from what was there when it was put in.
pub open spec fn output_changed(
    plan: CompiledDiscretePlan,
    predicted: Seq<u64>,
    predictions: Seq<DriverPrediction>,
    count: int,
) -> bool
    decreases count,
{
    if count <= 0 {
        false
    } else {
        output_changed(plan, predicted, predictions, count - 1) || !float_eq(
            driven(plan, predicted, predictions, count - 1)[plan.drivers@[count
                - 1].output.value() as int],
            predictions[count - 1].output,
        )
    }
}

/// Whether all outputs can be used.
pub open spec fn all_usable(
    plan: CompiledDiscretePlan,
    values: Seq<u64>,
    predicted: Seq<u64>,
    predictions: Seq<DriverPrediction>,
) -> bool {
    forall|k: int|
        0 <= k < plan.drivers@.len() ==> usable(
            inputs_of(#[trigger] plan.drivers@[k], values, predicted),
            predictions[k],
        )
}

/// What comes next while drivers are followed.
#[derive(Debug, Clone, Copy, PartialEq, Eq, Structural)]
pub enum ClosureStep {
    /// Compute the outputs of the drivers.
    Predict,
    /// Evaluate the island with the predicted solution.
    Evaluate,
    Finished(ClosureOutcome),
}

/// Following the drivers, a number of rounds at most.
#[derive(Debug, Clone, Copy, PartialEq, Eq, Structural)]
pub struct ClosureRun {
    rounds_left: usize,
}

impl ClosureRun {
    pub closed spec fn spec_rounds_left(self) -> nat {
        self.rounds_left as nat
    }

    /// With the usual number of rounds.
    pub fn new() -> (result: Self)
        ensures
            result.spec_rounds_left() == DISCRETE_CLOSURE_MAX_ROUNDS,
    {
        Self::with_limit(DISCRETE_CLOSURE_MAX_ROUNDS)
    }

    pub fn with_limit(max_rounds: usize) -> (result: Self)
        ensures
            result.spec_rounds_left() == max_rounds,
    {
        ClosureRun { rounds_left: max_rounds }
    }

    /// Begins a round, on values that the predicted solution was evaluated to. Nothing the island
    /// was solved with may have changed.
    pub fn begin_round(
        &self,
        plan: &CompiledDiscretePlan,
        workspace: &ValueWorkspace,
        factorized: &Vec<u64>,
        reference: &Vec<u64>,
    ) -> (result: ClosureStep)
        requires
            exists|dimension: int| #[trigger]
                plan.fits(workspace@.len() as int, dimension, factorized@.len() as int),
            reference@.len() == plan.rhs_barriers@.len(),
        ensures
            result == if self.spec_rounds_left() == 0 {
                ClosureStep::Finished(ClosureOutcome::BudgetExceeded)
            } else if matrix_barrier_changed(*plan, workspace@, factorized@)
                || rhs_barrier_changed(*plan, workspace@, reference@) {
                ClosureStep::Finished(ClosureOutcome::Barrier)
            } else {
                ClosureStep::Predict
            },
    {
        if self.rounds_left == 0 {
            return ClosureStep::Finished(ClosureOutcome::BudgetExceeded);
        }
        let ghost dimension = choose|dimension: int| #[trigger]
            plan.fits(workspace@.len() as int, dimension, factorized@.len() as int);
        if barriers_changed(plan, workspace, factorized, reference, Ghost(dimension)) {
            return ClosureStep::Finished(ClosureOutcome::Barrier);
        }
        ClosureStep::Predict
    }

    /// Finishes a round, with what was computed for the drivers: all outputs are put into the
    /// solution at once.
    pub fn finish_round(
        &mut self,
        plan: &CompiledDiscretePlan,
        workspace: &ValueWorkspace,
        predicted: &mut Vec<u64>,
        predictions: &Vec<DriverPrediction>,
    ) -> (result: ClosureStep)
        requires
            old(self).spec_rounds_left() > 0,
            exists|source_count: int| #[trigger]
                plan.fits(workspace@.len() as int, old(predicted)@.len() as int, source_count),
            predictions@.len() == plan.drivers@.len(),
        ensures
            if !all_usable(*plan, workspace@, old(predicted)@, predictions@) {
                &&& result == ClosureStep::Finished(ClosureOutcome::InvalidPrediction)
                &&& final(predicted)@ == old(predicted)@
                &&& *final(self) == *old(self)
            } else {
                let count = plan.drivers@.len() as int;
                &&& final(predicted)@ == driven(*plan, old(predicted)@, predictions@, count)
                &&& if output_changed(*plan, old(predicted)@, predictions@, count) {
                    &&& result == ClosureStep::Evaluate
                    &&& final(self).spec_rounds_left() == old(self).spec_rounds_left() - 1
                } else {
                    &&& result == ClosureStep::Finished(ClosureOutcome::Settled)
                    &&& *final(self) == *old(self)
                }
            },
    {
        let ghost source_count = choose|source_count: int| #[trigger]
            plan.fits(workspace@.len() as int, old(predicted)@.len() as int, source_count);
        let ghost before = predicted@;
        let inputs = driver_inputs(plan, workspace, predicted);
        let mut index: usize = 0;
        while index < inputs.len()
            invariant
                predicted@ == before,
                inputs@.len() == plan.drivers@.len() == predictions@.len(),
                forall|k: int|
                    0 <= k < inputs@.len() ==> #[trigger] inputs@[k] == inputs_of(
                        plan.drivers@[k],
                        workspace@,
                        before,
                    ),
                index <= inputs@.len(),
                forall|k: int|
                    0 <= k < index ==> usable(
                        inputs_of(#[trigger] plan.drivers@[k], workspace@, before),
                        predictions@[k],
                    ),
                *self == *old(self),
                before == old(predicted)@,
            decreases inputs@.len() - index,
        {
            let input = inputs[index];
            let prediction = predictions[index];
            assert(inputs@[index as int] == input);
            if !is_finite_bits(input.pull_up) || !is_finite_bits(input.pull_down)
                || !is_finite_bits(input.high) || !is_finite_bits(input.low) || !is_finite_bits(
                prediction.denominator,
            ) || float_eq_bits(prediction.denominator, 0) || !is_finite_bits(prediction.output) {
                assert(!usable(
                    inputs_of(plan.drivers@[index as int], workspace@, before),
                    predictions@[index as int],
                ));
                return ClosureStep::Finished(ClosureOutcome::InvalidPrediction);
            }
            index = index + 1;
        }
        let mut changed = false;
        let mut at: usize = 0;
        while at < plan.drivers.len()
            invariant
                plan.fits(workspace@.len() as int, before.len() as int, source_count),
                plan.drivers@.len() == predictions@.len(),
                at <= plan.drivers@.len(),
                predicted@.len() == before.len(),
                predicted@ == driven(*plan, before, predictions@, at as int),
                changed == output_changed(*plan, before, predictions@, at as int),
            decreases plan.drivers@.len() - at,
        {
            assert(plan.drivers@[at as int].output.value() < before.len());
            let destination: usize = plan.drivers[at].output.index();
            let output: u64 = predictions[at].output;
            if !float_eq_bits(predicted[destination], output) {
                changed = true;
            }
            predicted.set(destination, output);
            at = at + 1;
        }
        if !changed {
            return ClosureStep::Finished(ClosureOutcome::Settled);
        }
        self.rounds_left = self.rounds_left - 1;
        ClosureStep::Evaluate
    }
}

/// Where no output changed, putting the outputs in has changed no number of the solution.
pub proof fn law_settled_solution_is_fixed(
    plan: CompiledDiscretePlan,
    predicted: Seq<u64>,
    predictions: Seq<DriverPrediction>,
    count: int,
    unknown: int,
)
    requires
        0 <= count <= plan.drivers@.len(),
        predictions.len() == plan.drivers@.len(),
        0 <= unknown < predicted.len(),
        !output_changed(plan, predicted, predictions, count),
        forall|k: int|
            0 <= k < plan.drivers@.len() ==> (#[trigger] plan.drivers@[k]).output.value()
                < predicted.len(),
    ensures
        driven(plan, predicted, predictions, count).len() == predicted.len(),
        driven(plan, predicted, predictions, count)[unknown] == predicted[unknown] || float_eq(
            driven(plan, predicted, predictions, count)[unknown],
            predicted[unknown],
        ),
    decreases count,
{
    if count > 0 {
        law_settled_solution_is_fixed(plan, predicted, predictions, count - 1, unknown);
        let output = plan.drivers@[count - 1].output.value() as int;
        law_settled_solution_is_fixed(plan, predicted, predictions, count - 1, output);
    }
}

} // verus!
