//! Solving an island tick by tick.
//!
//! The values, the solution and the marks of an island are kept here, and so are the decisions. What
//! takes floating-point arithmetic (executing programs, factorizing, solving, comparing within a
//! tolerance) is done by the caller, between the steps.

use crate::bindings::{
    bound_inputs, bound_outputs, bound_parameters, missing_device, parameter_targets, state_failure,
    CompiledPartitionInputs, InputSlot, IslandBindings, IslandRuntimeError, IslandStateLayout,
    ParameterInputBinding, PhysicalStateAddress, PhysicalStateError, StateInputBinding,
    StateOutputBinding, StateSlot, StateWrite,
};
use crate::device_arena::DeviceLocation;
use crate::discrete::CompiledDiscretePlan;
use crate::float_bits::{float_eq, float_eq_bits, is_finite, is_finite_bits};
use crate::matrix_program::ValueSlot;
use crate::mna_system::{is_countable, MnaError, MnaSystem, SolverFailure};
use crate::network::Network;
use crate::pattern::{MnaPattern, UnknownIndex};
use crate::solve_control::{first_action, SolveControl, SolveStart};
use crate::workspace::ValueWorkspace;
use vstd::prelude::*;

verus! {

/// An input that keeps its value during one evaluation and is then updated.
#[derive(Debug, Clone, Copy, PartialEq, Eq, Structural)]
pub struct IterationLatch {
    pub input: InputSlot,
    pub initial: ValueSlot,
    pub update: ValueSlot,
}

/// What the programs of an island read and write.
#[derive(Debug)]
pub struct IslandPlan {
    pub value_count: usize,
    pub timestep_input: Option<InputSlot>,
    pub state_inputs: Vec<(StateSlot, InputSlot)>,
    pub state_writes: Vec<StateWrite>,
    pub solution_inputs: Vec<(UnknownIndex, InputSlot)>,
    pub iteration_latches: Vec<IterationLatch>,
    pub iteration_matrix_sources: Vec<ValueSlot>,
    pub iteration_stability_values: Vec<ValueSlot>,
    pub requires_nonlinear_iteration: bool,
    /// For each value, whether the matrix depends on it where it is a parameter.
    pub matrix_inputs: Vec<bool>,
}

/// Whether all slots are among the values.
pub open spec fn slots_fit(slots: Seq<ValueSlot>, count: int) -> bool {
    forall|i: int| 0 <= i < slots.len() ==> (#[trigger] slots[i]).value() < count
}

impl IslandPlan {
    pub open spec fn wf(self, dimension: int) -> bool {
        &&& self.timestep_input matches Some(input) ==> input.spec_value() < self.value_count
        &&& forall|i: int|
            0 <= i < self.state_inputs@.len() ==> (#[trigger] self.state_inputs@[i]).1.spec_value()
                < self.value_count
        &&& forall|i: int|
            0 <= i < self.state_writes@.len() ==> (#[trigger] self.state_writes@[i]).source.value()
                < self.value_count
        &&& forall|i: int|
            0 <= i < self.solution_inputs@.len() ==> (
            #[trigger] self.solution_inputs@[i]).0.value() < dimension
                && self.solution_inputs@[i].1.spec_value() < self.value_count
        &&& forall|i: int|
            0 <= i < self.iteration_latches@.len() ==> {
                let latch = #[trigger] self.iteration_latches@[i];
                &&& latch.input.spec_value() < self.value_count
                &&& latch.initial.value() < self.value_count
                &&& latch.update.value() < self.value_count
            }
        &&& slots_fit(self.iteration_matrix_sources@, self.value_count as int)
        &&& slots_fit(self.iteration_stability_values@, self.value_count as int)
        &&& self.matrix_inputs@.len() == self.value_count
    }
}

/// A value that can be observed from outside.
#[derive(Debug, Clone, Copy, PartialEq, Eq, Structural)]
pub struct ObserverOutput {
    pub observer: u64,
    pub value: ValueSlot,
}

/// Which of the static values changed.
#[derive(Debug, Clone, Copy, PartialEq, Eq, Structural)]
pub struct StaticChanges {
    pub values: bool,
    pub matrix: bool,
}

/// The values of slots.
pub open spec fn values_at(values: Seq<u64>, slots: Seq<ValueSlot>) -> Seq<u64> {
    Seq::new(slots.len(), |i: int| values[slots[i].value() as int])
}

/// Whether two lists of numbers are equal.
pub open spec fn all_equal(a: Seq<u64>, b: Seq<u64>) -> bool {
    &&& a.len() == b.len()
    &&& forall|i: int| 0 <= i < a.len() ==> float_eq(#[trigger] a[i], b[i])
}

/// Whether all numbers are finite.
pub open spec fn all_finite(values: Seq<u64>) -> bool {
    forall|i: int| 0 <= i < values.len() ==> is_finite(#[trigger] values[i])
}

fn is_all_finite(values: &[u64]) -> (result: bool)
    ensures
        result == all_finite(values@),
{
    let mut index: usize = 0;
    while index < values.len()
        invariant
            index <= values@.len(),
            forall|i: int| 0 <= i < index ==> is_finite(#[trigger] values@[i]),
        decreases values@.len() - index,
    {
        if !is_finite_bits(values[index]) {
            return false;
        }
        index = index + 1;
    }
    true
}

/// Reads the values of slots.
fn capture(workspace: &ValueWorkspace, slots: &Vec<ValueSlot>) -> (result: Vec<u64>)
    requires
        slots_fit(slots@, workspace@.len() as int),
    ensures
        result@ == values_at(workspace@, slots@),
{
    let mut values: Vec<u64> = Vec::new();
    while values.len() < slots.len()
        invariant
            slots_fit(slots@, workspace@.len() as int),
            values@.len() <= slots@.len(),
            forall|i: int|
                0 <= i < values@.len() ==> #[trigger] values@[i]
                    == workspace@[slots@[i].value() as int],
        decreases slots@.len() - values@.len(),
    {
        assert(slots@[values@.len() as int].value() < workspace@.len());
        values.push(workspace.value(slots[values.len()]));
    }
    assert(values@ =~= values_at(workspace@, slots@));
    values
}

/// Whether the values of slots are exactly the expected ones.
pub fn iteration_stability_matches(expected: &Vec<u64>, actual: &Vec<u64>) -> (result: bool)
    ensures
        result == all_equal(expected@, actual@),
{
    if expected.len() != actual.len() {
        return false;
    }
    let mut index: usize = 0;
    while index < expected.len()
        invariant
            index <= expected@.len() == actual@.len(),
            forall|i: int| 0 <= i < index ==> float_eq(#[trigger] expected@[i], actual@[i]),
        decreases expected@.len() - index,
    {
        if !float_eq_bits(expected[index], actual[index]) {
            return false;
        }
        index = index + 1;
    }
    true
}

/// What the first latches make of values, each updated from the values as they are by then.
pub open spec fn latched(
    values: Seq<u64>,
    latches: Seq<IterationLatch>,
    count: int,
    first: bool,
) -> Seq<u64>
    decreases count,
{
    if count <= 0 {
        values
    } else {
        let before = latched(values, latches, count - 1, first);
        let latch = latches[count - 1];
        let source = if first {
            latch.initial
        } else {
            latch.update
        };
        before.update(latch.input.spec_value() as int, before[source.value() as int])
    }
}

/// The values once the first inputs have been filled from a solution.
pub open spec fn filled(
    values: Seq<u64>,
    inputs: Seq<(UnknownIndex, InputSlot)>,
    solution: Seq<u64>,
    count: int,
) -> Seq<u64>
    decreases count,
{
    if count <= 0 {
        values
    } else {
        filled(values, inputs, solution, count - 1).update(
            inputs[count - 1].1.spec_value() as int,
            solution[inputs[count - 1].0.value() as int],
        )
    }
}

/// What loading parameters makes of values: the values, and what changed or why it stopped.
pub open spec fn loaded(
    network: Network,
    bindings: Seq<ParameterInputBinding>,
    matrix_inputs: Seq<bool>,
    values: Seq<u64>,
    changes: StaticChanges,
    from: int,
) -> (Seq<u64>, Result<StaticChanges, IslandRuntimeError>)
    decreases bindings.len() - from,
{
    if from >= bindings.len() {
        (values, Ok(changes))
    } else {
        let binding = bindings[from];
        let slot = binding.input.spec_value() as int;
        match network.arena().spec_parameter_at(binding.location, binding.parameter) {
            None => (
                values,
                Err(IslandRuntimeError::MissingDevice { device: binding.device }),
            ),
            Some(None) => (
                values,
                Err(
                    IslandRuntimeError::MissingParameter {
                        device: binding.device,
                        parameter: binding.parameter,
                    },
                ),
            ),
            Some(Some(value)) => if float_eq(values[slot], value) {
                loaded(network, bindings, matrix_inputs, values, changes, from + 1)
            } else {
                loaded(
                    network,
                    bindings,
                    matrix_inputs,
                    values.update(slot, value),
                    (StaticChanges { values: true, matrix: changes.matrix || matrix_inputs[slot] }),
                    from + 1,
                )
            },
        }
    }
}

/// What reading states makes of values: the values, and why it stopped, if it did.
pub open spec fn states_read(
    network: Network,
    bindings: Seq<StateInputBinding>,
    stored: Seq<Result<Option<u64>, PhysicalStateError>>,
    values: Seq<u64>,
    from: int,
) -> (Seq<u64>, Result<(), IslandRuntimeError>)
    decreases bindings.len() - from,
{
    if from >= bindings.len() {
        (values, Ok(()))
    } else {
        match bindings[from].logical(network, stored[from]) {
            Err(error) => (values, Err(error)),
            Ok(value) => states_read(
                network,
                bindings,
                stored,
                values.update(bindings[from].input.spec_value() as int, value),
                from + 1,
            ),
        }
    }
}

/// What is wrong with the first state, from `from` on, that cannot be written.
pub open spec fn output_failure(
    bindings: Seq<StateOutputBinding>,
    values: Seq<u64>,
    addresses: Seq<Result<(), PhysicalStateError>>,
    from: int,
) -> Option<IslandRuntimeError>
    decreases bindings.len() - from,
{
    if from >= bindings.len() {
        None
    } else if !is_finite(values[bindings[from].source.value() as int]) {
        Some(IslandRuntimeError::NonFiniteState { state: bindings[from].state })
    } else {
        match addresses[from] {
            Err(error) => Some(state_failure(error)),
            Ok(_) => output_failure(bindings, values, addresses, from + 1),
        }
    }
}

/// An island and how far it has been solved. `F` is what its system is solved with.
#[derive(Debug)]
pub struct IslandRuntime<F> {
    pub system: MnaSystem<F>,
    pub plan: IslandPlan,
    pub discrete_plan: Option<CompiledDiscretePlan>,
    pub bindings: IslandBindings,
    pub workspace: ValueWorkspace,
    pub solution: Vec<u64>,
    pub current: Vec<u64>,
    pub next: Vec<u64>,
    pub stability: Vec<u64>,
    pub rhs_reference: Vec<u64>,
    pub rhs_reference_valid: bool,
    pub factorized_sources: Vec<u64>,
    pub observer_outputs: Vec<ObserverOutput>,
    pub solution_valid: bool,
    pub static_initialized: bool,
    pub matrix_dirty: bool,
    pub static_inputs_dirty: bool,
    pub observer_outputs_dirty: bool,
    pub sleepable: bool,
    pub needs_solve: bool,
}

/// Whether observers are listed in ascending order.
pub open spec fn observers_ascend(outputs: Seq<ObserverOutput>) -> bool {
    forall|i: int, j: int|
        0 <= i < j < outputs.len() ==> (#[trigger] outputs[i]).observer < (
        #[trigger] outputs[j]).observer
}

fn zeros(count: usize) -> (result: Vec<u64>)
    ensures
        result@ == Seq::new(count as nat, |i: int| 0u64),
{
    let mut values: Vec<u64> = Vec::new();
    while values.len() < count
        invariant
            values@.len() <= count,
            forall|i: int| 0 <= i < values@.len() ==> #[trigger] values@[i] == 0,
        decreases count - values@.len(),
    {
        values.push(0);
    }
    assert(values@ =~= Seq::new(count as nat, |i: int| 0u64));
    values
}

impl<F> IslandRuntime<F> {
    pub open spec fn dimension(self) -> int {
        self.system.spec_pattern().spec_dimension()
    }

    /// Everything has the size that the plan says.
    pub open spec fn wf(self) -> bool {
        &&& self.system.wf()
        &&& self.plan.wf(self.dimension())
        &&& self.workspace@.len() == self.plan.value_count
        &&& self.solution@.len() == self.dimension()
        &&& self.current@.len() == self.dimension()
        &&& self.next@.len() == self.dimension()
        &&& self.stability@.len() == self.plan.iteration_stability_values@.len()
        &&& self.factorized_sources@.len() == self.plan.iteration_matrix_sources@.len()
        &&& self.discrete_plan matches Some(plan) ==> {
            &&& plan.fits(
                self.plan.value_count as int,
                self.dimension(),
                self.factorized_sources@.len() as int,
            )
            &&& self.rhs_reference@.len() == plan.rhs_barriers@.len()
        }
        &&& forall|i: int|
            0 <= i < self.bindings.spec_parameters().len() ==> (
            #[trigger] self.bindings.spec_parameters()[i]).input.spec_value()
                < self.plan.value_count
        &&& forall|i: int|
            0 <= i < self.bindings.spec_state_inputs().len() ==> (
            #[trigger] self.bindings.spec_state_inputs()[i]).input.spec_value()
                < self.plan.value_count
        &&& forall|i: int|
            0 <= i < self.bindings.spec_state_outputs().len() ==> (
            #[trigger] self.bindings.spec_state_outputs()[i]).source.value()
                < self.plan.value_count
        &&& observers_ascend(self.observer_outputs@)
        &&& forall|i: int|
            0 <= i < self.observer_outputs@.len() ==> (
            #[trigger] self.observer_outputs@[i]).value.value() < self.plan.value_count
    }

    /// Whether `after` is the same island, with the same marks but for those of the solution, and
    /// the same numbers but for those of the workspace.
    pub open spec fn same_island(self, after: Self) -> bool {
        &&& after.system == self.system
        &&& after.plan == self.plan
        &&& after.discrete_plan == self.discrete_plan
        &&& after.bindings == self.bindings
        &&& after.observer_outputs == self.observer_outputs
        &&& after.sleepable == self.sleepable
    }

    /// Whether nothing but the numbers of the workspace differs.
    pub open spec fn same_but_values(self, after: Self) -> bool {
        &&& self.same_island(after)
        &&& after.solution == self.solution
        &&& after.current == self.current
        &&& after.next == self.next
        &&& after.stability == self.stability
        &&& after.rhs_reference == self.rhs_reference
        &&& after.rhs_reference_valid == self.rhs_reference_valid
        &&& after.factorized_sources == self.factorized_sources
        &&& after.solution_valid == self.solution_valid
        &&& after.static_initialized == self.static_initialized
        &&& after.matrix_dirty == self.matrix_dirty
        &&& after.static_inputs_dirty == self.static_inputs_dirty
        &&& after.observer_outputs_dirty == self.observer_outputs_dirty
        &&& after.needs_solve == self.needs_solve
    }

    /// Fills the changed parameters in.
    fn load_parameters(&mut self, network: &Network) -> (result: Result<
        StaticChanges,
        IslandRuntimeError,
    >)
        requires
            old(self).wf(),
            network.wf(),
        ensures
            final(self).wf(),
            old(self).same_but_values(*final(self)),
            (final(self).workspace@, result) == loaded(
                *network,
                old(self).bindings.spec_parameters(),
                old(self).plan.matrix_inputs@,
                old(self).workspace@,
                (StaticChanges { values: false, matrix: false }),
                0,
            ),
    {
        let ghost bindings = self.bindings.spec_parameters();
        let ghost whole = loaded(
            *network,
            bindings,
            self.plan.matrix_inputs@,
            self.workspace@,
            StaticChanges { values: false, matrix: false },
            0,
        );
        let mut changes = StaticChanges { values: false, matrix: false };
        let mut index: usize = 0;
        while index < self.bindings.parameters().len()
            invariant
                self.wf(),
                network.wf(),
                old(self).same_but_values(*self),
                bindings == self.bindings.spec_parameters(),
                index <= bindings.len(),
                whole == loaded(
                    *network,
                    old(self).bindings.spec_parameters(),
                    old(self).plan.matrix_inputs@,
                    old(self).workspace@,
                    StaticChanges { values: false, matrix: false },
                    0,
                ),
                whole == loaded(
                    *network,
                    bindings,
                    self.plan.matrix_inputs@,
                    self.workspace@,
                    changes,
                    index as int,
                ),
            decreases bindings.len() - index,
        {
            let binding = self.bindings.parameters()[index];
            assert(bindings[index as int] == binding);
            let value: u64 = match network.parameter_at_location(
                binding.location,
                binding.parameter,
            ) {
                None => {
                    return Err(IslandRuntimeError::MissingDevice { device: binding.device });
                },
                Some(None) => {
                    return Err(
                        IslandRuntimeError::MissingParameter {
                            device: binding.device,
                            parameter: binding.parameter,
                        },
                    );
                },
                Some(Some(value)) => value,
            };
            if !float_eq_bits(self.workspace.value(binding.input.value()), value) {
                self.workspace.set_input(binding.input, value);
                changes = StaticChanges {
                    values: true,
                    matrix: changes.matrix || self.plan.matrix_inputs[binding.input.index()],
                };
            }
            index = index + 1;
        }
        Ok(changes)
    }

    /// What a look at the parameters says: nothing where they are known to be the same.
    pub open spec fn static_look(self, network: Network) -> (
        Seq<u64>,
        Result<StaticChanges, IslandRuntimeError>,
    ) {
        let none = StaticChanges { values: false, matrix: false };
        if self.static_inputs_dirty {
            loaded(
                network,
                self.bindings.spec_parameters(),
                self.plan.matrix_inputs@,
                self.workspace@,
                none,
                0,
            )
        } else {
            (self.workspace@, Ok(none))
        }
    }

    /// Whether `after` has its static values ready to be computed.
    pub open spec fn static_prepared(
        self,
        after: Self,
        network: Network,
        result: Result<bool, IslandRuntimeError>,
    ) -> bool {
        let (values, look) = self.static_look(network);
        &&& self.same_island(after)
        &&& after.workspace@ == values
        &&& after.solution == self.solution
        &&& after.current == self.current
        &&& after.next == self.next
        &&& after.stability == self.stability
        &&& after.rhs_reference == self.rhs_reference
        &&& after.rhs_reference_valid == self.rhs_reference_valid
        &&& after.factorized_sources == self.factorized_sources
        &&& after.solution_valid == self.solution_valid
        &&& after.observer_outputs_dirty == self.observer_outputs_dirty
        &&& after.needs_solve == self.needs_solve
        &&& match look {
            Err(error) => {
                &&& result == Err::<bool, _>(error)
                &&& after.static_inputs_dirty == self.static_inputs_dirty
                &&& after.static_initialized == self.static_initialized
                &&& after.matrix_dirty == self.matrix_dirty
            },
            Ok(changes) => {
                &&& result == Ok::<bool, IslandRuntimeError>(
                    !self.static_initialized || changes.values,
                )
                &&& !after.static_inputs_dirty
                &&& after.static_initialized
                &&& after.matrix_dirty == (self.matrix_dirty || !self.static_initialized
                    || changes.matrix)
            },
        }
    }

    /// Prepares what does not change from tick to tick. Tells whether the static values have to be
    /// computed.
    fn prepare_static(&mut self, network: &Network) -> (result: Result<bool, IslandRuntimeError>)
        requires
            old(self).wf(),
            network.wf(),
        ensures
            final(self).wf(),
            old(self).static_prepared(*final(self), *network, result),
    {
        let mut changes = StaticChanges { values: false, matrix: false };
        if self.static_inputs_dirty {
            changes = match self.load_parameters(network) {
                Ok(changes) => changes,
                Err(error) => {
                    return Err(error);
                },
            };
            self.static_inputs_dirty = false;
        }
        let initialize = !self.static_initialized;
        let execute = initialize || changes.values;
        if execute {
            self.static_initialized = true;
        }
        if initialize || changes.matrix {
            self.matrix_dirty = true;
        }
        Ok(execute)
    }
}

/// How a tick begins.
#[derive(Debug, Clone, Copy, PartialEq, Eq, Structural)]
pub enum TickStart {
    /// Nothing has changed: the last solution is still good.
    Slept,
    /// The island has to be solved. `execute_static` tells whether its static values have to be
    /// computed first, `had_solution` whether its last solution was stable.
    Solve { execute_static: bool, had_solution: bool },
}

/// Whether static values have to be computed, or why a tick cannot begin.
pub open spec fn static_part(start: Result<TickStart, IslandRuntimeError>) -> Result<
    bool,
    IslandRuntimeError,
> {
    match start {
        Ok(TickStart::Solve { execute_static, .. }) => Ok(execute_static),
        Ok(TickStart::Slept) => Ok(false),
        Err(error) => Err(error),
    }
}

/// The solution that is meant.
#[derive(Debug, Clone, Copy, PartialEq, Eq, Structural)]
pub enum Buffer {
    Solution,
    Current,
    Next,
}

impl<F> IslandRuntime<F> {
    /// Whether the next tick leaves the island as it is.
    pub open spec fn sleeps(self) -> bool {
        self.sleepable && !self.needs_solve
    }

    /// The island after a tick in which it was solved.
    pub open spec fn ticked(self) -> Self {
        Self {
            observer_outputs_dirty: true,
            needs_solve: self.needs_solve && !self.sleepable,
            ..self
        }
    }

    /// The island once parameters may have changed.
    pub open spec fn marked(self) -> Self {
        Self { static_inputs_dirty: true, needs_solve: true, ..self }
    }

    /// Whether this is an island as it is before the first tick.
    pub open spec fn is_fresh(self, timestep: u64) -> bool {
        let dimension = self.dimension() as nat;
        &&& self.wf()
        &&& self.workspace@ == match self.plan.timestep_input {
            Some(input) => Seq::new(self.plan.value_count as nat, |i: int| 0u64).update(
                input.spec_value() as int,
                timestep,
            ),
            None => Seq::new(self.plan.value_count as nat, |i: int| 0u64),
        }
        &&& self.solution@ == Seq::new(dimension, |i: int| 0u64)
        &&& self.current@ == Seq::new(dimension, |i: int| 0u64)
        &&& self.next@ == Seq::new(dimension, |i: int| 0u64)
        &&& self.stability@ == Seq::new(
            self.plan.iteration_stability_values@.len(),
            |i: int| 0u64,
        )
        &&& self.factorized_sources@ == Seq::new(
            self.plan.iteration_matrix_sources@.len(),
            |i: int| 0u64,
        )
        &&& self.rhs_reference@ == match self.discrete_plan {
            Some(plan) => Seq::new(plan.rhs_barriers@.len(), |i: int| 0u64),
            None => Seq::<u64>::empty(),
        }
        &&& !self.solution_valid
        &&& !self.static_initialized
        &&& self.matrix_dirty
        &&& self.static_inputs_dirty
        &&& !self.observer_outputs_dirty
        &&& self.needs_solve
        &&& self.sleepable == (self.plan.timestep_input is None && self.plan.state_inputs@.len()
            == 0 && self.plan.state_writes@.len() == 0)
        &&& self.rhs_reference_valid == (self.discrete_plan matches Some(plan)
            && plan.rhs_barriers@.len() == 0)
    }

    /// Puts an island together from its bindings and its system.
    pub fn assemble(
        system: MnaSystem<F>,
        plan: IslandPlan,
        discrete_plan: Option<CompiledDiscretePlan>,
        bindings: IslandBindings,
        observer_outputs: Vec<ObserverOutput>,
        timestep: u64,
    ) -> (result: Self)
        requires
            system.wf(),
            plan.wf(system.spec_pattern().spec_dimension()),
            discrete_plan matches Some(discrete) ==> discrete.fits(
                plan.value_count as int,
                system.spec_pattern().spec_dimension(),
                plan.iteration_matrix_sources@.len() as int,
            ),
            forall|i: int|
                0 <= i < bindings.spec_parameters().len() ==> (
                #[trigger] bindings.spec_parameters()[i]).input.spec_value() < plan.value_count,
            forall|i: int|
                0 <= i < bindings.spec_state_inputs().len() ==> (
                #[trigger] bindings.spec_state_inputs()[i]).input.spec_value() < plan.value_count,
            forall|i: int|
                0 <= i < bindings.spec_state_outputs().len() ==> (
                #[trigger] bindings.spec_state_outputs()[i]).source.value() < plan.value_count,
            observers_ascend(observer_outputs@),
            forall|i: int|
                0 <= i < observer_outputs@.len() ==> (
                #[trigger] observer_outputs@[i]).value.value() < plan.value_count,
        ensures
            result.is_fresh(timestep),
            result.system == system,
            result.plan == plan,
            result.discrete_plan == discrete_plan,
            result.bindings == bindings,
            result.observer_outputs == observer_outputs,
    {
        let dimension: usize = system.dimension();
        let mut workspace = ValueWorkspace::new(plan.value_count);
        if let Some(input) = plan.timestep_input {
            workspace.set_input(input, timestep);
        }
        let barrier_count: usize = match &discrete_plan {
            Some(discrete) => discrete.rhs_barriers.len(),
            None => 0,
        };
        let rhs_reference_valid = discrete_plan.is_some() && barrier_count == 0;
        let sleepable = plan.timestep_input.is_none() && plan.state_inputs.len() == 0
            && plan.state_writes.len() == 0;
        let stability = zeros(plan.iteration_stability_values.len());
        let factorized_sources = zeros(plan.iteration_matrix_sources.len());
        let rhs_reference = zeros(barrier_count);
        assert(discrete_plan is None ==> rhs_reference@ =~= Seq::<u64>::empty());
        IslandRuntime {
            system,
            plan,
            discrete_plan,
            bindings,
            workspace,
            solution: zeros(dimension),
            current: zeros(dimension),
            next: zeros(dimension),
            stability,
            rhs_reference,
            rhs_reference_valid,
            factorized_sources,
            observer_outputs,
            solution_valid: false,
            static_initialized: false,
            matrix_dirty: true,
            static_inputs_dirty: true,
            observer_outputs_dirty: false,
            sleepable,
            needs_solve: true,
        }
    }

    /// Sets an island up. What the solver says about the pattern decides whether this succeeds once
    /// everything is bound.
    pub fn new(
        pattern: MnaPattern,
        plan: IslandPlan,
        discrete_plan: Option<CompiledDiscretePlan>,
        states: &IslandStateLayout,
        partition_inputs: &Vec<CompiledPartitionInputs>,
        observer_outputs: Vec<ObserverOutput>,
        network: &Network,
        timestep: u64,
    ) -> (result: Result<Self, IslandRuntimeError>)
        requires
            network.wf(),
            pattern.wf(),
            plan.wf(pattern.spec_dimension()),
            discrete_plan matches Some(discrete) ==> discrete.fits(
                plan.value_count as int,
                pattern.spec_dimension(),
                plan.iteration_matrix_sources@.len() as int,
            ),
            forall|i: int|
                0 <= i < partition_inputs@.len() ==> (
                #[trigger] partition_inputs@[i]).definition_parameters@.len()
                    == partition_inputs@[i].parameter_inputs@.len(),
            forall|i: int|
                0 <= i < parameter_targets(partition_inputs@, partition_inputs@.len() as int).len()
                    ==> (#[trigger] parameter_targets(
                    partition_inputs@,
                    partition_inputs@.len() as int,
                )[i]).2.spec_value() < plan.value_count,
            forall|i: int|
                0 <= i < plan.state_inputs@.len() ==> (#[trigger] plan.state_inputs@[i]).0.value()
                    < states.states@.len(),
            forall|i: int|
                0 <= i < plan.state_writes@.len() ==> (
                #[trigger] plan.state_writes@[i]).destination.value() < states.states@.len(),
            observers_ascend(observer_outputs@),
            forall|i: int|
                0 <= i < observer_outputs@.len() ==> (
                #[trigger] observer_outputs@[i]).value.value() < plan.value_count,
        ensures
            match missing_device(
                *network,
                states.states@,
                partition_inputs@,
                plan.state_inputs@,
                plan.state_writes@,
            ) {
                Some(device) => result == Err::<Self, _>(
                    IslandRuntimeError::MissingDevice { device },
                ),
                None => match result {
                    Ok(runtime) => {
                        &&& pattern.spec_dimension() == 0 || is_countable(
                            pattern.spec_dimension(),
                            pattern.spec_nnz(),
                        )
                        &&& runtime.is_fresh(timestep)
                        &&& runtime.system.spec_pattern() == pattern
                        &&& runtime.plan == plan
                        &&& runtime.discrete_plan == discrete_plan
                        &&& runtime.system.spec_values() == Seq::new(
                            pattern.spec_nnz() as nat,
                            |i: int| 0u64,
                        )
                        &&& runtime.system.spec_numeric() is None
                        &&& runtime.bindings.bound_to(*network)
                        &&& bound_parameters(
                            *network,
                            runtime.bindings.spec_parameters(),
                            parameter_targets(
                                partition_inputs@,
                                partition_inputs@.len() as int,
                            ),
                        )
                        &&& bound_inputs(
                            *network,
                            runtime.bindings.spec_state_inputs(),
                            states.states@,
                            plan.state_inputs@,
                        )
                        &&& bound_outputs(
                            *network,
                            runtime.bindings.spec_state_outputs(),
                            states.states@,
                            plan.state_writes@,
                        )
                        &&& runtime.observer_outputs == observer_outputs
                    },
                    Err(error) => {
                        &&& pattern.spec_dimension() != 0
                        &&& !is_countable(pattern.spec_dimension(), pattern.spec_nnz()) ==> error
                            == IslandRuntimeError::Mna(MnaError::IndexOverflow)
                        &&& exists|failure: SolverFailure|
                            error == IslandRuntimeError::Mna(
                                #[trigger] MnaError::of_solver(failure),
                            )
                    },
                },
            },
    {
        let bindings = match IslandBindings::new(
            network,
            states,
            partition_inputs,
            &plan.state_inputs,
            &plan.state_writes,
        ) {
            Ok(bindings) => bindings,
            Err(error) => {
                return Err(error);
            },
        };
        proof {
            let targets = parameter_targets(partition_inputs@, partition_inputs@.len() as int);
            assert forall|i: int| 0 <= i < bindings.spec_parameters().len() implies (
            #[trigger] bindings.spec_parameters()[i]).input.spec_value() < plan.value_count by {
                assert(targets[i].2 == bindings.spec_parameters()[i].input);
            }
            assert forall|i: int| 0 <= i < bindings.spec_state_inputs().len() implies (
            #[trigger] bindings.spec_state_inputs()[i]).input.spec_value() < plan.value_count by {
                assert(plan.state_inputs@[i].1 == bindings.spec_state_inputs()[i].input);
            }
            assert forall|i: int| 0 <= i < bindings.spec_state_outputs().len() implies (
            #[trigger] bindings.spec_state_outputs()[i]).source.value() < plan.value_count by {
                assert(plan.state_writes@[i].source == bindings.spec_state_outputs()[i].source);
            }
        }
        let system = match MnaSystem::new(pattern) {
            Ok(system) => system,
            Err(error) => {
                return Err(IslandRuntimeError::Mna(error));
            },
        };
        Ok(Self::assemble(system, plan, discrete_plan, bindings, observer_outputs, timestep))
    }

    /// Reads the states that a tick begins with. Of each it is given what is stored, if it has been
    /// written, or why that cannot be told.
    pub fn prepare_tick_state_inputs(
        &mut self,
        network: &Network,
        stored: &Vec<Result<Option<u64>, PhysicalStateError>>,
    ) -> (result: Result<(), IslandRuntimeError>)
        requires
            old(self).wf(),
            network.wf(),
            stored@.len() == old(self).bindings.spec_state_inputs().len(),
        ensures
            final(self).wf(),
            old(self).same_but_values(*final(self)),
            (final(self).workspace@, result) == states_read(
                *network,
                old(self).bindings.spec_state_inputs(),
                stored@,
                old(self).workspace@,
                0,
            ),
    {
        let ghost bindings = self.bindings.spec_state_inputs();
        let ghost whole = states_read(*network, bindings, stored@, self.workspace@, 0);
        let mut index: usize = 0;
        while index < self.bindings.state_inputs().len()
            invariant
                self.wf(),
                network.wf(),
                old(self).same_but_values(*self),
                bindings == self.bindings.spec_state_inputs(),
                stored@.len() == bindings.len(),
                index <= bindings.len(),
                whole == states_read(
                    *network,
                    old(self).bindings.spec_state_inputs(),
                    stored@,
                    old(self).workspace@,
                    0,
                ),
                whole == states_read(
                    *network,
                    bindings,
                    stored@,
                    self.workspace@,
                    index as int,
                ),
            decreases bindings.len() - index,
        {
            let binding = self.bindings.state_inputs()[index];
            assert(bindings[index as int] == binding);
            match binding.read_logical(network, stored[index]) {
                Ok(value) => {
                    self.workspace.set_input(binding.input, value);
                },
                Err(error) => {
                    return Err(error);
                },
            }
            index = index + 1;
        }
        Ok(())
    }

    /// Begins a tick.
    pub fn begin_tick(&mut self, network: &Network) -> (result: Result<
        TickStart,
        IslandRuntimeError,
    >)
        requires
            old(self).wf(),
            network.wf(),
        ensures
            final(self).wf(),
            if old(self).sleeps() {
                &&& result == Ok::<TickStart, IslandRuntimeError>(TickStart::Slept)
                &&& *final(self) == *old(self)
            } else {
                &&& !final(self).solution_valid
                &&& (Self { solution_valid: false, ..*old(self) }).static_prepared(
                    *final(self),
                    *network,
                    static_part(result),
                )
                &&& result matches Ok(start) ==> {
                    &&& start matches TickStart::Solve { had_solution, .. }
                    &&& had_solution == old(self).solution_valid
                }
            },
    {
        if self.sleepable && !self.needs_solve {
            return Ok(TickStart::Slept);
        }
        let had_solution = self.solution_valid;
        self.solution_valid = false;
        match self.prepare_static(network) {
            Ok(execute_static) => Ok(TickStart::Solve { execute_static, had_solution }),
            Err(error) => Err(error),
        }
    }

    /// What the latches make of the values.
    fn update_latches(&mut self, first: bool)
        requires
            old(self).wf(),
        ensures
            final(self).wf(),
            old(self).same_but_values(*final(self)),
            final(self).workspace@ == latched(
                old(self).workspace@,
                old(self).plan.iteration_latches@,
                old(self).plan.iteration_latches@.len() as int,
                first,
            ),
    {
        let mut index: usize = 0;
        while index < self.plan.iteration_latches.len()
            invariant
                self.wf(),
                old(self).same_but_values(*self),
                index <= self.plan.iteration_latches@.len(),
                self.workspace@ == latched(
                    old(self).workspace@,
                    self.plan.iteration_latches@,
                    index as int,
                    first,
                ),
            decreases self.plan.iteration_latches@.len() - index,
        {
            let latch = self.plan.iteration_latches[index];
            assert(self.plan.iteration_latches@[index as int] == latch);
            let source = if first {
                latch.initial
            } else {
                latch.update
            };
            let value: u64 = self.workspace.value(source);
            self.workspace.set_input(latch.input, value);
            index = index + 1;
        }
    }

    /// Whether the last solution can be resumed from: it was stable, and what it was solved with is
    /// known.
    pub open spec fn resumable(self, had_solution: bool) -> bool {
        &&& had_solution
        &&& !self.matrix_dirty
        &&& self.system.factorized()
        &&& self.rhs_reference_valid
    }

    /// Begins to solve, once the values of the tick have been computed.
    pub fn begin_solve(&mut self, had_solution: bool) -> (result: SolveControl)
        requires
            old(self).wf(),
        ensures
            final(self).wf(),
            old(self).same_but_values(*final(self)),
            final(self).workspace@ == latched(
                old(self).workspace@,
                old(self).plan.iteration_latches@,
                old(self).plan.iteration_latches@.len() as int,
                true,
            ),
            result.wf(),
            result.iterations_used == 0,
            result.action == first_action(
                (SolveStart {
                    nonlinear: old(self).plan.requires_nonlinear_iteration,
                    discrete: old(self).discrete_plan is Some,
                    resumable: old(self).resumable(had_solution),
                }),
            ),
    {
        self.update_latches(true);
        SolveControl::new(
            SolveStart {
                nonlinear: self.plan.requires_nonlinear_iteration,
                discrete: self.discrete_plan.is_some(),
                resumable: had_solution && !self.matrix_dirty && self.system.is_factorized()
                    && self.rhs_reference_valid,
            },
        )
    }

    /// Advances the latches to what was computed for them.
    pub fn advance_iteration_latches(&mut self)
        requires
            old(self).wf(),
        ensures
            final(self).wf(),
            old(self).same_but_values(*final(self)),
            final(self).workspace@ == latched(
                old(self).workspace@,
                old(self).plan.iteration_latches@,
                old(self).plan.iteration_latches@.len() as int,
                false,
            ),
    {
        self.update_latches(false);
    }

    /// A solution.
    pub open spec fn buffer(self, which: Buffer) -> Seq<u64> {
        match which {
            Buffer::Solution => self.solution@,
            Buffer::Current => self.current@,
            Buffer::Next => self.next@,
        }
    }

    /// Fills the inputs that depend on the solution, for the island to be evaluated.
    pub fn fill_solution_inputs(&mut self, which: Buffer)
        requires
            old(self).wf(),
        ensures
            final(self).wf(),
            old(self).same_but_values(*final(self)),
            final(self).workspace@ == filled(
                old(self).workspace@,
                old(self).plan.solution_inputs@,
                old(self).buffer(which),
                old(self).plan.solution_inputs@.len() as int,
            ),
    {
        let mut index: usize = 0;
        while index < self.plan.solution_inputs.len()
            invariant
                self.wf(),
                old(self).same_but_values(*self),
                index <= self.plan.solution_inputs@.len(),
                self.workspace@ == filled(
                    old(self).workspace@,
                    self.plan.solution_inputs@,
                    old(self).buffer(which),
                    index as int,
                ),
            decreases self.plan.solution_inputs@.len() - index,
        {
            let (unknown, input) = self.plan.solution_inputs[index];
            assert(self.plan.solution_inputs@[index as int].0.value() < self.dimension());
            let value: u64 = match which {
                Buffer::Solution => self.solution[unknown.index()],
                Buffer::Current => self.current[unknown.index()],
                Buffer::Next => self.next[unknown.index()],
            };
            self.workspace.set_input(input, value);
            index = index + 1;
        }
    }

    /// The values that have to be stable.
    pub open spec fn stability_now(self) -> Seq<u64> {
        values_at(self.workspace@, self.plan.iteration_stability_values@)
    }

    /// The values that the matrix is made of and that depend on the solution.
    pub open spec fn sources_now(self) -> Seq<u64> {
        values_at(self.workspace@, self.plan.iteration_matrix_sources@)
    }

    /// Notes the values that have to be stable.
    pub fn capture_iteration_stability(&mut self)
        requires
            old(self).wf(),
        ensures
            final(self).wf(),
            final(self).stability@ == old(self).stability_now(),
            *final(self) == (Self { stability: final(self).stability, ..*old(self) }),
    {
        self.stability = capture(&self.workspace, &self.plan.iteration_stability_values);
    }

    /// Whether the values that have to be stable are as noted.
    pub fn stability_matches(&self) -> (result: bool)
        requires
            self.wf(),
        ensures
            result == all_equal(self.stability@, self.stability_now()),
    {
        let now = capture(&self.workspace, &self.plan.iteration_stability_values);
        iteration_stability_matches(&self.stability, &now)
    }

    /// Whether the values that the matrix was factorized with are the same.
    pub fn iteration_matrix_sources_match(&self) -> (result: bool)
        requires
            self.wf(),
        ensures
            result == all_equal(self.factorized_sources@, self.sources_now()),
    {
        let now = capture(&self.workspace, &self.plan.iteration_matrix_sources);
        iteration_stability_matches(&self.factorized_sources, &now)
    }

    /// Marks the matrix where it is factorized with values that have changed.
    pub fn update_iteration_matrix_dirty(&mut self)
        requires
            old(self).wf(),
        ensures
            final(self).wf(),
            final(self).matrix_dirty == (old(self).matrix_dirty || (
            old(self).plan.iteration_matrix_sources@.len() > 0 && old(self).system.factorized()
                && !all_equal(old(self).factorized_sources@, old(self).sources_now()))),
            *final(self) == (Self { matrix_dirty: final(self).matrix_dirty, ..*old(self) }),
    {
        if self.plan.iteration_matrix_sources.len() == 0 || self.matrix_dirty
            || !self.system.is_factorized() {
            return ;
        }
        if !self.iteration_matrix_sources_match() {
            self.matrix_dirty = true;
        }
    }

    /// Whether the values of the matrix can be factorized: they have to be finite.
    pub fn check_matrix(&self) -> (result: Result<(), IslandRuntimeError>)
        ensures
            if all_finite(self.system.spec_values()) {
                result is Ok
            } else {
                result == Err::<(), _>(IslandRuntimeError::NonFiniteMatrix)
            },
    {
        if !is_all_finite(self.system.values()) {
            return Err(IslandRuntimeError::NonFiniteMatrix);
        }
        Ok(())
    }

    /// Notes that the matrix has been factorized, and with which values.
    pub fn matrix_factorized(&mut self)
        requires
            old(self).wf(),
        ensures
            final(self).wf(),
            !final(self).matrix_dirty,
            final(self).factorized_sources@ == old(self).sources_now(),
            *final(self) == (Self {
                matrix_dirty: false,
                factorized_sources: final(self).factorized_sources,
                ..*old(self)
            }),
    {
        self.factorized_sources = capture(&self.workspace, &self.plan.iteration_matrix_sources);
        self.matrix_dirty = false;
    }

    /// Notes what the right-hand side is made of, where drivers are followed.
    pub fn begin_candidate(&mut self)
        requires
            old(self).wf(),
        ensures
            final(self).wf(),
            match old(self).discrete_plan {
                None => *final(self) == *old(self),
                Some(plan) => {
                    &&& !final(self).rhs_reference_valid
                    &&& final(self).rhs_reference@ == values_at(
                        old(self).workspace@,
                        plan.rhs_barriers@,
                    )
                    &&& *final(self) == (Self {
                        rhs_reference: final(self).rhs_reference,
                        rhs_reference_valid: false,
                        ..*old(self)
                    })
                },
            },
    {
        if let Some(plan) = &self.discrete_plan {
            let reference = capture(&self.workspace, &plan.rhs_barriers);
            self.rhs_reference = reference;
            self.rhs_reference_valid = false;
        }
    }

    /// Whether what the right-hand side is made of is as noted.
    pub open spec fn rhs_matches(self) -> bool {
        &&& self.rhs_reference_valid
        &&& self.discrete_plan matches Some(plan)
        &&& all_equal(self.rhs_reference@, values_at(self.workspace@, plan.rhs_barriers@))
    }

    fn rhs_reference_matches(&self) -> (result: bool)
        requires
            self.wf(),
        ensures
            result == self.rhs_matches(),
    {
        match &self.discrete_plan {
            None => false,
            Some(plan) => {
                let now = capture(&self.workspace, &plan.rhs_barriers);
                self.rhs_reference_valid && iteration_stability_matches(&self.rhs_reference, &now)
            },
        }
    }

    /// Takes what an island was solved to. It has to be finite.
    pub fn accept_candidate(&mut self, which: Buffer, candidate: Vec<u64>) -> (result: Result<
        (),
        IslandRuntimeError,
    >)
        requires
            old(self).wf(),
            candidate@.len() == old(self).dimension(),
        ensures
            final(self).wf(),
            final(self).buffer(which) == candidate@,
            if all_finite(candidate@) {
                &&& result is Ok
                &&& final(self).rhs_reference_valid == (old(self).rhs_reference_valid || old(
                    self,
                ).discrete_plan is Some)
            } else {
                &&& result == Err::<(), _>(IslandRuntimeError::NonFiniteSolution)
                &&& final(self).rhs_reference_valid == old(self).rhs_reference_valid
            },
            *final(self) == (Self {
                solution: final(self).solution,
                current: final(self).current,
                next: final(self).next,
                rhs_reference_valid: final(self).rhs_reference_valid,
                ..*old(self)
            }),
            which != Buffer::Solution ==> final(self).solution == old(self).solution,
            which != Buffer::Current ==> final(self).current == old(self).current,
            which != Buffer::Next ==> final(self).next == old(self).next,
    {
        let finite = is_all_finite(candidate.as_slice());
        match which {
            Buffer::Solution => {
                self.solution = candidate;
            },
            Buffer::Current => {
                self.current = candidate;
            },
            Buffer::Next => {
                self.next = candidate;
            },
        }
        if !finite {
            return Err(IslandRuntimeError::NonFiniteSolution);
        }
        if self.discrete_plan.is_some() {
            self.rhs_reference_valid = true;
        }
        Ok(())
    }

    /// Finishes a solve of an island where nothing depends on the solution.
    pub fn finish_linear(&mut self)
        requires
            old(self).wf(),
        ensures
            final(self).wf(),
            *final(self) == (Self { solution_valid: true, ..*old(self) }),
    {
        self.solution_valid = true;
    }

    /// Whether a verified solution is stable: its values are those that it was solved with, and
    /// either it would be solved with the same matrix and right-hand side, or it is close to the
    /// last one.
    pub open spec fn verified(self, close: bool) -> bool {
        &&& all_equal(self.stability@, self.stability_now())
        &&& (all_equal(self.factorized_sources@, self.sources_now()) && self.rhs_matches()) || close
    }

    /// Finishes a verification, after the island was evaluated with what it was solved to. `close`
    /// tells whether that is close to the last solution.
    pub fn finish_verification(&mut self, close: bool) -> (result: bool)
        requires
            old(self).wf(),
        ensures
            final(self).wf(),
            result == old(self).verified(close),
            final(self).solution == old(self).next,
            final(self).next == old(self).solution,
            final(self).solution_valid == (old(self).solution_valid || result),
            *final(self) == (Self {
                solution: old(self).next,
                next: old(self).solution,
                solution_valid: final(self).solution_valid,
                ..*old(self)
            }),
    {
        let stable = self.stability_matches();
        let exact = self.iteration_matrix_sources_match() && self.rhs_reference_matches();
        let converged = stable && (exact || close);
        std::mem::swap(&mut self.solution, &mut self.next);
        if converged {
            self.solution_valid = true;
        }
        converged
    }

    /// Finishes an iteration, after the island was evaluated with what it was solved to. `close`
    /// tells whether that is close to what it was solved to before.
    pub fn finish_iteration(&mut self, first: bool, close: bool) -> (result: bool)
        requires
            old(self).wf(),
        ensures
            final(self).wf(),
            result == (close && all_equal(old(self).stability@, old(self).stability_now())),
            *final(self) == if result && first {
                Self {
                    solution: old(self).current,
                    current: old(self).solution,
                    solution_valid: true,
                    ..*old(self)
                }
            } else if result {
                Self {
                    solution: old(self).next,
                    next: old(self).solution,
                    solution_valid: true,
                    ..*old(self)
                }
            } else if first {
                *old(self)
            } else {
                Self { current: old(self).next, next: old(self).current, ..*old(self) }
            },
    {
        let converged = close && self.stability_matches();
        if converged {
            if first {
                std::mem::swap(&mut self.solution, &mut self.current);
            } else {
                std::mem::swap(&mut self.solution, &mut self.next);
            }
            self.solution_valid = true;
        } else if !first {
            std::mem::swap(&mut self.current, &mut self.next);
        }
        converged
    }

    /// Finishes a tick in which the island was solved.
    pub fn finish_tick(&mut self)
        requires
            old(self).wf(),
        ensures
            final(self).wf(),
            *final(self) == old(self).ticked(),
    {
        self.observer_outputs_dirty = true;
        if self.sleepable {
            self.needs_solve = false;
        }
    }

    /// Notes that parameters may have changed.
    pub fn mark_numerical_dirty(&mut self)
        requires
            old(self).wf(),
        ensures
            final(self).wf(),
            *final(self) == old(self).marked(),
    {
        self.static_inputs_dirty = true;
        self.needs_solve = true;
    }

    pub fn mark_observer_outputs_clean(&mut self)
        requires
            old(self).wf(),
        ensures
            final(self).wf(),
            *final(self) == (Self { observer_outputs_dirty: false, ..*old(self) }),
    {
        self.observer_outputs_dirty = false;
    }

    /// Whether an observer is at a place of the list.
    pub open spec fn observes(self, observer: u64, index: int) -> bool {
        0 <= index < self.observer_outputs@.len() && self.observer_outputs@[index].observer
            == observer
    }

    /// The value of an observer; none before the island has a stable solution.
    pub fn observer_value(&self, observer: u64) -> (result: Option<u64>)
        requires
            self.wf(),
        ensures
            match result {
                Some(value) => self.solution_valid && exists|i: int| #[trigger]
                    self.observes(observer, i) && value
                        == self.workspace@[self.observer_outputs@[i].value.value() as int],
                None => !self.solution_valid || forall|i: int| !#[trigger] self.observes(observer, i),
            },
    {
        if !self.solution_valid {
            return None;
        }
        let ghost outputs = self.observer_outputs@;
        let mut low: usize = 0;
        let mut high: usize = self.observer_outputs.len();
        while low < high
            invariant
                self.wf(),
                self.solution_valid,
                outputs == self.observer_outputs@,
                low <= high <= outputs.len(),
                forall|i: int| 0 <= i < low ==> (#[trigger] outputs[i]).observer < observer,
                forall|i: int|
                    high <= i < outputs.len() ==> (#[trigger] outputs[i]).observer > observer,
            decreases high - low,
        {
            let middle: usize = low + (high - low) / 2;
            let output = self.observer_outputs[middle];
            assert(outputs[middle as int] == output);
            if output.observer == observer {
                assert(self.observes(observer, middle as int));
                return Some(self.workspace.value(output.value));
            }
            if output.observer < observer {
                assert forall|i: int| 0 <= i < middle + 1 implies (#[trigger] outputs[i]).observer
                    < observer by {
                    if i < middle {
                        assert(outputs[i].observer < outputs[middle as int].observer);
                    }
                }
                low = middle + 1;
            } else {
                assert forall|i: int| middle <= i < outputs.len() implies (
                #[trigger] outputs[i]).observer > observer by {
                    if middle < i {
                        assert(outputs[middle as int].observer < outputs[i].observer);
                    }
                }
                high = middle;
            }
        }
        None
    }

    /// Tells whether the states can be written: their values have to be finite, and the states have
    /// to be there, as is told for each.
    pub fn validate_state_outputs(&self, addresses: &Vec<Result<(), PhysicalStateError>>) -> (result:
        Result<(), IslandRuntimeError>)
        requires
            self.wf(),
            addresses@.len() == self.bindings.spec_state_outputs().len(),
        ensures
            match output_failure(
                self.bindings.spec_state_outputs(),
                self.workspace@,
                addresses@,
                0,
            ) {
                Some(error) => result == Err::<(), _>(error),
                None => result is Ok,
            },
    {
        let ghost bindings = self.bindings.spec_state_outputs();
        let mut index: usize = 0;
        while index < self.bindings.state_outputs().len()
            invariant
                self.wf(),
                bindings == self.bindings.spec_state_outputs(),
                addresses@.len() == bindings.len(),
                index <= bindings.len(),
                output_failure(bindings, self.workspace@, addresses@, 0) == output_failure(
                    bindings,
                    self.workspace@,
                    addresses@,
                    index as int,
                ),
            decreases bindings.len() - index,
        {
            let binding = self.bindings.state_outputs()[index];
            assert(bindings[index as int] == binding);
            match binding.validate_source(&self.workspace) {
                Ok(_) => {},
                Err(error) => {
                    return Err(error);
                },
            }
            match &addresses[index] {
                Ok(_) => {},
                Err(error) => {
                    return Err(crate::bindings::map_state_error(*error));
                },
            }
            index = index + 1;
        }
        Ok(())
    }

    /// The values of the states after the tick, and where they are to be written.
    pub fn scatter_state_outputs(&self) -> (result: Vec<(PhysicalStateAddress, u64)>)
        requires
            self.wf(),
        ensures
            result@.len() == self.bindings.spec_state_outputs().len(),
            forall|i: int|
                0 <= i < result@.len() ==> {
                    let binding = self.bindings.spec_state_outputs()[i];
                    #[trigger] result@[i] == (
                        binding.address,
                        self.workspace@[binding.source.value() as int],
                    )
                },
    {
        let ghost bindings = self.bindings.spec_state_outputs();
        let mut writes: Vec<(PhysicalStateAddress, u64)> = Vec::new();
        while writes.len() < self.bindings.state_outputs().len()
            invariant
                self.wf(),
                bindings == self.bindings.spec_state_outputs(),
                writes@.len() <= bindings.len(),
                forall|i: int|
                    0 <= i < writes@.len() ==> #[trigger] writes@[i] == (
                        bindings[i].address,
                        self.workspace@[bindings[i].source.value() as int],
                    ),
            decreases bindings.len() - writes@.len(),
        {
            let binding = self.bindings.state_outputs()[writes.len()];
            assert(bindings[writes@.len() as int] == binding);
            writes.push((binding.address, binding.value(&self.workspace)));
        }
        writes
    }

    /// The devices, by their places, whose states have been written once the writes are done.
    pub fn finalize_state_outputs(&self) -> (result: Vec<DeviceLocation>)
        requires
            self.wf(),
        ensures
            result@.len() == self.bindings.spec_state_outputs().len(),
            forall|i: int|
                0 <= i < result@.len() ==> #[trigger] result@[i]
                    == self.bindings.spec_state_outputs()[i].address.location,
    {
        let ghost bindings = self.bindings.spec_state_outputs();
        let mut locations: Vec<DeviceLocation> = Vec::new();
        while locations.len() < self.bindings.state_outputs().len()
            invariant
                self.wf(),
                bindings == self.bindings.spec_state_outputs(),
                locations@.len() <= bindings.len(),
                forall|i: int|
                    0 <= i < locations@.len() ==> #[trigger] locations@[i]
                        == bindings[i].address.location,
            decreases bindings.len() - locations@.len(),
        {
            let binding = self.bindings.state_outputs()[locations.len()];
            assert(bindings[locations@.len() as int] == binding);
            locations.push(binding.address.location);
        }
        locations
    }

    /// Binds the island anew, after devices have moved.
    pub fn rebind(&mut self, network: &Network) -> (result: Result<(), IslandRuntimeError>)
        requires
            old(self).wf(),
            network.wf(),
        ensures
            final(self).wf(),
            old(self).bindings.same_targets(final(self).bindings),
            old(self).bindings.rebound(
                final(self).bindings,
                *network,
                crate::bindings::missing_place(
                    *network,
                    old(self).bindings.bound_devices(),
                    0,
                ),
            ),
            *final(self) == (Self { bindings: final(self).bindings, ..*old(self) }),
            match crate::bindings::first_missing(
                *network,
                old(self).bindings.bound_devices(),
                0,
            ) {
                Some(device) => result == Err::<(), _>(
                    IslandRuntimeError::MissingDevice { device },
                ),
                None => result is Ok && final(self).bindings.bound_to(*network),
            },
    {
        let result = self.bindings.rebind(network);
        proof {
            assert forall|i: int| 0 <= i < self.bindings.spec_parameters().len() implies (
            #[trigger] self.bindings.spec_parameters()[i]).input.spec_value()
                < self.plan.value_count by {
                assert(old(self).bindings.spec_parameters()[i].input.spec_value()
                    < self.plan.value_count);
            }
            assert forall|i: int| 0 <= i < self.bindings.spec_state_inputs().len() implies (
            #[trigger] self.bindings.spec_state_inputs()[i]).input.spec_value()
                < self.plan.value_count by {
                assert(old(self).bindings.spec_state_inputs()[i].input.spec_value()
                    < self.plan.value_count);
            }
            assert forall|i: int| 0 <= i < self.bindings.spec_state_outputs().len() implies (
            #[trigger] self.bindings.spec_state_outputs()[i]).source.value()
                < self.plan.value_count by {
                assert(old(self).bindings.spec_state_outputs()[i].source.value()
                    < self.plan.value_count);
            }
        }
        result
    }
}

/// An island without time and state sleeps once it has been solved, and is solved again as soon as
/// parameters may have changed.
pub proof fn law_solved_islands_sleep_until_marked<F>(island: IslandRuntime<F>)
    requires
        island.sleepable,
    ensures
        island.ticked().sleeps(),
        island.ticked().sleepable,
        !island.ticked().marked().sleeps(),
        island.ticked().marked().ticked().sleeps(),
{
}

/// An island with time or state is solved in every tick.
pub proof fn law_stateful_islands_never_sleep<F>(island: IslandRuntime<F>, timestep: u64)
    requires
        island.is_fresh(timestep),
        island.plan.timestep_input is Some || island.plan.state_inputs@.len() > 0
            || island.plan.state_writes@.len() > 0,
    ensures
        forall|after: IslandRuntime<F>| #[trigger]
            island.same_island(after) ==> !after.sleeps() && !after.ticked().sleeps(),
{
}

/// Whether a binding finds the value of its parameter in its slot.
pub open spec fn in_place(network: Network, binding: ParameterInputBinding, values: Seq<u64>) -> bool {
    network.arena().spec_parameter_at(binding.location, binding.parameter) matches Some(
        Some(value),
    ) && float_eq(values[binding.input.spec_value() as int], value)
}

/// Whether a parameter can be told to have stayed the same, as a number that is not equal to itself
/// cannot.
pub open spec fn is_comparable(network: Network, binding: ParameterInputBinding) -> bool {
    network.arena().spec_parameter_at(binding.location, binding.parameter) matches Some(
        Some(value),
    ) ==> float_eq(value, value)
}

proof fn lemma_loaded(
    network: Network,
    bindings: Seq<ParameterInputBinding>,
    matrix_inputs: Seq<bool>,
    values: Seq<u64>,
    changes: StaticChanges,
    from: int,
)
    requires
        0 <= from <= bindings.len(),
        loaded(network, bindings, matrix_inputs, values, changes, from).1 is Ok,
        forall|i: int, j: int|
            0 <= i < j < bindings.len() ==> (#[trigger] bindings[i]).input.spec_value() != (
            #[trigger] bindings[j]).input.spec_value(),
        forall|i: int|
            0 <= i < bindings.len() ==> (#[trigger] bindings[i]).input.spec_value() < values.len(),
        forall|i: int|
            0 <= i < bindings.len() ==> is_comparable(network, #[trigger] bindings[i]),
        forall|i: int| 0 <= i < from ==> in_place(network, #[trigger] bindings[i], values),
    ensures
        ({
            let after = loaded(network, bindings, matrix_inputs, values, changes, from).0;
            &&& after.len() == values.len()
            &&& forall|i: int|
                0 <= i < bindings.len() ==> in_place(network, #[trigger] bindings[i], after)
        }),
    decreases bindings.len() - from,
{
    if from < bindings.len() {
        let binding = bindings[from];
        let slot = binding.input.spec_value() as int;
        let value = network.arena().spec_parameter_at(
            binding.location,
            binding.parameter,
        )->Some_0->Some_0;
        if float_eq(values[slot], value) {
            lemma_loaded(network, bindings, matrix_inputs, values, changes, from + 1);
        } else {
            let next = values.update(slot, value);
            assert(is_comparable(network, binding));
            assert forall|i: int| 0 <= i < from + 1 implies in_place(
                network,
                #[trigger] bindings[i],
                next,
            ) by {
                if i < from {
                    assert(bindings[i].input.spec_value() != bindings[from].input.spec_value());
                    assert(in_place(network, bindings[i], values));
                }
            }
            lemma_loaded(
                network,
                bindings,
                matrix_inputs,
                next,
                StaticChanges { values: true, matrix: changes.matrix || matrix_inputs[slot] },
                from + 1,
            );
        }
    }
}

proof fn lemma_nothing_to_load(
    network: Network,
    bindings: Seq<ParameterInputBinding>,
    matrix_inputs: Seq<bool>,
    values: Seq<u64>,
    changes: StaticChanges,
    from: int,
)
    requires
        0 <= from <= bindings.len(),
        forall|i: int|
            0 <= i < bindings.len() ==> in_place(network, #[trigger] bindings[i], values),
    ensures
        loaded(network, bindings, matrix_inputs, values, changes, from) == (
            values,
            Ok::<StaticChanges, IslandRuntimeError>(changes),
        ),
    decreases bindings.len() - from,
{
    if from < bindings.len() {
        assert(in_place(network, bindings[from], values));
        lemma_nothing_to_load(network, bindings, matrix_inputs, values, changes, from + 1);
    }
}

/// Once the parameters have been filled in, filling them in again from the same network changes
/// nothing: neither the static values nor the matrix has to be computed anew. Each parameter has a
/// slot of its own, and is a number that is equal to itself.
pub proof fn law_same_parameters_change_nothing(
    network: Network,
    bindings: Seq<ParameterInputBinding>,
    matrix_inputs: Seq<bool>,
    values: Seq<u64>,
    changes: StaticChanges,
)
    requires
        loaded(network, bindings, matrix_inputs, values, changes, 0).1 is Ok,
        forall|i: int, j: int|
            0 <= i < j < bindings.len() ==> (#[trigger] bindings[i]).input.spec_value() != (
            #[trigger] bindings[j]).input.spec_value(),
        forall|i: int|
            0 <= i < bindings.len() ==> (#[trigger] bindings[i]).input.spec_value() < values.len(),
        forall|i: int|
            0 <= i < bindings.len() ==> is_comparable(network, #[trigger] bindings[i]),
    ensures
        ({
            let after = loaded(network, bindings, matrix_inputs, values, changes, 0).0;
            let none = StaticChanges { values: false, matrix: false };
            loaded(network, bindings, matrix_inputs, after, none, 0) == (
                after,
                Ok::<StaticChanges, IslandRuntimeError>(none),
            )
        }),
{
    lemma_loaded(network, bindings, matrix_inputs, values, changes, 0);
    lemma_nothing_to_load(
        network,
        bindings,
        matrix_inputs,
        loaded(network, bindings, matrix_inputs, values, changes, 0).0,
        StaticChanges { values: false, matrix: false },
        0,
    );
}

} // verus!
