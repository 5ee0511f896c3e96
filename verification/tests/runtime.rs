use faer::linalg::solvers::Solve;
use faer::sparse::linalg::solvers::Lu;
use faer::sparse::linalg::LuError;
use faer::sparse::{SparseColMatRef, SymbolicSparseColMatRef};
use faer::MatMut;
use hynergy::bindings::{
    CompiledPartitionInputs, DefinitionStateId, DefinitionStateInitializer, DeviceState, InputSlot,
    IslandRuntimeError, IslandStateLayout, PhysicalStateAddress, PhysicalStateError, StateSlot,
    StateWrite,
};
use hynergy::definition::PrimitiveElementKind;
use hynergy::device_arena::DeviceLocation;
use hynergy::discrete::{
    driver_inputs, ClosureOutcome, ClosureRun, ClosureStep, CompiledDiscretePlan,
    ComplementaryDriver, DriverPrediction, MatrixBarrier,
};
use hynergy::ids::{DefinitionId, DeviceId, ParameterId, TerminalId, WireId};
use hynergy::island_runtime::{
    iteration_stability_matches, Buffer, IslandPlan, IslandRuntime, IterationLatch, ObserverOutput,
    TickStart,
};
use hynergy::island_tick::{IslandTick, Reply, Request};
use hynergy::matrix_program::ValueSlot;
use hynergy::mna_system::{FactorFailure, MnaError, SolverFailure};
use hynergy::network::Network;
use hynergy::pattern::{PatternBuilder, UnknownIndex};
use hynergy::registry::DefinitionRegistry;
use hynergy::solve_control::{
    SolveAction, SolveControl, SolveEvent, SolveStart, NONLINEAR_MAX_ITERATIONS,
};

fn bits(value: f64) -> u64 {
    value.to_bits()
}

fn floats(bits: &[u64]) -> Vec<f64> {
    bits.iter().map(|&bits| f64::from_bits(bits)).collect()
}

fn device(raw: u32) -> DeviceId {
    DeviceId::try_from(raw).unwrap()
}

fn wire(raw: u32) -> WireId {
    WireId::try_from(raw).unwrap()
}

fn solutions_converged(previous: &[u64], current: &[u64]) -> bool {
    floats(previous)
        .into_iter()
        .zip(floats(current))
        .all(|(previous, current)| {
            (current - previous).abs() <= 1.0e-9 + 1.0e-6 * current.abs().max(previous.abs())
        })
}

type Program = fn(&mut [f64]);

/// An island with its programs, and how often it was stamped and solved.
struct Executor {
    island: IslandRuntime<Lu<u32, f64>>,
    execute_static: Program,
    execute_tick: Program,
    execute_iteration: Program,
    /// Rows, columns, sources and scales.
    matrix: Vec<(u32, u32, usize, f64)>,
    /// Rows, sources and scales.
    rhs: Vec<(usize, usize, f64)>,
    stamps: usize,
    solves: usize,
}

fn nothing(_values: &mut [f64]) {}

impl Executor {
    fn compute(&self, program: Program) -> Vec<u64> {
        let mut values = floats(self.island.workspace.values());
        program(&mut values);
        values.into_iter().map(bits).collect()
    }

    fn evaluate(&mut self, which: Buffer) {
        self.island.fill_solution_inputs(which);
        *self.island.workspace.values_mut() = self.compute(self.execute_iteration);
    }

    fn stamp(&mut self) -> Vec<u64> {
        self.stamps += 1;
        let values = floats(self.island.workspace.values());
        let mut matrix = vec![0.0; self.island.system.nnz()];
        for &(row, column, source, scale) in &self.matrix {
            let slot = self
                .island
                .system
                .pattern()
                .slot(UnknownIndex::new(row), UnknownIndex::new(column))
                .unwrap();
            matrix[slot.index()] += values[source] * scale;
        }
        matrix.into_iter().map(bits).collect()
    }

    fn factorize(&self) -> Result<Lu<u32, f64>, FactorFailure> {
        let system = &self.island.system;
        let dimension = system.dimension();
        let numbers = floats(system.values());
        let pattern = SymbolicSparseColMatRef::new_checked(
            dimension,
            dimension,
            system.pattern().column_ptrs(),
            None,
            system.pattern().row_indices(),
        );
        Lu::try_new_with_symbolic(
            system.symbolic().unwrap().inner.clone(),
            SparseColMatRef::new(pattern, &numbers),
        )
        .map_err(|error| match error {
            LuError::SymbolicSingular { index } => FactorFailure::SymbolicSingular { index },
            LuError::Generic(_) => FactorFailure::Generic(SolverFailure::Other),
        })
    }

    fn solve(&mut self) -> Vec<u64> {
        self.solves += 1;
        let dimension = self.island.system.dimension();
        let values = floats(self.island.workspace.values());
        let mut solution = vec![0.0; dimension];
        for &(row, source, scale) in &self.rhs {
            solution[row] += values[source] * scale;
        }
        if let Some(lu) = self.island.system.solver_for(dimension).unwrap() {
            lu.solve_in_place(MatMut::from_column_major_slice_mut(
                &mut solution,
                dimension,
                1,
            ));
        }
        solution.into_iter().map(bits).collect()
    }

    fn buffer(&self, which: Buffer) -> &[u64] {
        match which {
            Buffer::Solution => &self.island.solution,
            Buffer::Current => &self.island.current,
            Buffer::Next => &self.island.next,
        }
    }

    fn predictions(&self) -> Vec<DriverPrediction> {
        let plan = self.island.discrete_plan.as_ref().unwrap();
        driver_inputs(plan, &self.island.workspace, &self.island.current)
            .iter()
            .map(|inputs| {
                let pull_up = f64::from_bits(inputs.pull_up);
                let pull_down = f64::from_bits(inputs.pull_down);
                let denominator = pull_up + pull_down;
                let weighted = pull_up * f64::from_bits(inputs.high)
                    + pull_down * f64::from_bits(inputs.low);
                DriverPrediction {
                    denominator: bits(denominator),
                    output: bits(weighted / denominator),
                }
            })
            .collect()
    }

    fn follow_drivers(&mut self, limit: usize) -> ClosureOutcome {
        let mut run = ClosureRun::with_limit(limit);
        loop {
            let predictions = self.predictions();
            let island = &mut self.island;
            let plan = island.discrete_plan.as_ref().unwrap();
            let mut step = run.begin_round(
                plan,
                &island.workspace,
                &island.factorized_sources,
                &island.rhs_reference,
            );
            if step == ClosureStep::Predict {
                step = run.finish_round(plan, &island.workspace, &mut island.current, &predictions);
            }
            match step {
                ClosureStep::Finished(outcome) => return outcome,
                _ => self.evaluate(Buffer::Current),
            }
        }
    }

    fn solve_tick(
        &mut self,
        network: &Network,
        stored: &Vec<Result<Option<u64>, PhysicalStateError>>,
    ) -> Result<(), IslandRuntimeError> {
        self.island.prepare_tick_state_inputs(network, stored)?;
        let (mut tick, mut request) = IslandTick::start(&mut self.island, network);
        loop {
            let reply = match request {
                Request::Slept | Request::Finished => return Ok(()),
                Request::Failed(error) => return Err(error),
                Request::ComputeStatic => Reply::Values(self.compute(self.execute_static)),
                Request::ComputeTick => Reply::Values(self.compute(self.execute_tick)),
                Request::ComputeIteration => Reply::Values(self.compute(self.execute_iteration)),
                Request::StampMatrix => Reply::Matrix(self.stamp()),
                Request::Factorize => Reply::Factorization(self.factorize()),
                Request::Solve => Reply::Solution(self.solve()),
                Request::Compare { previous, current } => Reply::Close(solutions_converged(
                    self.buffer(previous),
                    self.buffer(current),
                )),
                Request::Predict => Reply::Predictions(self.predictions()),
            };
            request = tick.resume(&mut self.island, reply);
        }
    }

    fn tick(&mut self, network: &Network) -> Result<(), IslandRuntimeError> {
        self.solve_tick(network, &Vec::new())
    }
}

fn plan(value_count: usize) -> IslandPlan {
    IslandPlan {
        value_count,
        timestep_input: None,
        state_inputs: Vec::new(),
        state_writes: Vec::new(),
        solution_inputs: Vec::new(),
        iteration_latches: Vec::new(),
        iteration_matrix_sources: Vec::new(),
        iteration_stability_values: Vec::new(),
        requires_nonlinear_iteration: false,
        matrix_inputs: vec![false; value_count],
    }
}

fn no_states() -> IslandStateLayout {
    IslandStateLayout { states: Vec::new() }
}

/// A voltage source of five volts between two wires.
fn source_network() -> Network {
    let definitions = DefinitionRegistry::new();
    let mut network = Network::new();
    network.add_wire(wire(1)).unwrap();
    network.add_wire(wire(2)).unwrap();
    network
        .add_device(
            &definitions,
            device(1),
            DefinitionId::from(PrimitiveElementKind::VoltageSource),
        )
        .unwrap();
    network
        .attach_terminal(wire(2), device(1), TerminalId::new(0))
        .unwrap();
    network
        .attach_terminal(wire(1), device(1), TerminalId::new(1))
        .unwrap();
    network
        .set_device_parameter(&definitions, device(1), ParameterId::new(0), bits(5.0))
        .unwrap();
    network
}

/// The values are the voltage of the source, one, the conductance, and the observed voltage.
fn source_island(network: &Network, conductance: bool, nonlinear: bool) -> Executor {
    let mut builder = PatternBuilder::new(2).unwrap();
    let mut matrix = vec![(0, 1, 1, 1.0), (1, 0, 1, 1.0)];
    if conductance {
        matrix.push((0, 0, 2, 1.0));
    }
    for &(row, column, _, _) in &matrix {
        builder
            .request(UnknownIndex::new(row), UnknownIndex::new(column))
            .unwrap();
    }
    let mut plan = plan(4);
    plan.matrix_inputs[2] = true;
    plan.requires_nonlinear_iteration = nonlinear;
    plan.solution_inputs = vec![(UnknownIndex::new(0), InputSlot::new(3))];
    let mut inputs = vec![CompiledPartitionInputs {
        device: device(1),
        definition_parameters: vec![ParameterId::new(0)],
        parameter_inputs: vec![InputSlot::new(0)],
    }];
    if conductance {
        inputs.push(CompiledPartitionInputs {
            device: device(2),
            definition_parameters: vec![ParameterId::new(0)],
            parameter_inputs: vec![InputSlot::new(2)],
        });
    }
    let island = IslandRuntime::new(
        builder.finish().unwrap(),
        plan,
        None,
        &no_states(),
        &inputs,
        vec![ObserverOutput {
            observer: 0,
            value: ValueSlot::new(3),
        }],
        network,
        bits(1.0),
    )
    .unwrap();
    Executor {
        island,
        execute_static: |values| values[1] = 1.0,
        execute_tick: nothing,
        execute_iteration: nothing,
        matrix,
        rhs: vec![(1, 0, 1.0)],
        stamps: 0,
        solves: 0,
    }
}

fn loaded_source(conductance: f64) -> Network {
    let definitions = DefinitionRegistry::new();
    let mut network = source_network();
    network
        .add_device(
            &definitions,
            device(2),
            DefinitionId::from(PrimitiveElementKind::Conductance),
        )
        .unwrap();
    network
        .attach_terminal(wire(2), device(2), TerminalId::new(0))
        .unwrap();
    network
        .attach_terminal(wire(1), device(2), TerminalId::new(1))
        .unwrap();
    network
        .set_device_parameter(
            &definitions,
            device(2),
            ParameterId::new(0),
            bits(conductance),
        )
        .unwrap();
    network
}

#[test]
fn linear_island_solves_once() {
    let network = source_network();
    let mut executor = source_island(&network, false, false);

    executor.tick(&network).unwrap();

    assert_eq!(executor.solves, 1);
}

#[test]
fn clean_stateless_island_sleeps_after_first_solve() {
    let network = source_network();
    let mut executor = source_island(&network, false, false);

    executor.tick(&network).unwrap();
    assert_eq!(executor.solves, 1);

    executor.tick(&network).unwrap();
    assert_eq!(executor.solves, 1);
}

#[test]
fn numerical_invalidation_wakes_sleeping_island() {
    let network = source_network();
    let mut executor = source_island(&network, false, false);

    executor.tick(&network).unwrap();
    executor.tick(&network).unwrap();
    assert_eq!(executor.solves, 1);

    executor.island.mark_numerical_dirty();
    executor.tick(&network).unwrap();
    assert_eq!(executor.solves, 2);

    executor.tick(&network).unwrap();
    assert_eq!(executor.solves, 2);
}

#[test]
fn sleeping_island_keeps_cached_observer_values_available() {
    let network = source_network();
    let mut executor = source_island(&network, false, false);
    assert_eq!(executor.island.observer_value(0), None);

    executor.tick(&network).unwrap();
    let first = executor.island.observer_value(0).unwrap();

    executor.tick(&network).unwrap();
    assert_eq!(executor.solves, 1);
    assert_eq!(executor.island.observer_value(0), Some(first));
    assert!((f64::from_bits(first) - 5.0).abs() < 1.0e-12);
    assert_eq!(executor.island.observer_value(1), None);
}

#[test]
fn nonlinear_island_reuses_previous_solution_after_invalidation() {
    let network = source_network();
    let mut executor = source_island(&network, false, true);

    executor.tick(&network).unwrap();
    assert_eq!(executor.solves, 2);

    executor.island.mark_numerical_dirty();
    executor.tick(&network).unwrap();
    assert_eq!(executor.solves, 3);
}

#[test]
fn nonlinear_rhs_iteration_reuses_matrix_factorization() {
    let network = source_network();
    let mut executor = source_island(&network, false, true);

    executor.tick(&network).unwrap();

    assert_eq!(executor.solves, 2);
    assert_eq!(executor.stamps, 1);
}

#[test]
fn voltage_source_and_conductance_solve_node_voltage() {
    let network = loaded_source(2.0);
    let mut executor = source_island(&network, true, false);

    executor.tick(&network).unwrap();

    let solution = floats(&executor.island.solution);
    assert!((solution[0] - 5.0).abs() < 1.0e-12);
    assert!((solution[1] + 10.0).abs() < 1.0e-12);
}

#[test]
fn matrix_affecting_parameter_change_restamps_matrix() {
    let definitions = DefinitionRegistry::new();
    let mut network = loaded_source(1.0);
    let mut executor = source_island(&network, true, false);

    executor.tick(&network).unwrap();
    assert_eq!(executor.stamps, 1);
    executor.tick(&network).unwrap();
    assert_eq!(executor.stamps, 1);

    network
        .set_device_parameter(&definitions, device(2), ParameterId::new(0), bits(2.0))
        .unwrap();
    executor.island.mark_numerical_dirty();
    executor.tick(&network).unwrap();
    assert_eq!(executor.stamps, 2);
}

#[test]
fn rhs_only_parameter_change_reuses_matrix_factorization() {
    let definitions = DefinitionRegistry::new();
    let mut network = loaded_source(1.0);
    let mut executor = source_island(&network, true, false);

    executor.tick(&network).unwrap();
    assert_eq!(executor.stamps, 1);

    network
        .set_device_parameter(&definitions, device(1), ParameterId::new(0), bits(9.0))
        .unwrap();
    executor.island.mark_numerical_dirty();
    executor.tick(&network).unwrap();
    assert_eq!(executor.stamps, 1);
    assert!((floats(&executor.island.solution)[0] - 9.0).abs() < 1.0e-12);
}

#[test]
fn numerical_dirty_parameter_refresh_uses_physical_bindings() {
    let mut network = source_network();
    let mut executor = source_island(&network, false, false);
    executor.tick(&network).unwrap();

    network
        .set_device_parameter(
            &DefinitionRegistry::new(),
            device(1),
            ParameterId::new(0),
            bits(9.0),
        )
        .unwrap();
    executor.island.mark_numerical_dirty();
    executor.tick(&network).unwrap();

    assert_eq!(executor.island.observer_value(0), Some(bits(9.0)));
}

#[test]
fn missing_parameters_stop_a_tick() {
    let definitions = DefinitionRegistry::new();
    let mut network = source_network();
    network
        .add_device(
            &definitions,
            device(2),
            DefinitionId::from(PrimitiveElementKind::Conductance),
        )
        .unwrap();
    let mut executor = source_island(&network, true, false);

    assert_eq!(
        executor.tick(&network),
        Err(IslandRuntimeError::MissingParameter {
            device: device(2),
            parameter: ParameterId::new(0)
        })
    );
    assert_eq!(executor.island.observer_value(0), None);
}

#[test]
fn matrices_and_solutions_have_to_be_finite() {
    let network = source_network();
    let mut executor = source_island(&network, false, false);
    executor.execute_static = |values| values[1] = f64::INFINITY;
    assert_eq!(
        executor.tick(&network),
        Err(IslandRuntimeError::NonFiniteMatrix)
    );

    let mut executor = source_island(&network, false, false);
    executor.rhs = vec![(1, 0, f64::NAN)];
    assert_eq!(
        executor.tick(&network),
        Err(IslandRuntimeError::NonFiniteSolution)
    );
}

#[test]
fn unknown_devices_stop_the_setup() {
    let network = source_network();
    let inputs = vec![CompiledPartitionInputs {
        device: device(9),
        definition_parameters: vec![ParameterId::new(0)],
        parameter_inputs: vec![InputSlot::new(0)],
    }];
    let result: Result<IslandRuntime<()>, IslandRuntimeError> = IslandRuntime::new(
        PatternBuilder::new(0).unwrap().finish().unwrap(),
        plan(1),
        None,
        &no_states(),
        &inputs,
        Vec::new(),
        &network,
        bits(1.0),
    );
    assert_eq!(
        result.err(),
        Some(IslandRuntimeError::MissingDevice { device: device(9) })
    );
}

/// A conductance, a capacitor and a current source in parallel. The values are the conductance, the
/// capacitance, the current, the timestep, the state, capacitance over timestep, the current of the
/// state, and the voltage.
fn capacitor_island(timestep: f64) -> (Network, Executor, PhysicalStateAddress) {
    let definitions = DefinitionRegistry::new();
    let mut network = Network::new();
    let kinds = [
        (PrimitiveElementKind::Conductance, 1.0),
        (PrimitiveElementKind::Capacitor, 2.0),
        (PrimitiveElementKind::CurrentSource, 2.0),
    ];
    let mut inputs = Vec::new();
    for (index, (kind, value)) in kinds.into_iter().enumerate() {
        let id = device(index as u32 + 1);
        network
            .add_device(&definitions, id, DefinitionId::from(kind))
            .unwrap();
        network
            .set_device_parameter(&definitions, id, ParameterId::new(0), bits(value))
            .unwrap();
        inputs.push(CompiledPartitionInputs {
            device: id,
            definition_parameters: vec![ParameterId::new(0)],
            parameter_inputs: vec![InputSlot::new(index as u32)],
        });
    }
    let mut builder = PatternBuilder::new(1).unwrap();
    builder
        .request(UnknownIndex::new(0), UnknownIndex::new(0))
        .unwrap();
    let mut plan = plan(8);
    plan.timestep_input = Some(InputSlot::new(3));
    plan.matrix_inputs[0] = true;
    plan.matrix_inputs[1] = true;
    plan.state_inputs = vec![(StateSlot::new(0), InputSlot::new(4))];
    plan.state_writes = vec![StateWrite {
        destination: StateSlot::new(0),
        source: ValueSlot::new(7),
    }];
    plan.solution_inputs = vec![(UnknownIndex::new(0), InputSlot::new(7))];
    let states = IslandStateLayout {
        states: vec![(
            DeviceState {
                device: device(2),
                state: DefinitionStateId::new(0),
            },
            DefinitionStateInitializer::Constant(bits(0.0)),
        )],
    };
    let island = IslandRuntime::new(
        builder.finish().unwrap(),
        plan,
        None,
        &states,
        &inputs,
        Vec::new(),
        &network,
        bits(timestep),
    )
    .unwrap();
    let address = PhysicalStateAddress {
        location: network.device_location(device(2)).unwrap(),
        state_index: 0,
    };
    let executor = Executor {
        island,
        execute_static: |values| values[5] = values[1] / values[3],
        execute_tick: |values| values[6] = values[5] * values[4],
        execute_iteration: nothing,
        matrix: vec![(0, 0, 0, 1.0), (0, 0, 5, 1.0)],
        rhs: vec![(0, 2, 1.0), (0, 6, 1.0)],
        stamps: 0,
        solves: 0,
    };
    (network, executor, address)
}

/// Solves a tick with what the state holds, and tells what it holds afterwards.
fn capacitor_tick(network: &Network, executor: &mut Executor, stored: Option<u64>) -> u64 {
    executor.solve_tick(network, &vec![Ok(stored)]).unwrap();
    executor
        .island
        .validate_state_outputs(&vec![Ok(())])
        .unwrap();
    executor.island.scatter_state_outputs()[0].1
}

#[test]
fn stateful_island_does_not_sleep_between_ticks() {
    let (network, mut executor, _) = capacitor_island(0.5);

    let first = capacitor_tick(&network, &mut executor, None);
    assert_eq!(executor.solves, 1);
    capacitor_tick(&network, &mut executor, Some(first));
    assert_eq!(executor.solves, 2);
}

#[test]
fn fixed_timestep_capacitor_reuses_matrix_factorization() {
    let (network, mut executor, _) = capacitor_island(0.5);

    let first = capacitor_tick(&network, &mut executor, None);
    capacitor_tick(&network, &mut executor, Some(first));

    assert_eq!(executor.solves, 2);
    assert_eq!(executor.stamps, 1);
}

#[test]
fn capacitor_tick_reads_old_state_and_retains_next_state() {
    let (network, mut executor, address) = capacitor_island(0.5);

    let first = capacitor_tick(&network, &mut executor, None);
    assert!((f64::from_bits(first) - 0.4).abs() < 1.0e-12);
    assert_eq!(executor.island.scatter_state_outputs(), vec![(address, first)]);
    assert_eq!(
        executor.island.finalize_state_outputs(),
        vec![address.location]
    );

    let second = capacitor_tick(&network, &mut executor, Some(first));
    assert!((f64::from_bits(second) - 0.72).abs() < 1.0e-12);
}

/// The states of devices: what is stored where, and which devices have been written.
#[derive(Default)]
struct PhysicalStates {
    values: Vec<(PhysicalStateAddress, u64)>,
    initialized: Vec<DeviceLocation>,
}

#[test]
fn scattering_state_outputs_does_not_finalize_state_rows() {
    let (network, mut executor, state) = capacitor_island(0.5);
    let mut states = PhysicalStates::default();

    capacitor_tick(&network, &mut executor, None);
    assert!(!states.initialized.contains(&state.location));

    states.values.extend(executor.island.scatter_state_outputs());

    assert_eq!(states.values.len(), 1);
    assert_eq!(states.values[0].0, state);
    assert!((f64::from_bits(states.values[0].1) - 0.4).abs() < 1.0e-12);
    assert!(!states.initialized.contains(&state.location));
}

#[test]
fn finalizing_state_outputs_marks_state_rows_initialized() {
    let (network, mut executor, state) = capacitor_island(0.5);
    let mut states = PhysicalStates::default();

    capacitor_tick(&network, &mut executor, None);
    states.values.extend(executor.island.scatter_state_outputs());
    assert!(!states.initialized.contains(&state.location));

    states
        .initialized
        .extend(executor.island.finalize_state_outputs());

    assert!(states.initialized.contains(&state.location));
    assert!((f64::from_bits(states.values[0].1) - 0.4).abs() < 1.0e-12);
}

#[test]
fn stateful_runtime_validates_bound_state_outputs() {
    let (network, mut executor, _) = capacitor_island(0.5);
    capacitor_tick(&network, &mut executor, None);

    executor
        .island
        .validate_state_outputs(&vec![Ok(())])
        .unwrap();
    let state = DeviceState {
        device: device(2),
        state: DefinitionStateId::new(0),
    };
    assert_eq!(
        executor
            .island
            .validate_state_outputs(&vec![Err(PhysicalStateError::StateNotInitialized { state })]),
        Err(IslandRuntimeError::MissingState {
            device: device(2),
            state: DefinitionStateId::new(0)
        })
    );
    executor.island.workspace.values_mut()[7] = bits(f64::NAN);
    assert_eq!(
        executor.island.validate_state_outputs(&vec![Ok(())]),
        Err(IslandRuntimeError::NonFiniteState { state })
    );
}

#[test]
fn unreadable_states_stop_a_tick() {
    let (network, mut executor, _) = capacitor_island(0.5);
    let state = DeviceState {
        device: device(2),
        state: DefinitionStateId::new(0),
    };
    assert_eq!(
        executor.solve_tick(
            &network,
            &vec![Err(PhysicalStateError::StateNotInitialized { state })]
        ),
        Err(IslandRuntimeError::MissingState {
            device: device(2),
            state: DefinitionStateId::new(0)
        })
    );
    assert_eq!(executor.solves, 0);
}

#[test]
fn rebinding_follows_moved_devices() {
    let definitions = DefinitionRegistry::new();
    let mut network = source_network();
    network
        .add_device(
            &definitions,
            device(2),
            DefinitionId::from(PrimitiveElementKind::VoltageSource),
        )
        .unwrap();
    network
        .set_device_parameter(&definitions, device(2), ParameterId::new(0), bits(7.0))
        .unwrap();
    let inputs = vec![CompiledPartitionInputs {
        device: device(2),
        definition_parameters: vec![ParameterId::new(0)],
        parameter_inputs: vec![InputSlot::new(0)],
    }];
    let mut island: IslandRuntime<()> = IslandRuntime::new(
        PatternBuilder::new(0).unwrap().finish().unwrap(),
        plan(1),
        None,
        &no_states(),
        &inputs,
        Vec::new(),
        &network,
        bits(1.0),
    )
    .unwrap();

    network.remove_device(device(1)).unwrap();
    island.rebind(&network).unwrap();

    assert_eq!(
        island.begin_tick(&network),
        Ok(TickStart::Solve {
            execute_static: true,
            had_solution: false
        })
    );
    assert_eq!(island.workspace.values(), &[bits(7.0)]);
    network.remove_device(device(2)).unwrap();
    assert_eq!(
        island.rebind(&network),
        Err(IslandRuntimeError::MissingDevice { device: device(2) })
    );
}

#[test]
fn iteration_stability_requires_exact_values() {
    assert!(solutions_converged(&[bits(0.0)], &[bits(5.0e-10)]));

    assert!(!iteration_stability_matches(
        &vec![bits(0.0)],
        &vec![bits(5.0e-10)],
    ));

    assert!(iteration_stability_matches(
        &vec![bits(0.0), bits(1.0)],
        &vec![bits(0.0), bits(1.0)],
    ));
}

#[test]
fn iteration_latch_advances_to_computed_value() {
    let mut plan = plan(4);
    plan.state_inputs = vec![(StateSlot::new(0), InputSlot::new(0))];
    plan.iteration_latches = vec![IterationLatch {
        input: InputSlot::new(1),
        initial: ValueSlot::new(0),
        update: ValueSlot::new(3),
    }];
    let network = source_network();
    let states = IslandStateLayout {
        states: vec![(
            DeviceState {
                device: device(1),
                state: DefinitionStateId::new(0),
            },
            DefinitionStateInitializer::Constant(bits(0.0)),
        )],
    };
    let mut island: IslandRuntime<()> = IslandRuntime::new(
        PatternBuilder::new(0).unwrap().finish().unwrap(),
        plan,
        None,
        &states,
        &Vec::new(),
        Vec::new(),
        &network,
        bits(1.0),
    )
    .unwrap();
    let compute = |island: &mut IslandRuntime<()>| {
        let values = island.workspace.values_mut();
        values[2] = bits(1.0);
        values[3] = bits(f64::from_bits(values[2]) - f64::from_bits(values[1]));
    };

    island
        .prepare_tick_state_inputs(&network, &vec![Ok(Some(bits(0.0)))])
        .unwrap();
    island.begin_solve(false);
    compute(&mut island);
    assert_eq!(island.workspace.value(ValueSlot::new(3)), bits(1.0));

    island.advance_iteration_latches();
    compute(&mut island);
    assert_eq!(island.workspace.value(ValueSlot::new(3)), bits(0.0));
}

/// The unknowns are the outputs of two drivers, the high rail and the input. The values are those
/// four voltages and the pulls of both drivers.
fn chain(execute_iteration: Program, barriers: bool) -> Executor {
    let network = source_network();
    let mut builder = PatternBuilder::new(4).unwrap();
    for index in 0..4 {
        builder
            .request(UnknownIndex::new(index), UnknownIndex::new(index))
            .unwrap();
    }
    let mut plan = plan(8);
    plan.requires_nonlinear_iteration = true;
    plan.solution_inputs = (0..4)
        .map(|index| (UnknownIndex::new(index), InputSlot::new(index)))
        .collect();
    plan.iteration_matrix_sources = vec![ValueSlot::new(3)];
    let driver = |output: u32| ComplementaryDriver {
        output: UnknownIndex::new(output),
        high_rail: Some(UnknownIndex::new(2)),
        low_rail: None,
        pull_up: ValueSlot::new(4 + 2 * output),
        pull_down: ValueSlot::new(5 + 2 * output),
    };
    let discrete = CompiledDiscretePlan {
        drivers: vec![driver(0), driver(1)],
        matrix_barriers: if barriers {
            vec![MatrixBarrier {
                source: ValueSlot::new(3),
                factorized_source_index: 0,
            }]
        } else {
            Vec::new()
        },
        rhs_barriers: Vec::new(),
    };
    let mut island = IslandRuntime::new(
        builder.finish().unwrap(),
        plan,
        Some(discrete),
        &no_states(),
        &Vec::new(),
        Vec::new(),
        &network,
        bits(1.0),
    )
    .unwrap();
    island.current[2] = bits(5.0);
    island.current[3] = bits(5.0);
    let mut executor = Executor {
        island,
        execute_static: nothing,
        execute_tick: nothing,
        execute_iteration,
        matrix: Vec::new(),
        rhs: Vec::new(),
        stamps: 0,
        solves: 0,
    };
    executor.evaluate(Buffer::Current);
    executor
}

/// The first driver follows the input, the second one the first.
fn two_levels(values: &mut [f64]) {
    let first = if 2.5 <= values[3] { 1.0 } else { 0.0 };
    let second = if 2.5 <= values[0] { 1.0 } else { 0.0 };
    values[4..8].copy_from_slice(&[first, 1.0 - first, second, 1.0 - second]);
}

/// Each driver inverts the other.
fn flip_flop(values: &mut [f64]) {
    let first = if 2.5 <= values[1] { 0.0 } else { 1.0 };
    let second = if 2.5 <= values[0] { 0.0 } else { 1.0 };
    values[4..8].copy_from_slice(&[first, 1.0 - first, second, 1.0 - second]);
}

fn cancelled_pulls(values: &mut [f64]) {
    values[4..8].copy_from_slice(&[1.0, -1.0, 1.0, 1.0]);
}

#[test]
fn closure_propagates_multiple_logic_levels_without_mna() {
    let mut executor = chain(two_levels, false);

    assert_eq!(executor.follow_drivers(128), ClosureOutcome::Settled);
    assert_eq!(executor.island.current[0], bits(5.0));
    assert_eq!(executor.island.current[1], bits(5.0));
}

#[test]
fn closure_rounds_are_synchronous() {
    let mut executor = chain(two_levels, false);

    assert_eq!(executor.follow_drivers(1), ClosureOutcome::BudgetExceeded);
    assert_eq!(executor.island.current[0], bits(5.0));
    assert_eq!(executor.island.current[1], bits(0.0));
}

#[test]
fn matrix_barrier_stops_closure_before_local_output_update() {
    let mut executor = chain(two_levels, true);

    assert_eq!(executor.follow_drivers(128), ClosureOutcome::Barrier);
    assert_eq!(executor.island.current[0], bits(0.0));
}

#[test]
fn rhs_barrier_stops_closure_before_local_output_update() {
    let mut executor = chain(two_levels, false);
    let discrete = executor.island.discrete_plan.as_mut().unwrap();
    discrete.rhs_barriers = vec![ValueSlot::new(3)];
    executor.island.rhs_reference = vec![bits(0.0)];

    assert_eq!(executor.follow_drivers(128), ClosureOutcome::Barrier);
    assert_eq!(executor.island.current[0], bits(0.0));
}

#[test]
fn zero_conductance_denominator_falls_back_as_invalid_prediction() {
    let mut executor = chain(cancelled_pulls, false);

    assert_eq!(
        executor.follow_drivers(128),
        ClosureOutcome::InvalidPrediction
    );
    assert_eq!(executor.island.current[0], bits(0.0));
    assert_eq!(executor.island.current[1], bits(0.0));
}

#[test]
fn nonsettling_combinational_cycle_exhausts_budget() {
    let mut executor = chain(flip_flop, false);

    assert_eq!(executor.follow_drivers(128), ClosureOutcome::BudgetExceeded);
}

/// An inverter between a rail of five volts and the ground, whose input is at the given voltage. The
/// unknowns are output, rail, input, and the currents of rail and input. The values are the voltages
/// of rail and input, one, the mode, both pulls, and the voltage of the input as solved.
fn inverter(input: f64) -> (Network, Executor) {
    let definitions = DefinitionRegistry::new();
    let mut network = source_network();
    network
        .add_device(
            &definitions,
            device(2),
            DefinitionId::from(PrimitiveElementKind::VoltageSource),
        )
        .unwrap();
    network
        .set_device_parameter(&definitions, device(2), ParameterId::new(0), bits(input))
        .unwrap();
    let matrix = vec![
        (0, 0, 4, 1.0),
        (0, 0, 5, 1.0),
        (0, 1, 4, -1.0),
        (1, 0, 4, -1.0),
        (1, 1, 4, 1.0),
        (1, 3, 2, 1.0),
        (3, 1, 2, 1.0),
        (2, 4, 2, 1.0),
        (4, 2, 2, 1.0),
    ];
    let mut builder = PatternBuilder::new(5).unwrap();
    for &(row, column, _, _) in &matrix {
        builder
            .request(UnknownIndex::new(row), UnknownIndex::new(column))
            .unwrap();
    }
    let mut plan = plan(7);
    plan.requires_nonlinear_iteration = true;
    plan.solution_inputs = vec![(UnknownIndex::new(2), InputSlot::new(6))];
    plan.iteration_matrix_sources = vec![ValueSlot::new(4), ValueSlot::new(5)];
    plan.iteration_stability_values = vec![ValueSlot::new(3)];
    let inputs = (1..=2)
        .map(|raw| CompiledPartitionInputs {
            device: device(raw),
            definition_parameters: vec![ParameterId::new(0)],
            parameter_inputs: vec![InputSlot::new(raw - 1)],
        })
        .collect();
    let discrete = CompiledDiscretePlan {
        drivers: vec![ComplementaryDriver {
            output: UnknownIndex::new(0),
            high_rail: Some(UnknownIndex::new(1)),
            low_rail: None,
            pull_up: ValueSlot::new(4),
            pull_down: ValueSlot::new(5),
        }],
        matrix_barriers: Vec::new(),
        rhs_barriers: Vec::new(),
    };
    let island = IslandRuntime::new(
        builder.finish().unwrap(),
        plan,
        Some(discrete),
        &no_states(),
        &inputs,
        Vec::new(),
        &network,
        bits(1.0),
    )
    .unwrap();
    let executor = Executor {
        island,
        execute_static: |values| values[2] = 1.0,
        execute_tick: nothing,
        execute_iteration: |values| {
            let low = 2.5 <= values[6];
            values[3] = if low { 0.0 } else { 1.0 };
            values[4] = if low { 0.01 } else { 10.0 };
            values[5] = if low { 10.0 } else { 0.01 };
        },
        matrix,
        rhs: vec![(3, 0, 1.0), (4, 1, 1.0)],
        stamps: 0,
        solves: 0,
    };
    (network, executor)
}

#[test]
fn exact_first_verification_fixed_point_needs_no_confirmation_solve() {
    let (network, mut executor) = inverter(0.0);

    executor.tick(&network).unwrap();

    assert_eq!(executor.solves, 1);
    assert_eq!(executor.stamps, 1);
}

#[test]
fn changed_discrete_matrix_still_requires_corrective_verification_solve() {
    let (network, mut executor) = inverter(5.0);

    executor.tick(&network).unwrap();

    assert_eq!(executor.solves, 2);
    assert_eq!(executor.stamps, 2);
}

#[test]
fn inverters_follow_their_threshold_inclusively() {
    let high = 5.0 * 10.0 / (10.0 + 0.01);
    let low = 5.0 * 0.01 / (10.0 + 0.01);
    for (input, expected) in [(0.0, high), (5.0, low), (2.5, low)] {
        let (network, mut executor) = inverter(input);
        executor.tick(&network).unwrap();
        assert!((floats(&executor.island.solution)[0] - expected).abs() < 1.0e-9);
        let solves = executor.solves;
        executor.tick(&network).unwrap();
        assert_eq!(executor.solves, solves);
    }
}

#[test]
fn solutions_that_do_not_become_stable_are_given_up() {
    let mut control = SolveControl::new(SolveStart {
        nonlinear: true,
        discrete: false,
        resumable: false,
    });
    let mut solves = 0;
    loop {
        match control.action {
            SolveAction::IterateFirst | SolveAction::Iterate => {
                solves += 1;
                control = control.advance(SolveEvent::Solved { converged: false });
            }
            _ => break,
        }
    }
    assert_eq!(solves, NONLINEAR_MAX_ITERATIONS);
    assert_eq!(
        control.action,
        SolveAction::Fail(IslandRuntimeError::NonlinearDidNotConverge {
            iterations: NONLINEAR_MAX_ITERATIONS
        })
    );
}

#[test]
fn islands_with_drivers_start_from_what_is_known() {
    let start = SolveStart {
        nonlinear: true,
        discrete: true,
        resumable: false,
    };
    let control = SolveControl::new(start);
    assert_eq!(control.action, SolveAction::EvaluateAndVerify);
    let control = control.advance(SolveEvent::Solved { converged: false });
    assert_eq!(control.action, SolveAction::Evaluate);
    let control = control.advance(SolveEvent::Evaluated { stable: false });
    assert_eq!(control.action, SolveAction::FollowDrivers);
    let fallback = control.advance(SolveEvent::Followed(ClosureOutcome::BudgetExceeded));
    assert_eq!(fallback.action, SolveAction::IterateFirst);
    let control = control.advance(SolveEvent::Followed(ClosureOutcome::Barrier));
    assert_eq!(control.action, SolveAction::Verify);
    let control = control.advance(SolveEvent::Solved { converged: true });
    assert_eq!(control.action, SolveAction::Finish);
    assert_eq!(control.iterations_used, 2);
    let resumed = SolveControl::new(SolveStart {
        resumable: true,
        ..start
    });
    assert_eq!(resumed.action, SolveAction::Evaluate);
    assert_eq!(
        resumed
            .advance(SolveEvent::Evaluated { stable: true })
            .action,
        SolveAction::Verify
    );
}

#[test]
fn solver_errors_reach_the_island() {
    let network = source_network();
    let mut executor = source_island(&network, false, false);
    executor.island.matrix_dirty = false;
    executor.island.static_initialized = true;
    assert_eq!(
        executor.tick(&network),
        Err(IslandRuntimeError::Mna(MnaError::NotFactorized))
    );
    assert_eq!(executor.solves, 0);

    let mut executor = source_island(&network, false, false);
    let (mut tick, mut request) = IslandTick::start(&mut executor.island, &network);
    while request != Request::Factorize {
        let reply = match request {
            Request::StampMatrix => Reply::Matrix(executor.stamp()),
            _ => Reply::Values(executor.compute(executor.execute_static)),
        };
        request = tick.resume(&mut executor.island, reply);
    }
    let failure = FactorFailure::SymbolicSingular { index: 1 };
    assert_eq!(
        tick.resume(&mut executor.island, Reply::Factorization(Err(failure))),
        Request::Failed(IslandRuntimeError::Mna(MnaError::Singular { index: 1 }))
    );
    assert!(!executor.island.solution_valid);
}

#[test]
fn islands_that_alternate_are_given_up() {
    let network = source_network();
    let mut executor = source_island(&network, false, true);
    executor.execute_iteration = |values| values[1] = -values[1];
    executor.island.plan.iteration_matrix_sources = vec![ValueSlot::new(1)];
    executor.island.factorized_sources = vec![0];

    assert_eq!(
        executor.tick(&network),
        Err(IslandRuntimeError::NonlinearDidNotConverge {
            iterations: NONLINEAR_MAX_ITERATIONS
        })
    );
    assert_eq!(executor.solves, NONLINEAR_MAX_ITERATIONS);
    assert_eq!(executor.island.observer_value(0), None);
}

#[test]
fn observers_are_marked_when_an_island_was_solved() {
    let network = source_network();
    let mut executor = source_island(&network, false, false);
    assert!(!executor.island.observer_outputs_dirty);

    executor.tick(&network).unwrap();
    assert!(executor.island.observer_outputs_dirty);

    executor.island.mark_observer_outputs_clean();
    assert!(!executor.island.observer_outputs_dirty);
    executor.tick(&network).unwrap();
    assert!(!executor.island.observer_outputs_dirty);
}

#[test]
fn unchanged_parameters_change_nothing() {
    let network = source_network();
    let mut executor = source_island(&network, false, false);
    let mut fresh = source_island(&network, false, false);
    let (_, request) = IslandTick::start(&mut fresh.island, &network);
    assert_eq!(request, Request::ComputeStatic);
    assert!(fresh.island.matrix_dirty);

    executor.tick(&network).unwrap();
    executor.island.mark_numerical_dirty();
    let (_, request) = IslandTick::start(&mut executor.island, &network);
    assert_eq!(request, Request::ComputeTick);
    assert!(!executor.island.matrix_dirty);
}
