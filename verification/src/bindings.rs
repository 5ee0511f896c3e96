//! Where an island reads parameters and states, and where it writes states.

use crate::device_arena::DeviceLocation;
use crate::ids::{DeviceId, ParameterId};
use crate::matrix_program::ValueSlot;
use crate::mna_system::MnaError;
use crate::float_bits::{is_finite, is_finite_bits};
use crate::network::Network;
use crate::workspace::ValueWorkspace;
use vstd::prelude::*;

verus! {

/// A place of the workspace that is filled from outside.
#[derive(Debug, Clone, Copy, PartialEq, Eq, PartialOrd, Ord, Hash, Structural)]
pub struct InputSlot {
    raw: u32,
}

impl InputSlot {
    pub closed spec fn spec_value(self) -> u32 {
        self.raw
    }

    pub fn new(index: u32) -> (result: Self)
        ensures
            result.spec_value() == index,
    {
        InputSlot { raw: index }
    }

    /// The value that the input fills.
    pub fn value(self) -> (result: ValueSlot)
        ensures
            result.value() == self.spec_value(),
    {
        ValueSlot::new(self.raw)
    }

    pub fn index(self) -> (result: usize)
        ensures
            result == self.spec_value(),
    {
        self.raw as usize
    }
}

/// A state of an island.
#[derive(Debug, Clone, Copy, PartialEq, Eq, PartialOrd, Ord, Hash, Structural)]
pub struct StateSlot {
    raw: u32,
}

impl StateSlot {
    pub closed spec fn value(self) -> u32 {
        self.raw
    }

    pub fn new(index: u32) -> (result: Self)
        ensures
            result.value() == index,
    {
        StateSlot { raw: index }
    }

    pub fn index(self) -> (result: usize)
        ensures
            result == self.value(),
    {
        self.raw as usize
    }
}

/// A state of a definition.
#[derive(Debug, Clone, Copy, PartialEq, Eq, PartialOrd, Ord, Hash, Structural)]
pub struct DefinitionStateId {
    raw: u32,
}

impl DefinitionStateId {
    pub closed spec fn value(self) -> u32 {
        self.raw
    }

    pub fn new(index: u32) -> (result: Self)
        ensures
            result.value() == index,
    {
        DefinitionStateId { raw: index }
    }

    pub fn index(self) -> (result: usize)
        ensures
            result == self.value(),
    {
        self.raw as usize
    }
}

/// A state of a device.
#[derive(Debug, Clone, Copy, PartialEq, Eq, Structural)]
pub struct DeviceState {
    pub device: DeviceId,
    pub state: DefinitionStateId,
}

/// What a state is before it is first written: a number, as a bit pattern, or a parameter of the
/// device.
#[derive(Debug, Clone, Copy, PartialEq, Eq, Structural)]
pub enum DefinitionStateInitializer {
    Constant(u64),
    Parameter(ParameterId),
}

/// Where a state is kept.
#[derive(Debug, Clone, Copy, PartialEq, Eq, Structural)]
pub struct PhysicalStateAddress {
    pub location: DeviceLocation,
    pub state_index: usize,
}

/// Writes a value to a state.
#[derive(Debug, Clone, Copy, PartialEq, Eq, Structural)]
pub struct StateWrite {
    pub destination: StateSlot,
    pub source: ValueSlot,
}

/// The parameters that a partition of a device reads, and where they go.
#[derive(Debug)]
pub struct CompiledPartitionInputs {
    pub device: DeviceId,
    pub definition_parameters: Vec<ParameterId>,
    pub parameter_inputs: Vec<InputSlot>,
}

/// The states of an island, by their slots.
#[derive(Debug)]
pub struct IslandStateLayout {
    pub states: Vec<(DeviceState, DefinitionStateInitializer)>,
}

/// Why an island cannot be solved.
#[allow(inconsistent_fields)]
#[derive(Debug, Clone, Copy, PartialEq, Eq, Structural)]
pub enum IslandRuntimeError {
    MissingDevice { device: DeviceId },
    MissingParameter { device: DeviceId, parameter: ParameterId },
    Mna(MnaError),
    MissingState { device: DeviceId, state: DefinitionStateId },
    NonlinearDidNotConverge { iterations: usize },
    NonFiniteMatrix,
    NonFiniteSolution,
    NonFiniteState { state: DeviceState },
}

/// Fills an input with a parameter of a device.
#[derive(Debug, Clone, Copy, PartialEq, Eq, Structural)]
pub struct ParameterInputBinding {
    pub device: DeviceId,
    pub parameter: ParameterId,
    pub input: InputSlot,
    pub location: DeviceLocation,
}

/// Fills an input with a state.
#[derive(Debug, Clone, Copy, PartialEq, Eq, Structural)]
pub struct StateInputBinding {
    pub state: DeviceState,
    pub input: InputSlot,
    pub address: PhysicalStateAddress,
    pub initializer: DefinitionStateInitializer,
}

/// Writes a value to a state.
#[derive(Debug, Clone, Copy, PartialEq, Eq, Structural)]
pub struct StateOutputBinding {
    pub state: DeviceState,
    pub source: ValueSlot,
    pub address: PhysicalStateAddress,
}

/// Whether a location is where a device is kept.
pub open spec fn is_at(network: Network, device: DeviceId, location: DeviceLocation) -> bool {
    &&& network.device_live(device.value())
    &&& location.spec_chunk() == network.arena().chunk_of(device.value())
    &&& location.spec_row() == network.arena().row_of(device.value())
}

/// Whether an address is where a state is kept.
pub open spec fn is_address(
    network: Network,
    state: DeviceState,
    address: PhysicalStateAddress,
) -> bool {
    &&& is_at(network, state.device, address.location)
    &&& address.state_index == state.state.value()
}

/// The place of the first of some devices, from `from` on, that is not in the network; their number
/// where all are.
pub open spec fn missing_place(network: Network, devices: Seq<DeviceId>, from: int) -> int
    decreases devices.len() - from,
{
    if from >= devices.len() {
        devices.len() as int
    } else if !network.device_live(devices[from].value()) {
        from
    } else {
        missing_place(network, devices, from + 1)
    }
}

/// The first device of a list, from `from` on, that is not in the network.
pub open spec fn first_missing(network: Network, devices: Seq<DeviceId>, from: int) -> Option<
    DeviceId,
>
    decreases devices.len() - from,
{
    if from >= devices.len() {
        None
    } else if !network.device_live(devices[from].value()) {
        Some(devices[from])
    } else {
        first_missing(network, devices, from + 1)
    }
}

/// Where a device is kept.
fn locate(network: &Network, device: DeviceId) -> (result: Result<
    DeviceLocation,
    IslandRuntimeError,
>)
    requires
        network.wf(),
    ensures
        match result {
            Ok(location) => is_at(*network, device, location),
            Err(error) => {
                &&& !network.device_live(device.value())
                &&& error == IslandRuntimeError::MissingDevice { device }
            },
        },
{
    match network.device_location(device) {
        Ok(location) => Ok(location),
        Err(_) => Err(IslandRuntimeError::MissingDevice { device }),
    }
}

/// What the parameters of the first partitions are, and where they go.
pub open spec fn parameter_targets(partitions: Seq<CompiledPartitionInputs>, count: int) -> Seq<
    (DeviceId, ParameterId, InputSlot),
>
    decreases count,
{
    if count <= 0 {
        Seq::empty()
    } else {
        let partition = partitions[count - 1];
        parameter_targets(partitions, count - 1) + Seq::new(
            partition.definition_parameters@.len(),
            |i: int|
                (
                    partition.device,
                    partition.definition_parameters@[i],
                    partition.parameter_inputs@[i],
                ),
        )
    }
}

/// The devices of partitions.
pub open spec fn partition_devices(partitions: Seq<CompiledPartitionInputs>) -> Seq<DeviceId> {
    Seq::new(partitions.len(), |i: int| partitions[i].device)
}

/// The bindings of an island.
#[derive(Debug)]
pub struct IslandBindings {
    parameters: Vec<ParameterInputBinding>,
    state_inputs: Vec<StateInputBinding>,
    state_outputs: Vec<StateOutputBinding>,
}

impl IslandBindings {
    pub closed spec fn spec_parameters(self) -> Seq<ParameterInputBinding> {
        self.parameters@
    }

    pub closed spec fn spec_state_inputs(self) -> Seq<StateInputBinding> {
        self.state_inputs@
    }

    pub closed spec fn spec_state_outputs(self) -> Seq<StateOutputBinding> {
        self.state_outputs@
    }

    /// All bindings lead to where their devices are kept.
    pub open spec fn bound_to(self, network: Network) -> bool {
        &&& forall|i: int|
            0 <= i < self.spec_parameters().len() ==> is_at(
                network,
                (#[trigger] self.spec_parameters()[i]).device,
                self.spec_parameters()[i].location,
            )
        &&& forall|i: int|
            0 <= i < self.spec_state_inputs().len() ==> is_address(
                network,
                (#[trigger] self.spec_state_inputs()[i]).state,
                self.spec_state_inputs()[i].address,
            )
        &&& forall|i: int|
            0 <= i < self.spec_state_outputs().len() ==> is_address(
                network,
                (#[trigger] self.spec_state_outputs()[i]).state,
                self.spec_state_outputs()[i].address,
            )
    }

    /// Binds the parameters of the partitions.
    fn bind_parameters(network: &Network, partition_inputs: &Vec<CompiledPartitionInputs>) -> (result:
        Result<Vec<ParameterInputBinding>, IslandRuntimeError>)
        requires
            network.wf(),
            forall|i: int|
                0 <= i < partition_inputs@.len() ==> (
                #[trigger] partition_inputs@[i]).definition_parameters@.len()
                    == partition_inputs@[i].parameter_inputs@.len(),
        ensures
            match first_missing(*network, partition_devices(partition_inputs@), 0) {
                Some(device) => result == Err::<Vec<ParameterInputBinding>, _>(
                    IslandRuntimeError::MissingDevice { device },
                ),
                None => {
                    &&& result matches Ok(bindings)
                    &&& bound_parameters(
                        *network,
                        bindings@,
                        parameter_targets(partition_inputs@, partition_inputs@.len() as int),
                    )
                },
            },
    {
        let ghost devices = partition_devices(partition_inputs@);
        let mut parameters: Vec<ParameterInputBinding> = Vec::new();
        let mut index: usize = 0;
        while index < partition_inputs.len()
            invariant
                network.wf(),
                devices == partition_devices(partition_inputs@),
                forall|i: int|
                    0 <= i < partition_inputs@.len() ==> (
                    #[trigger] partition_inputs@[i]).definition_parameters@.len()
                        == partition_inputs@[i].parameter_inputs@.len(),
                index <= partition_inputs@.len(),
                first_missing(*network, devices, 0) == first_missing(
                    *network,
                    devices,
                    index as int,
                ),
                bound_parameters(
                    *network,
                    parameters@,
                    parameter_targets(partition_inputs@, index as int),
                ),
            decreases partition_inputs@.len() - index,
        {
            let partition = &partition_inputs[index];
            let device = partition.device;
            assert(devices[index as int] == device);
            let location = match locate(network, device) {
                Ok(location) => location,
                Err(error) => {
                    return Err(error);
                },
            };
            let ghost before = parameters@;
            let ghost earlier = parameter_targets(partition_inputs@, index as int);
            let ghost mine = Seq::new(
                partition.definition_parameters@.len(),
                |i: int|
                    (
                        partition.device,
                        partition.definition_parameters@[i],
                        partition.parameter_inputs@[i],
                    ),
            );
            let mut at: usize = 0;
            while at < partition.definition_parameters.len()
                invariant
                    is_at(*network, device, location),
                    device == partition.device,
                    partition.definition_parameters@.len() == partition.parameter_inputs@.len(),
                    at <= mine.len(),
                    mine == Seq::new(
                        partition.definition_parameters@.len(),
                        |i: int|
                            (
                                partition.device,
                                partition.definition_parameters@[i],
                                partition.parameter_inputs@[i],
                            ),
                    ),
                    bound_parameters(*network, parameters@, earlier + mine.take(at as int)),
                decreases partition.definition_parameters@.len() - at,
            {
                let binding = ParameterInputBinding {
                    device,
                    parameter: partition.definition_parameters[at],
                    input: partition.parameter_inputs[at],
                    location,
                };
                parameters.push(binding);
                proof {
                    assert(mine.take(at + 1) =~= mine.take(at as int).push(mine[at as int]));
                    assert(earlier + mine.take(at + 1) =~= (earlier + mine.take(at as int)).push(
                        mine[at as int],
                    ));
                }
                at = at + 1;
            }
            assert(mine.take(mine.len() as int) =~= mine);
            assert(mine.take(0) =~= Seq::empty());
            index = index + 1;
        }
        Ok(parameters)
    }
}

/// Whether parameters are bound as they should be.
pub open spec fn bound_parameters(
    network: Network,
    bindings: Seq<ParameterInputBinding>,
    targets: Seq<(DeviceId, ParameterId, InputSlot)>,
) -> bool {
    &&& bindings.len() == targets.len()
    &&& forall|i: int|
        0 <= i < bindings.len() ==> {
            &&& ((#[trigger] bindings[i]).device, bindings[i].parameter, bindings[i].input)
                == targets[i]
            &&& is_at(network, bindings[i].device, bindings[i].location)
        }
}

/// Whether inputs are bound to states as they should be.
pub open spec fn bound_inputs(
    network: Network,
    bindings: Seq<StateInputBinding>,
    states: Seq<(DeviceState, DefinitionStateInitializer)>,
    inputs: Seq<(StateSlot, InputSlot)>,
) -> bool {
    &&& bindings.len() == inputs.len()
    &&& forall|i: int|
        0 <= i < bindings.len() ==> {
            let (slot, input) = inputs[i];
            &&& (#[trigger] bindings[i]).input == input
            &&& (bindings[i].state, bindings[i].initializer) == states[slot.value() as int]
            &&& is_address(network, bindings[i].state, bindings[i].address)
        }
}

/// Whether writes are bound to states as they should be.
pub open spec fn bound_outputs(
    network: Network,
    bindings: Seq<StateOutputBinding>,
    states: Seq<(DeviceState, DefinitionStateInitializer)>,
    writes: Seq<StateWrite>,
) -> bool {
    &&& bindings.len() == writes.len()
    &&& forall|i: int|
        0 <= i < bindings.len() ==> {
            &&& (#[trigger] bindings[i]).source == writes[i].source
            &&& bindings[i].state == states[writes[i].destination.value() as int].0
            &&& is_address(network, bindings[i].state, bindings[i].address)
        }
}

/// The devices of the states that are read.
pub open spec fn input_devices(
    states: Seq<(DeviceState, DefinitionStateInitializer)>,
    inputs: Seq<(StateSlot, InputSlot)>,
) -> Seq<DeviceId> {
    Seq::new(inputs.len(), |i: int| states[inputs[i].0.value() as int].0.device)
}

/// The devices of the states that are written.
pub open spec fn output_devices(
    states: Seq<(DeviceState, DefinitionStateInitializer)>,
    writes: Seq<StateWrite>,
) -> Seq<DeviceId> {
    Seq::new(writes.len(), |i: int| states[writes[i].destination.value() as int].0.device)
}

/// The first device that is missing when an island is bound: one of its partitions, else one whose
/// state is read, else one whose state is written.
pub open spec fn missing_device(
    network: Network,
    states: Seq<(DeviceState, DefinitionStateInitializer)>,
    partitions: Seq<CompiledPartitionInputs>,
    inputs: Seq<(StateSlot, InputSlot)>,
    writes: Seq<StateWrite>,
) -> Option<DeviceId> {
    if let Some(device) = first_missing(network, partition_devices(partitions), 0) {
        Some(device)
    } else if let Some(device) = first_missing(network, input_devices(states, inputs), 0) {
        Some(device)
    } else {
        first_missing(network, output_devices(states, writes), 0)
    }
}

impl IslandBindings {
    fn bind_inputs(
        network: &Network,
        states: &IslandStateLayout,
        state_inputs: &Vec<(StateSlot, InputSlot)>,
    ) -> (result: Result<Vec<StateInputBinding>, IslandRuntimeError>)
        requires
            network.wf(),
            forall|i: int|
                0 <= i < state_inputs@.len() ==> (#[trigger] state_inputs@[i]).0.value()
                    < states.states@.len(),
        ensures
            match first_missing(*network, input_devices(states.states@, state_inputs@), 0) {
                Some(device) => result == Err::<Vec<StateInputBinding>, _>(
                    IslandRuntimeError::MissingDevice { device },
                ),
                None => {
                    &&& result matches Ok(bindings)
                    &&& bound_inputs(*network, bindings@, states.states@, state_inputs@)
                },
            },
    {
        let ghost devices = input_devices(states.states@, state_inputs@);
        let mut bindings: Vec<StateInputBinding> = Vec::new();
        let mut index: usize = 0;
        while index < state_inputs.len()
            invariant
                network.wf(),
                devices == input_devices(states.states@, state_inputs@),
                forall|i: int|
                    0 <= i < state_inputs@.len() ==> (#[trigger] state_inputs@[i]).0.value()
                        < states.states@.len(),
                index <= state_inputs@.len(),
                first_missing(*network, devices, 0) == first_missing(
                    *network,
                    devices,
                    index as int,
                ),
                bound_inputs(
                    *network,
                    bindings@,
                    states.states@,
                    state_inputs@.take(index as int),
                ),
            decreases state_inputs@.len() - index,
        {
            let (slot, input) = state_inputs[index];
            assert(state_inputs@[index as int].0.value() < states.states@.len());
            let (state, initializer) = states.states[slot.index()];
            assert(devices[index as int] == state.device);
            let location = match locate(network, state.device) {
                Ok(location) => location,
                Err(error) => {
                    return Err(error);
                },
            };
            let address = PhysicalStateAddress { location, state_index: state.state.index() };
            let ghost before = bindings@;
            bindings.push(StateInputBinding { state, input, address, initializer });
            proof {
                let taken = state_inputs@.take(index + 1);
                assert forall|i: int| 0 <= i < bindings@.len() implies {
                    let (slot, input) = taken[i];
                    &&& (#[trigger] bindings@[i]).input == input
                    &&& (bindings@[i].state, bindings@[i].initializer)
                        == states.states@[slot.value() as int]
                    &&& is_address(*network, bindings@[i].state, bindings@[i].address)
                } by {
                    if i < before.len() {
                        assert(bindings@[i] == before[i]);
                        assert(taken[i] == state_inputs@.take(index as int)[i]);
                    }
                }
            }
            index = index + 1;
        }
        assert(state_inputs@.take(state_inputs@.len() as int) =~= state_inputs@);
        Ok(bindings)
    }

    fn bind_outputs(
        network: &Network,
        states: &IslandStateLayout,
        state_writes: &Vec<StateWrite>,
    ) -> (result: Result<Vec<StateOutputBinding>, IslandRuntimeError>)
        requires
            network.wf(),
            forall|i: int|
                0 <= i < state_writes@.len() ==> (#[trigger] state_writes@[i]).destination.value()
                    < states.states@.len(),
        ensures
            match first_missing(*network, output_devices(states.states@, state_writes@), 0) {
                Some(device) => result == Err::<Vec<StateOutputBinding>, _>(
                    IslandRuntimeError::MissingDevice { device },
                ),
                None => {
                    &&& result matches Ok(bindings)
                    &&& bound_outputs(*network, bindings@, states.states@, state_writes@)
                },
            },
    {
        let ghost devices = output_devices(states.states@, state_writes@);
        let mut bindings: Vec<StateOutputBinding> = Vec::new();
        let mut index: usize = 0;
        while index < state_writes.len()
            invariant
                network.wf(),
                devices == output_devices(states.states@, state_writes@),
                forall|i: int|
                    0 <= i < state_writes@.len() ==> (
                    #[trigger] state_writes@[i]).destination.value() < states.states@.len(),
                index <= state_writes@.len(),
                first_missing(*network, devices, 0) == first_missing(
                    *network,
                    devices,
                    index as int,
                ),
                bound_outputs(
                    *network,
                    bindings@,
                    states.states@,
                    state_writes@.take(index as int),
                ),
            decreases state_writes@.len() - index,
        {
            let write = state_writes[index];
            assert(state_writes@[index as int].destination.value() < states.states@.len());
            let state = states.states[write.destination.index()].0;
            assert(devices[index as int] == state.device);
            let location = match locate(network, state.device) {
                Ok(location) => location,
                Err(error) => {
                    return Err(error);
                },
            };
            let address = PhysicalStateAddress { location, state_index: state.state.index() };
            let ghost before = bindings@;
            bindings.push(StateOutputBinding { state, source: write.source, address });
            proof {
                let taken = state_writes@.take(index + 1);
                assert forall|i: int| 0 <= i < bindings@.len() implies {
                    &&& (#[trigger] bindings@[i]).source == taken[i].source
                    &&& bindings@[i].state == states.states@[taken[i].destination.value() as int].0
                    &&& is_address(*network, bindings@[i].state, bindings@[i].address)
                } by {
                    if i < before.len() {
                        assert(bindings@[i] == before[i]);
                        assert(taken[i] == state_writes@.take(index as int)[i]);
                    }
                }
            }
            index = index + 1;
        }
        assert(state_writes@.take(state_writes@.len() as int) =~= state_writes@);
        Ok(bindings)
    }

    /// Binds the parameters and states of an island to where their devices are kept.
    pub fn new(
        network: &Network,
        states: &IslandStateLayout,
        partition_inputs: &Vec<CompiledPartitionInputs>,
        state_inputs: &Vec<(StateSlot, InputSlot)>,
        state_writes: &Vec<StateWrite>,
    ) -> (result: Result<Self, IslandRuntimeError>)
        requires
            network.wf(),
            forall|i: int|
                0 <= i < partition_inputs@.len() ==> (
                #[trigger] partition_inputs@[i]).definition_parameters@.len()
                    == partition_inputs@[i].parameter_inputs@.len(),
            forall|i: int|
                0 <= i < state_inputs@.len() ==> (#[trigger] state_inputs@[i]).0.value()
                    < states.states@.len(),
            forall|i: int|
                0 <= i < state_writes@.len() ==> (#[trigger] state_writes@[i]).destination.value()
                    < states.states@.len(),
        ensures
            match missing_device(
                *network,
                states.states@,
                partition_inputs@,
                state_inputs@,
                state_writes@,
            ) {
                Some(device) => result == Err::<Self, _>(
                    IslandRuntimeError::MissingDevice { device },
                ),
                None => {
                    &&& result matches Ok(bindings)
                    &&& bindings.bound_to(*network)
                    &&& bound_parameters(
                        *network,
                        bindings.spec_parameters(),
                        parameter_targets(partition_inputs@, partition_inputs@.len() as int),
                    )
                    &&& bound_inputs(
                        *network,
                        bindings.spec_state_inputs(),
                        states.states@,
                        state_inputs@,
                    )
                    &&& bound_outputs(
                        *network,
                        bindings.spec_state_outputs(),
                        states.states@,
                        state_writes@,
                    )
                },
            },
    {
        let parameters = match Self::bind_parameters(network, partition_inputs) {
            Ok(parameters) => parameters,
            Err(error) => {
                return Err(error);
            },
        };
        let state_inputs = match Self::bind_inputs(network, states, state_inputs) {
            Ok(state_inputs) => state_inputs,
            Err(error) => {
                return Err(error);
            },
        };
        let state_outputs = match Self::bind_outputs(network, states, state_writes) {
            Ok(state_outputs) => state_outputs,
            Err(error) => {
                return Err(error);
            },
        };
        Ok(IslandBindings { parameters, state_inputs, state_outputs })
    }

    /// The devices that are bound, in the order in which they are bound anew.
    pub open spec fn bound_devices(self) -> Seq<DeviceId> {
        Seq::new(self.spec_parameters().len(), |i: int| self.spec_parameters()[i].device)
            + Seq::new(self.spec_state_inputs().len(), |i: int| self.spec_state_inputs()[i].state.device)
            + Seq::new(
            self.spec_state_outputs().len(),
            |i: int| self.spec_state_outputs()[i].state.device,
        )
    }

    /// Whether `after` binds the same things, wherever they are kept.
    pub open spec fn same_targets(self, after: Self) -> bool {
        &&& after.spec_parameters().len() == self.spec_parameters().len()
        &&& after.spec_state_inputs().len() == self.spec_state_inputs().len()
        &&& after.spec_state_outputs().len() == self.spec_state_outputs().len()
        &&& forall|i: int|
            0 <= i < self.spec_parameters().len() ==> {
                let new = #[trigger] after.spec_parameters()[i];
                let old_one = self.spec_parameters()[i];
                new.device == old_one.device && new.parameter == old_one.parameter && new.input
                    == old_one.input
            }
        &&& forall|i: int|
            0 <= i < self.spec_state_inputs().len() ==> {
                let new = #[trigger] after.spec_state_inputs()[i];
                let old_one = self.spec_state_inputs()[i];
                new.state == old_one.state && new.input == old_one.input && new.initializer
                    == old_one.initializer
            }
        &&& forall|i: int|
            0 <= i < self.spec_state_outputs().len() ==> {
                let new = #[trigger] after.spec_state_outputs()[i];
                let old_one = self.spec_state_outputs()[i];
                new.state == old_one.state && new.source == old_one.source
            }
    }

    /// Whether `after` has the first `count` bindings where their devices are kept in a network, and
    /// the others as they were. Parameters come first, then the states that are read, then those
    /// that are written.
    pub open spec fn rebound(self, after: Self, network: Network, count: int) -> bool {
        let p = self.spec_parameters().len() as int;
        let q = p + self.spec_state_inputs().len();
        &&& forall|i: int|
            0 <= i < p ==> {
                let new = #[trigger] after.spec_parameters()[i];
                if i < count {
                    is_at(network, new.device, new.location)
                } else {
                    new == self.spec_parameters()[i]
                }
            }
        &&& forall|i: int|
            0 <= i < self.spec_state_inputs().len() ==> {
                let new = #[trigger] after.spec_state_inputs()[i];
                if p + i < count {
                    is_address(network, new.state, new.address)
                } else {
                    new == self.spec_state_inputs()[i]
                }
            }
        &&& forall|i: int|
            0 <= i < self.spec_state_outputs().len() ==> {
                let new = #[trigger] after.spec_state_outputs()[i];
                if q + i < count {
                    is_address(network, new.state, new.address)
                } else {
                    new == self.spec_state_outputs()[i]
                }
            }
    }

    /// Binds everything anew, after devices have moved. Where a device is missing, what comes before
    /// it has been bound anew.
    #[verifier::loop_isolation(false)]
    pub fn rebind(&mut self, network: &Network) -> (result: Result<(), IslandRuntimeError>)
        requires
            network.wf(),
        ensures
            old(self).same_targets(*final(self)),
            old(self).rebound(
                *final(self),
                *network,
                missing_place(*network, old(self).bound_devices(), 0),
            ),
            match first_missing(*network, old(self).bound_devices(), 0) {
                Some(device) => result == Err::<(), _>(IslandRuntimeError::MissingDevice { device }),
                None => result is Ok && final(self).bound_to(*network),
            },
    {
        let ghost devices = old(self).bound_devices();
        let ghost p = old(self).spec_parameters().len() as int;
        let ghost q = old(self).spec_state_inputs().len() as int;
        let mut index: usize = 0;
        while index < self.parameters.len()
            invariant
                old(self).same_targets(*self),
                index <= p,
                self.state_inputs == old(self).state_inputs,
                self.state_outputs == old(self).state_outputs,
                first_missing(*network, devices, 0) == first_missing(
                    *network,
                    devices,
                    index as int,
                ),
                missing_place(*network, devices, 0) == missing_place(
                    *network,
                    devices,
                    index as int,
                ),
                forall|i: int|
                    index <= i < p ==> #[trigger] self.spec_parameters()[i] == old(
                        self,
                    ).spec_parameters()[i],
                forall|i: int|
                    0 <= i < index ==> is_at(
                        *network,
                        (#[trigger] self.spec_parameters()[i]).device,
                        self.spec_parameters()[i].location,
                    ),
            decreases p - index,
        {
            let ghost before = *self;
            let mut binding = self.parameters[index];
            assert(self.spec_parameters()[index as int] == binding);
            assert(devices[index as int] == binding.device);
            binding.location = match locate(network, binding.device) {
                Ok(location) => location,
                Err(error) => {
                    return Err(error);
                },
            };
            self.parameters.set(index, binding);
            proof {
                assert forall|i: int| 0 <= i < p implies {
                    let new = #[trigger] self.spec_parameters()[i];
                    let old_one = old(self).spec_parameters()[i];
                    new.device == old_one.device && new.parameter == old_one.parameter && new.input
                        == old_one.input
                } by {
                    assert(before.spec_parameters()[i].device == old(
                        self,
                    ).spec_parameters()[i].device);
                }
                assert forall|i: int| 0 <= i < index + 1 implies is_at(
                    *network,
                    (#[trigger] self.spec_parameters()[i]).device,
                    self.spec_parameters()[i].location,
                ) by {
                    if i < index {
                        assert(self.spec_parameters()[i] == before.spec_parameters()[i]);
                    }
                }
            }
            index = index + 1;
        }
        let ghost parameters = self.parameters;
        let mut at: usize = 0;
        while at < self.state_inputs.len()
            invariant
                old(self).same_targets(*self),
                at <= q,
                self.parameters == parameters,
                self.state_outputs == old(self).state_outputs,
                first_missing(*network, devices, 0) == first_missing(*network, devices, p + at),
                missing_place(*network, devices, 0) == missing_place(*network, devices, p + at),
                forall|i: int|
                    at <= i < q ==> #[trigger] self.spec_state_inputs()[i] == old(
                        self,
                    ).spec_state_inputs()[i],
                forall|i: int|
                    0 <= i < at ==> is_address(
                        *network,
                        (#[trigger] self.spec_state_inputs()[i]).state,
                        self.spec_state_inputs()[i].address,
                    ),
            decreases q - at,
        {
            let ghost before = *self;
            let mut binding = self.state_inputs[at];
            assert(self.spec_state_inputs()[at as int] == binding);
            assert(devices[p + at] == binding.state.device);
            let location = match locate(network, binding.state.device) {
                Ok(location) => location,
                Err(error) => {
                    return Err(error);
                },
            };
            binding.address = PhysicalStateAddress {
                location,
                state_index: binding.state.state.index(),
            };
            self.state_inputs.set(at, binding);
            proof {
                assert forall|i: int| 0 <= i < q implies {
                    let new = #[trigger] self.spec_state_inputs()[i];
                    let old_one = old(self).spec_state_inputs()[i];
                    new.state == old_one.state && new.input == old_one.input && new.initializer
                        == old_one.initializer
                } by {
                    assert(before.spec_state_inputs()[i].state == old(
                        self,
                    ).spec_state_inputs()[i].state);
                }
                assert forall|i: int| 0 <= i < at + 1 implies is_address(
                    *network,
                    (#[trigger] self.spec_state_inputs()[i]).state,
                    self.spec_state_inputs()[i].address,
                ) by {
                    if i < at {
                        assert(self.spec_state_inputs()[i] == before.spec_state_inputs()[i]);
                    }
                }
            }
            at = at + 1;
        }
        let ghost state_inputs = self.state_inputs;
        let ghost r = old(self).spec_state_outputs().len() as int;
        let mut next: usize = 0;
        while next < self.state_outputs.len()
            invariant
                old(self).same_targets(*self),
                next <= r,
                self.parameters == parameters,
                self.state_inputs == state_inputs,
                first_missing(*network, devices, 0) == first_missing(
                    *network,
                    devices,
                    p + q + next,
                ),
                missing_place(*network, devices, 0) == missing_place(
                    *network,
                    devices,
                    p + q + next,
                ),
                forall|i: int|
                    next <= i < r ==> #[trigger] self.spec_state_outputs()[i] == old(
                        self,
                    ).spec_state_outputs()[i],
                forall|i: int|
                    0 <= i < next ==> is_address(
                        *network,
                        (#[trigger] self.spec_state_outputs()[i]).state,
                        self.spec_state_outputs()[i].address,
                    ),
            decreases r - next,
        {
            let ghost before = *self;
            let mut binding = self.state_outputs[next];
            assert(self.spec_state_outputs()[next as int] == binding);
            assert(devices[p + q + next] == binding.state.device);
            let location = match locate(network, binding.state.device) {
                Ok(location) => location,
                Err(error) => {
                    return Err(error);
                },
            };
            binding.address = PhysicalStateAddress {
                location,
                state_index: binding.state.state.index(),
            };
            self.state_outputs.set(next, binding);
            proof {
                assert forall|i: int| 0 <= i < r implies {
                    let new = #[trigger] self.spec_state_outputs()[i];
                    let old_one = old(self).spec_state_outputs()[i];
                    new.state == old_one.state && new.source == old_one.source
                } by {
                    assert(before.spec_state_outputs()[i].state == old(
                        self,
                    ).spec_state_outputs()[i].state);
                }
                assert forall|i: int| 0 <= i < next + 1 implies is_address(
                    *network,
                    (#[trigger] self.spec_state_outputs()[i]).state,
                    self.spec_state_outputs()[i].address,
                ) by {
                    if i < next {
                        assert(self.spec_state_outputs()[i] == before.spec_state_outputs()[i]);
                    }
                }
            }
            next = next + 1;
        }
        Ok(())
    }

    pub fn parameters(&self) -> (result: &[ParameterInputBinding])
        ensures
            result@ == self.spec_parameters(),
    {
        self.parameters.as_slice()
    }

    pub fn state_inputs(&self) -> (result: &[StateInputBinding])
        ensures
            result@ == self.spec_state_inputs(),
    {
        self.state_inputs.as_slice()
    }

    pub fn state_outputs(&self) -> (result: &[StateOutputBinding])
        ensures
            result@ == self.spec_state_outputs(),
    {
        self.state_outputs.as_slice()
    }
}

/// Why a state cannot be read.
#[derive(Debug, Clone, Copy, PartialEq, Eq, Structural)]
pub enum PhysicalStateError {
    MissingInitialParameter { device: DeviceId, parameter: ParameterId },
    StateNotInitialized { state: DeviceState },
}

/// What a state that cannot be read means for an island.
pub open spec fn state_failure(error: PhysicalStateError) -> IslandRuntimeError {
    match error {
        PhysicalStateError::MissingInitialParameter { device, parameter } => {
            IslandRuntimeError::MissingParameter { device, parameter }
        },
        PhysicalStateError::StateNotInitialized { state } => {
            IslandRuntimeError::MissingState { device: state.device, state: state.state }
        },
    }
}

pub(crate) fn map_state_error(error: PhysicalStateError) -> (result: IslandRuntimeError)
    ensures
        result == state_failure(error),
{
    match error {
        PhysicalStateError::MissingInitialParameter { device, parameter } => {
            IslandRuntimeError::MissingParameter { device, parameter }
        },
        PhysicalStateError::StateNotInitialized { state } => {
            IslandRuntimeError::MissingState { device: state.device, state: state.state }
        },
    }
}

impl StateInputBinding {
    /// What a state is for the island: what is stored, else what the state starts with.
    pub open spec fn logical(
        self,
        network: Network,
        stored: Result<Option<u64>, PhysicalStateError>,
    ) -> Result<u64, IslandRuntimeError> {
        match stored {
            Err(error) => Err(state_failure(error)),
            Ok(Some(value)) => Ok(value),
            Ok(None) => match self.initializer {
                DefinitionStateInitializer::Constant(value) => Ok(value),
                DefinitionStateInitializer::Parameter(parameter) => {
                    match network.arena().spec_parameter_at(self.address.location, parameter) {
                        Some(Some(value)) => Ok(value),
                        _ => Err(
                            state_failure(
                                PhysicalStateError::MissingInitialParameter {
                                    device: self.state.device,
                                    parameter,
                                },
                            ),
                        ),
                    }
                },
            },
        }
    }

    /// Reads a state, of which it is given what is stored, if it has been written, or why that cannot
    /// be told.
    pub fn read_logical(
        &self,
        network: &Network,
        stored: Result<Option<u64>, PhysicalStateError>,
    ) -> (result: Result<u64, IslandRuntimeError>)
        requires
            network.wf(),
        ensures
            result == self.logical(*network, stored),
    {
        match stored {
            Err(error) => Err(map_state_error(error)),
            Ok(Some(value)) => Ok(value),
            Ok(None) => match self.initializer {
                DefinitionStateInitializer::Constant(value) => Ok(value),
                DefinitionStateInitializer::Parameter(parameter) => {
                    match network.parameter_at_location(self.address.location, parameter) {
                        Some(Some(value)) => Ok(value),
                        _ => Err(
                            map_state_error(
                                PhysicalStateError::MissingInitialParameter {
                                    device: self.state.device,
                                    parameter,
                                },
                            ),
                        ),
                    }
                },
            },
        }
    }
}

impl StateOutputBinding {
    /// The value that is written.
    pub fn value(&self, workspace: &ValueWorkspace) -> (result: u64)
        requires
            self.source.value() < workspace@.len(),
        ensures
            result == workspace@[self.source.value() as int],
    {
        workspace.value(self.source)
    }

    /// Whether the value can be written: it has to be finite.
    pub fn validate_source(&self, workspace: &ValueWorkspace) -> (result: Result<
        (),
        IslandRuntimeError,
    >)
        requires
            self.source.value() < workspace@.len(),
        ensures
            if is_finite(workspace@[self.source.value() as int]) {
                result is Ok
            } else {
                result == Err::<(), _>(IslandRuntimeError::NonFiniteState { state: self.state })
            },
    {
        if !is_finite_bits(self.value(workspace)) {
            return Err(IslandRuntimeError::NonFiniteState { state: self.state });
        }
        Ok(())
    }
}

/// What is wrong with a binding.
#[derive(Debug, Clone, Copy, PartialEq, Eq, Structural)]
pub enum BindingFault {
    MissingDevice { device: DeviceId },
    StaleParameter { device: DeviceId, parameter: ParameterId },
    DeadParameter { device: DeviceId, parameter: ParameterId },
    StaleState { state: DeviceState },
    WrongStateIndex { state: DeviceState },
    DeadState { state: DeviceState },
}

/// What is wrong with the binding of a parameter, if anything is.
pub open spec fn parameter_fault(network: Network, binding: ParameterInputBinding) -> Option<
    BindingFault,
> {
    let device = binding.device;
    let parameter = binding.parameter;
    if !network.device_live(device.value()) {
        Some(BindingFault::MissingDevice { device })
    } else if !is_at(network, device, binding.location) {
        Some(BindingFault::StaleParameter { device, parameter })
    } else if network.arena().spec_parameter_at(binding.location, parameter) is None {
        Some(BindingFault::DeadParameter { device, parameter })
    } else {
        None
    }
}

/// What is wrong with the binding of a state, if anything is.
pub open spec fn state_fault(
    network: Network,
    state: DeviceState,
    address: PhysicalStateAddress,
    stored: bool,
) -> Option<BindingFault> {
    if !network.device_live(state.device.value()) {
        Some(BindingFault::MissingDevice { device: state.device })
    } else if !is_at(network, state.device, address.location) {
        Some(BindingFault::StaleState { state })
    } else if address.state_index != state.state.value() {
        Some(BindingFault::WrongStateIndex { state })
    } else if !stored {
        Some(BindingFault::DeadState { state })
    } else {
        None
    }
}

/// What is wrong with the first faulty binding of a parameter, from `from` on.
pub open spec fn first_parameter_fault(
    network: Network,
    bindings: Seq<ParameterInputBinding>,
    from: int,
) -> Option<BindingFault>
    decreases bindings.len() - from,
{
    if from >= bindings.len() {
        None
    } else if let Some(fault) = parameter_fault(network, bindings[from]) {
        Some(fault)
    } else {
        first_parameter_fault(network, bindings, from + 1)
    }
}

/// What is wrong with the first faulty binding of a state that is read, from `from` on.
pub open spec fn first_input_fault(
    network: Network,
    bindings: Seq<StateInputBinding>,
    stored: Seq<bool>,
    from: int,
) -> Option<BindingFault>
    decreases bindings.len() - from,
{
    if from >= bindings.len() {
        None
    } else if let Some(fault) = state_fault(
        network,
        bindings[from].state,
        bindings[from].address,
        stored[from],
    ) {
        Some(fault)
    } else {
        first_input_fault(network, bindings, stored, from + 1)
    }
}

/// What is wrong with the first faulty binding of a state that is written, from `from` on.
pub open spec fn first_output_fault(
    network: Network,
    bindings: Seq<StateOutputBinding>,
    stored: Seq<bool>,
    from: int,
) -> Option<BindingFault>
    decreases bindings.len() - from,
{
    if from >= bindings.len() {
        None
    } else if let Some(fault) = state_fault(
        network,
        bindings[from].state,
        bindings[from].address,
        stored[from],
    ) {
        Some(fault)
    } else {
        first_output_fault(network, bindings, stored, from + 1)
    }
}

fn same_place(a: DeviceLocation, b: DeviceLocation) -> (result: bool)
    ensures
        result == (a.spec_chunk() == b.spec_chunk() && a.spec_row() == b.spec_row()),
{
    a.chunk_index() == b.chunk_index() && a.row() == b.row()
}

fn check_parameter(network: &Network, binding: &ParameterInputBinding) -> (result: Option<
    BindingFault,
>)
    requires
        network.wf(),
    ensures
        result == parameter_fault(*network, *binding),
{
    let device = binding.device;
    let parameter = binding.parameter;
    match network.device_location(device) {
        Err(_) => Some(BindingFault::MissingDevice { device }),
        Ok(current) => if !same_place(binding.location, current) {
            Some(BindingFault::StaleParameter { device, parameter })
        } else if network.parameter_at_location(binding.location, parameter).is_none() {
            Some(BindingFault::DeadParameter { device, parameter })
        } else {
            None
        },
    }
}

fn check_state(
    network: &Network,
    state: DeviceState,
    address: PhysicalStateAddress,
    stored: bool,
) -> (result: Option<BindingFault>)
    requires
        network.wf(),
    ensures
        result == state_fault(*network, state, address, stored),
{
    match network.device_location(state.device) {
        Err(_) => Some(BindingFault::MissingDevice { device: state.device }),
        Ok(current) => if !same_place(address.location, current) {
            Some(BindingFault::StaleState { state })
        } else if address.state_index != state.state.index() {
            Some(BindingFault::WrongStateIndex { state })
        } else if !stored {
            Some(BindingFault::DeadState { state })
        } else {
            None
        },
    }
}

impl IslandBindings {
    /// What is wrong with the bindings, if anything is.
    pub open spec fn fault(
        self,
        network: Network,
        inputs_stored: Seq<bool>,
        outputs_stored: Seq<bool>,
    ) -> Option<BindingFault> {
        if let Some(fault) = first_parameter_fault(network, self.spec_parameters(), 0) {
            Some(fault)
        } else if let Some(fault) = first_input_fault(
            network,
            self.spec_state_inputs(),
            inputs_stored,
            0,
        ) {
            Some(fault)
        } else {
            first_output_fault(network, self.spec_state_outputs(), outputs_stored, 0)
        }
    }

    /// Tells whether the bindings are good: everything is where it is bound to, and there is a
    /// stored state, as is told for each binding, wherever one is bound.
    pub fn validate(
        &self,
        network: &Network,
        inputs_stored: &Vec<bool>,
        outputs_stored: &Vec<bool>,
    ) -> (result: Result<(), BindingFault>)
        requires
            network.wf(),
            inputs_stored@.len() == self.spec_state_inputs().len(),
            outputs_stored@.len() == self.spec_state_outputs().len(),
        ensures
            match self.fault(*network, inputs_stored@, outputs_stored@) {
                Some(fault) => result == Err::<(), _>(fault),
                None => result is Ok,
            },
    {
        let mut index: usize = 0;
        while index < self.parameters.len()
            invariant
                network.wf(),
                index <= self.parameters@.len(),
                first_parameter_fault(*network, self.parameters@, 0) == first_parameter_fault(
                    *network,
                    self.parameters@,
                    index as int,
                ),
            decreases self.parameters@.len() - index,
        {
            if let Some(fault) = check_parameter(network, &self.parameters[index]) {
                return Err(fault);
            }
            index = index + 1;
        }
        let mut at: usize = 0;
        while at < self.state_inputs.len()
            invariant
                network.wf(),
                at <= self.state_inputs@.len() == inputs_stored@.len(),
                first_parameter_fault(*network, self.parameters@, 0) is None,
                first_input_fault(*network, self.state_inputs@, inputs_stored@, 0)
                    == first_input_fault(
                    *network,
                    self.state_inputs@,
                    inputs_stored@,
                    at as int,
                ),
            decreases self.state_inputs@.len() - at,
        {
            let binding = &self.state_inputs[at];
            if let Some(fault) = check_state(
                network,
                binding.state,
                binding.address,
                inputs_stored[at],
            ) {
                return Err(fault);
            }
            at = at + 1;
        }
        let mut next: usize = 0;
        while next < self.state_outputs.len()
            invariant
                network.wf(),
                next <= self.state_outputs@.len() == outputs_stored@.len(),
                first_parameter_fault(*network, self.parameters@, 0) is None,
                first_input_fault(*network, self.state_inputs@, inputs_stored@, 0) is None,
                first_output_fault(*network, self.state_outputs@, outputs_stored@, 0)
                    == first_output_fault(
                    *network,
                    self.state_outputs@,
                    outputs_stored@,
                    next as int,
                ),
            decreases self.state_outputs@.len() - next,
        {
            let binding = &self.state_outputs[next];
            if let Some(fault) = check_state(
                network,
                binding.state,
                binding.address,
                outputs_stored[next],
            ) {
                return Err(fault);
            }
            next = next + 1;
        }
        Ok(())
    }
}

/// Bindings without a fault are bound to where their devices are kept.
pub proof fn law_valid_bindings_are_bound(
    bindings: IslandBindings,
    network: Network,
    inputs_stored: Seq<bool>,
    outputs_stored: Seq<bool>,
)
    requires
        bindings.fault(network, inputs_stored, outputs_stored) is None,
    ensures
        bindings.bound_to(network),
{
    assert forall|i: int| 0 <= i < bindings.spec_parameters().len() implies is_at(
        network,
        (#[trigger] bindings.spec_parameters()[i]).device,
        bindings.spec_parameters()[i].location,
    ) by {
        lemma_parameter_faultless(network, bindings.spec_parameters(), 0, i);
    }
    assert forall|i: int| 0 <= i < bindings.spec_state_inputs().len() implies is_address(
        network,
        (#[trigger] bindings.spec_state_inputs()[i]).state,
        bindings.spec_state_inputs()[i].address,
    ) by {
        lemma_input_faultless(network, bindings.spec_state_inputs(), inputs_stored, 0, i);
    }
    assert forall|i: int| 0 <= i < bindings.spec_state_outputs().len() implies is_address(
        network,
        (#[trigger] bindings.spec_state_outputs()[i]).state,
        bindings.spec_state_outputs()[i].address,
    ) by {
        lemma_output_faultless(network, bindings.spec_state_outputs(), outputs_stored, 0, i);
    }
}

proof fn lemma_parameter_faultless(
    network: Network,
    bindings: Seq<ParameterInputBinding>,
    from: int,
    index: int,
)
    requires
        0 <= from <= index < bindings.len(),
        first_parameter_fault(network, bindings, from) is None,
    ensures
        parameter_fault(network, bindings[index]) is None,
    decreases index - from,
{
    if from < index {
        lemma_parameter_faultless(network, bindings, from + 1, index);
    }
}

proof fn lemma_input_faultless(
    network: Network,
    bindings: Seq<StateInputBinding>,
    stored: Seq<bool>,
    from: int,
    index: int,
)
    requires
        0 <= from <= index < bindings.len(),
        first_input_fault(network, bindings, stored, from) is None,
    ensures
        state_fault(
            network,
            bindings[index].state,
            bindings[index].address,
            stored[index],
        ) is None,
    decreases index - from,
{
    if from < index {
        lemma_input_faultless(network, bindings, stored, from + 1, index);
    }
}

proof fn lemma_output_faultless(
    network: Network,
    bindings: Seq<StateOutputBinding>,
    stored: Seq<bool>,
    from: int,
    index: int,
)
    requires
        0 <= from <= index < bindings.len(),
        first_output_fault(network, bindings, stored, from) is None,
    ensures
        state_fault(
            network,
            bindings[index].state,
            bindings[index].address,
            stored[index],
        ) is None,
    decreases index - from,
{
    if from < index {
        lemma_output_faultless(network, bindings, stored, from + 1, index);
    }
}

} // verus!
