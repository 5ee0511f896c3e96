//! What holds of the places that islands read from and write to.

use crate::bindings::{
    first_input_fault, first_missing, first_output_fault, first_parameter_fault, input_devices,
    missing_device, missing_place, output_devices, parameter_fault, parameter_targets,
    partition_devices, state_fault, BindingFault, CompiledPartitionInputs,
    DefinitionStateInitializer, DeviceState, InputSlot, IslandBindings, IslandRuntimeError,
    ParameterInputBinding, PhysicalStateAddress, PhysicalStateError, StateInputBinding, StateSlot,
    StateWrite,
};
use crate::ids::DeviceId;
use crate::network::Network;
use vstd::prelude::*;

verus! {

/// A device is reported missing exactly if it is not in the network and all before it are. Where
/// all are there, none is.
pub proof fn law_the_first_missing_device_is_told(
    network: Network,
    devices: Seq<DeviceId>,
    index: int,
)
    requires
        0 <= index <= devices.len(),
        forall|i: int| 0 <= i < index ==> network.device_live((#[trigger] devices[i]).value()),
        index < devices.len() ==> !network.device_live(devices[index].value()),
    ensures
        missing_place(network, devices, 0) == index,
        index < devices.len() ==> first_missing(network, devices, 0) == Some(devices[index]),
        index == devices.len() ==> first_missing(network, devices, 0) is None,
{
    lemma_missing_from(network, devices, 0, index);
}

proof fn lemma_missing_from(network: Network, devices: Seq<DeviceId>, from: int, index: int)
    requires
        0 <= from <= index <= devices.len(),
        forall|i: int| from <= i < index ==> network.device_live((#[trigger] devices[i]).value()),
        index < devices.len() ==> !network.device_live(devices[index].value()),
    ensures
        missing_place(network, devices, from) == index,
        first_missing(network, devices, from) == if index < devices.len() {
            Some(devices[index])
        } else {
            None
        },
    decreases index - from,
{
    if from < index {
        assert(network.device_live(devices[from].value()));
        lemma_missing_from(network, devices, from + 1, index);
    }
}

proof fn lemma_first_missing_is_missing(network: Network, devices: Seq<DeviceId>, from: int)
    requires
        0 <= from <= devices.len(),
    ensures
        match first_missing(network, devices, from) {
            Some(device) => devices.contains(device) && !network.device_live(device.value()),
            None => forall|i: int|
                from <= i < devices.len() ==> network.device_live((#[trigger] devices[i]).value()),
        },
    decreases devices.len() - from,
{
    if from < devices.len() {
        if network.device_live(devices[from].value()) {
            lemma_first_missing_is_missing(network, devices, from + 1);
        } else {
            assert(devices.contains(devices[from]));
        }
    }
}

/// An island can be bound exactly if every device is in the network that one of its partitions
/// belongs to, or whose state it reads or writes. Else one that is not is reported: a device of a
/// partition before one whose state is read, and this before one whose state is written.
pub proof fn law_islands_are_bound_where_all_devices_are_there(
    network: Network,
    states: Seq<(DeviceState, DefinitionStateInitializer)>,
    partitions: Seq<CompiledPartitionInputs>,
    inputs: Seq<(StateSlot, InputSlot)>,
    writes: Seq<StateWrite>,
)
    ensures
        ({
            let live = |device: DeviceId| network.device_live(device.value());
            let all_owners = forall|p: int|
                0 <= p < partitions.len() ==> network.device_live(
                    (#[trigger] partitions[p]).device.value(),
                );
            let all_read = forall|i: int|
                0 <= i < inputs.len() ==> network.device_live(
                    states[(#[trigger] inputs[i]).0.value() as int].0.device.value(),
                );
            let all_written = forall|i: int|
                0 <= i < writes.len() ==> network.device_live(
                    states[(#[trigger] writes[i]).destination.value() as int].0.device.value(),
                );
            match missing_device(network, states, partitions, inputs, writes) {
                None => all_owners && all_read && all_written,
                Some(device) => {
                    &&& !live(device)
                    &&& if !all_owners {
                        partition_devices(partitions).contains(device)
                    } else if !all_read {
                        input_devices(states, inputs).contains(device)
                    } else {
                        !all_written && output_devices(states, writes).contains(device)
                    }
                },
            }
        }),
{
    let owners = partition_devices(partitions);
    let read = input_devices(states, inputs);
    let written = output_devices(states, writes);
    lemma_first_missing_is_missing(network, owners, 0);
    lemma_first_missing_is_missing(network, read, 0);
    lemma_first_missing_is_missing(network, written, 0);
    if first_missing(network, owners, 0) is None {
        assert forall|p: int| 0 <= p < partitions.len() implies network.device_live(
            (#[trigger] partitions[p]).device.value(),
        ) by {
            assert(network.device_live(owners[p].value()));
        }
        if first_missing(network, read, 0) is None {
            assert forall|i: int| 0 <= i < inputs.len() implies network.device_live(
                states[(#[trigger] inputs[i]).0.value() as int].0.device.value(),
            ) by {
                assert(network.device_live(read[i].value()));
            }
            if first_missing(network, written, 0) is None {
                assert forall|i: int| 0 <= i < writes.len() implies network.device_live(
                    states[(#[trigger] writes[i]).destination.value() as int].0.device.value(),
                ) by {
                    assert(network.device_live(written[i].value()));
                }
            } else {
                let device = first_missing(network, written, 0)->0;
                let i = choose|i: int| 0 <= i < written.len() && written[i] == device;
                assert(0 <= i < writes.len());
                assert(states[writes[i].destination.value() as int].0.device == device);
            }
        } else {
            let device = first_missing(network, read, 0)->0;
            let i = choose|i: int| 0 <= i < read.len() && read[i] == device;
            assert(states[inputs[i].0.value() as int].0.device == device);
        }
    } else {
        let device = first_missing(network, owners, 0)->0;
        let p = choose|p: int| 0 <= p < owners.len() && owners[p] == device;
        assert(partitions[p].device == device);
    }
}

/// How many parameters the first partitions read.
pub open spec fn parameters_read(partitions: Seq<CompiledPartitionInputs>, count: int) -> int
    decreases count,
{
    if count <= 0 {
        0
    } else {
        parameters_read(partitions, count - 1)
            + partitions[count - 1].definition_parameters@.len() as int
    }
}

/// The parameters of a partition follow those of the partitions before it, in order. Each goes from
/// the partition's device to the input that is named at its place.
pub proof fn law_parameters_go_to_their_inputs(
    partitions: Seq<CompiledPartitionInputs>,
    count: int,
    partition: int,
    index: int,
)
    requires
        0 <= partition < count <= partitions.len(),
        0 <= index < partitions[partition].definition_parameters@.len(),
    ensures
        parameter_targets(partitions, count).len() == parameters_read(partitions, count),
        0 <= parameters_read(partitions, partition) + index < parameters_read(partitions, count),
        ({
            let (device, parameter, input) = parameter_targets(partitions, count)[parameters_read(
                partitions,
                partition,
            ) + index];
            &&& device == partitions[partition].device
            &&& parameter == partitions[partition].definition_parameters@[index]
            &&& input == partitions[partition].parameter_inputs@[index]
        }),
    decreases count,
{
    lemma_target_count(partitions, count - 1);
    if partition < count - 1 {
        law_parameters_go_to_their_inputs(partitions, count - 1, partition, index);
    } else {
        lemma_target_count(partitions, partition);
    }
}

proof fn lemma_target_count(partitions: Seq<CompiledPartitionInputs>, count: int)
    requires
        0 <= count <= partitions.len(),
    ensures
        parameter_targets(partitions, count).len() == parameters_read(partitions, count),
        parameters_read(partitions, count) >= 0,
    decreases count,
{
    if count > 0 {
        lemma_target_count(partitions, count - 1);
    }
}

/// A binding of a parameter is good exactly if its device is in the network and kept where it is
/// bound to, and has the parameter there. Else it is told which of these fails.
pub proof fn law_good_parameters_are_where_they_are_bound(
    network: Network,
    binding: ParameterInputBinding,
)
    ensures
        ({
            let live = network.device_live(binding.device.value());
            let placed = binding.location.spec_chunk() == network.arena().chunk_of(
                binding.device.value(),
            ) && binding.location.spec_row() == network.arena().row_of(binding.device.value());
            let there = network.arena().spec_parameter_at(binding.location, binding.parameter);
            match parameter_fault(network, binding) {
                None => live && placed && there is Some,
                Some(BindingFault::MissingDevice { device }) => !live && device == binding.device,
                Some(BindingFault::StaleParameter { device, parameter }) => live && !placed
                    && device == binding.device && parameter == binding.parameter,
                Some(BindingFault::DeadParameter { device, parameter }) => live && placed
                    && there is None && device == binding.device && parameter == binding.parameter,
                Some(_) => false,
            }
        }),
{
}

/// A binding of a state is good exactly if its device is in the network and kept where it is bound
/// to, at the state's own place, and the state is stored there. Else it is told which of these
/// fails first.
pub proof fn law_good_states_are_where_they_are_bound(
    network: Network,
    state: DeviceState,
    address: PhysicalStateAddress,
    stored: bool,
)
    ensures
        ({
            let live = network.device_live(state.device.value());
            let placed = address.location.spec_chunk() == network.arena().chunk_of(
                state.device.value(),
            ) && address.location.spec_row() == network.arena().row_of(state.device.value());
            let own = address.state_index == state.state.value();
            match state_fault(network, state, address, stored) {
                None => live && placed && own && stored,
                Some(BindingFault::MissingDevice { device }) => !live && device == state.device,
                Some(BindingFault::StaleState { state: told }) => live && !placed && told == state,
                Some(BindingFault::WrongStateIndex { state: told }) => live && placed && !own
                    && told == state,
                Some(BindingFault::DeadState { state: told }) => live && placed && own && !stored
                    && told == state,
                Some(_) => false,
            }
        }),
{
}

/// The fault that is told is that of the first faulty binding; parameters come before states that
/// are read, and these before states that are written.
pub proof fn law_the_first_fault_of_the_bindings_is_told(
    bindings: IslandBindings,
    network: Network,
    inputs_stored: Seq<bool>,
    outputs_stored: Seq<bool>,
    parameters: int,
    inputs: int,
    outputs: int,
)
    requires
        0 <= parameters <= bindings.spec_parameters().len(),
        0 <= inputs <= bindings.spec_state_inputs().len(),
        0 <= outputs <= bindings.spec_state_outputs().len(),
        forall|i: int|
            0 <= i < parameters ==> parameter_fault(
                network,
                #[trigger] bindings.spec_parameters()[i],
            ) is None,
        forall|i: int|
            0 <= i < inputs ==> state_fault(
                network,
                (#[trigger] bindings.spec_state_inputs()[i]).state,
                bindings.spec_state_inputs()[i].address,
                inputs_stored[i],
            ) is None,
        forall|i: int|
            0 <= i < outputs ==> state_fault(
                network,
                (#[trigger] bindings.spec_state_outputs()[i]).state,
                bindings.spec_state_outputs()[i].address,
                outputs_stored[i],
            ) is None,
    ensures
        ({
            let fault = bindings.fault(network, inputs_stored, outputs_stored);
            let all_parameters = parameters == bindings.spec_parameters().len();
            let all_inputs = inputs == bindings.spec_state_inputs().len();
            let all_outputs = outputs == bindings.spec_state_outputs().len();
            &&& all_parameters && all_inputs && all_outputs ==> fault is None
            &&& !all_parameters && parameter_fault(
                network,
                bindings.spec_parameters()[parameters],
            ) is Some ==> fault == parameter_fault(network, bindings.spec_parameters()[parameters])
            &&& all_parameters && !all_inputs ==> {
                let next = bindings.spec_state_inputs()[inputs];
                let wrong = state_fault(network, next.state, next.address, inputs_stored[inputs]);
                wrong is Some ==> fault == wrong
            }
            &&& all_parameters && all_inputs && !all_outputs ==> {
                let next = bindings.spec_state_outputs()[outputs];
                let wrong = state_fault(network, next.state, next.address, outputs_stored[outputs]);
                wrong is Some ==> fault == wrong
            }
        }),
{
    lemma_parameters_pass(network, bindings.spec_parameters(), 0, parameters);
    lemma_inputs_pass(bindings, network, inputs_stored, 0, inputs);
    lemma_outputs_pass(bindings, network, outputs_stored, 0, outputs);
}

proof fn lemma_parameters_pass(
    network: Network,
    bindings: Seq<ParameterInputBinding>,
    from: int,
    to: int,
)
    requires
        0 <= from <= to <= bindings.len(),
        forall|i: int|
            from <= i < to ==> parameter_fault(network, #[trigger] bindings[i]) is None,
    ensures
        first_parameter_fault(network, bindings, from) == first_parameter_fault(
            network,
            bindings,
            to,
        ),
    decreases to - from,
{
    if from < to {
        assert(parameter_fault(network, bindings[from]) is None);
        lemma_parameters_pass(network, bindings, from + 1, to);
    }
}

proof fn lemma_inputs_pass(
    bindings: IslandBindings,
    network: Network,
    stored: Seq<bool>,
    from: int,
    to: int,
)
    requires
        0 <= from <= to <= bindings.spec_state_inputs().len(),
        forall|i: int|
            from <= i < to ==> state_fault(
                network,
                (#[trigger] bindings.spec_state_inputs()[i]).state,
                bindings.spec_state_inputs()[i].address,
                stored[i],
            ) is None,
    ensures
        first_input_fault(network, bindings.spec_state_inputs(), stored, from)
            == first_input_fault(network, bindings.spec_state_inputs(), stored, to),
    decreases to - from,
{
    if from < to {
        let first = bindings.spec_state_inputs()[from];
        assert(state_fault(network, first.state, first.address, stored[from]) is None);
        lemma_inputs_pass(bindings, network, stored, from + 1, to);
    }
}

proof fn lemma_outputs_pass(
    bindings: IslandBindings,
    network: Network,
    stored: Seq<bool>,
    from: int,
    to: int,
)
    requires
        0 <= from <= to <= bindings.spec_state_outputs().len(),
        forall|i: int|
            from <= i < to ==> state_fault(
                network,
                (#[trigger] bindings.spec_state_outputs()[i]).state,
                bindings.spec_state_outputs()[i].address,
                stored[i],
            ) is None,
    ensures
        first_output_fault(network, bindings.spec_state_outputs(), stored, from)
            == first_output_fault(network, bindings.spec_state_outputs(), stored, to),
    decreases to - from,
{
    if from < to {
        let first = bindings.spec_state_outputs()[from];
        assert(state_fault(network, first.state, first.address, stored[from]) is None);
        lemma_outputs_pass(bindings, network, stored, from + 1, to);
    }
}

/// What is stored for a state is what it is, whatever it starts with. A state that was never written
/// is what it starts with: a number, or a parameter of its device. Where that parameter has no
/// value it is reported as missing.
pub proof fn law_stored_states_come_before_initial_ones(
    binding: StateInputBinding,
    network: Network,
    value: u64,
)
    ensures
        binding.logical(network, Ok(Some(value))) == Ok::<u64, IslandRuntimeError>(value),
        binding.initializer == DefinitionStateInitializer::Constant(value) ==> binding.logical(
            network,
            Ok(None),
        ) == Ok::<u64, IslandRuntimeError>(value),
        binding.initializer matches DefinitionStateInitializer::Parameter(parameter) ==> {
            let held = network.arena().spec_parameter_at(binding.address.location, parameter);
            let read = binding.logical(network, Ok(None));
            &&& held == Some(Some(value)) ==> read == Ok::<u64, IslandRuntimeError>(value)
            &&& (held is None || held->0 is None) ==> read == Err::<u64, _>(
                IslandRuntimeError::MissingParameter { device: binding.state.device, parameter },
            )
        },
{
}

/// A state that cannot be read is reported under its own device: as a missing parameter where it
/// lacks one to start with, else as a missing state.
pub proof fn law_unreadable_states_are_reported(
    binding: StateInputBinding,
    network: Network,
    error: PhysicalStateError,
)
    ensures
        error matches PhysicalStateError::MissingInitialParameter { device, parameter }
            ==> binding.logical(network, Err(error)) == Err::<u64, _>(
            IslandRuntimeError::MissingParameter { device, parameter },
        ),
        error matches PhysicalStateError::StateNotInitialized { state } ==> binding.logical(
            network,
            Err(error),
        ) == Err::<u64, _>(
            IslandRuntimeError::MissingState { device: state.device, state: state.state },
        ),
{
}

} // verus!
