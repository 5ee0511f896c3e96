use hynergy::bindings::{
    BindingFault, CompiledPartitionInputs, DefinitionStateId, DefinitionStateInitializer,
    DeviceState, InputSlot, IslandBindings, IslandRuntimeError, IslandStateLayout,
    PhysicalStateAddress, PhysicalStateError, StateOutputBinding, StateSlot, StateWrite,
};
use hynergy::definition::PrimitiveElementKind;
use hynergy::ids::{DefinitionId, DeviceId, ParameterId};
use hynergy::matrix_program::ValueSlot;
use hynergy::network::Network;
use hynergy::registry::DefinitionRegistry;
use hynergy::workspace::ValueWorkspace;

fn bits(value: f64) -> u64 {
    value.to_bits()
}

fn device(raw: u32) -> DeviceId {
    DeviceId::try_from(raw).unwrap()
}

fn network_of(kind: PrimitiveElementKind, devices: &[DeviceId], value: f64) -> Network {
    let definitions = DefinitionRegistry::new();
    let mut network = Network::new();
    for &device in devices {
        network
            .add_device(&definitions, device, DefinitionId::from(kind))
            .unwrap();
        network
            .set_device_parameter(&definitions, device, ParameterId::new(0), bits(value))
            .unwrap();
    }
    network
}

/// One parameter, one state that is read, and one that is written.
fn bind(
    network: &Network,
    device: DeviceId,
    initializer: DefinitionStateInitializer,
) -> Result<IslandBindings, IslandRuntimeError> {
    let states = IslandStateLayout {
        states: vec![(state_of(device), initializer)],
    };
    let inputs = vec![CompiledPartitionInputs {
        device,
        definition_parameters: vec![ParameterId::new(0)],
        parameter_inputs: vec![InputSlot::new(0)],
    }];
    IslandBindings::new(
        network,
        &states,
        &inputs,
        &vec![(StateSlot::new(0), InputSlot::new(1))],
        &vec![StateWrite {
            destination: StateSlot::new(0),
            source: ValueSlot::new(2),
        }],
    )
}

fn state_of(device: DeviceId) -> DeviceState {
    DeviceState {
        device,
        state: DefinitionStateId::new(0),
    }
}

const ZERO: DefinitionStateInitializer = DefinitionStateInitializer::Constant(0);

#[test]
fn rebind_updates_physical_locations_without_changing_semantic_identity() {
    let first = device(1);
    let removed = device(2);
    let moved = device(3);
    let mut network = network_of(
        PrimitiveElementKind::Capacitor,
        &[first, removed, moved],
        1.0e-6,
    );

    let mut bindings = bind(&network, moved, ZERO).unwrap();

    let parameter = bindings.parameters()[0];
    assert_eq!(parameter.device, moved);
    assert_eq!(parameter.parameter, ParameterId::new(0));
    assert_eq!(parameter.location, network.device_location(moved).unwrap());
    assert_eq!(parameter.location.row(), 2);

    let state = bindings.state_inputs()[0];
    assert_eq!(state.state.device, moved);
    assert_eq!(
        state.address.location,
        network.device_location(moved).unwrap(),
    );
    assert_eq!(state.address.location.row(), 2);

    let output = bindings.state_outputs()[0];
    assert_eq!(output.state.device, moved);
    assert_eq!(
        output.address.location,
        network.device_location(moved).unwrap(),
    );
    assert_eq!(output.address.location.row(), 2);

    let removal = network.remove_device(removed).unwrap();
    assert_eq!(removal.moved_device(), Some(moved));
    assert_eq!(network.device_location(moved).unwrap().row(), 1);

    bindings.rebind(&network).unwrap();

    let rebound = bindings.parameters()[0];
    assert_eq!(rebound.device, moved);
    assert_eq!(rebound.parameter, ParameterId::new(0));
    assert_eq!(rebound.input, parameter.input);
    assert_eq!(rebound.location.row(), 1);

    let rebound = bindings.state_inputs()[0];
    assert_eq!(rebound.state, state.state);
    assert_eq!(rebound.input, state.input);
    assert_eq!(
        rebound.address.location,
        network.device_location(moved).unwrap(),
    );
    assert_eq!(rebound.address.location.row(), 1);

    let rebound = bindings.state_outputs()[0];
    assert_eq!(rebound.state, output.state);
    assert_eq!(rebound.source, output.source);
    assert_eq!(
        rebound.address.location,
        network.device_location(moved).unwrap(),
    );
    assert_eq!(rebound.address.location.row(), 1);
}

#[test]
fn validation_detects_stale_bindings_after_row_relocation() {
    let devices = [device(1), device(2), device(3)];
    let mut network = network_of(PrimitiveElementKind::Capacitor, &devices, 1.0);
    let bindings = bind(&network, device(3), ZERO).unwrap();
    assert_eq!(
        bindings.validate(&network, &vec![true], &vec![true]),
        Ok(())
    );
    assert_eq!(
        bindings.validate(&network, &vec![false], &vec![true]),
        Err(BindingFault::DeadState {
            state: state_of(device(3))
        })
    );

    network.remove_device(device(2)).unwrap();
    assert_eq!(network.device_location(device(3)).unwrap().row(), 1);

    assert_eq!(
        bindings.validate(&network, &vec![true], &vec![true]),
        Err(BindingFault::StaleParameter {
            device: device(3),
            parameter: ParameterId::new(0)
        })
    );
    network.remove_device(device(3)).unwrap();
    assert_eq!(
        bindings.validate(&network, &vec![true], &vec![true]),
        Err(BindingFault::MissingDevice { device: device(3) })
    );
}

#[test]
fn state_input_binding_carries_precompiled_initializer() {
    let network = network_of(PrimitiveElementKind::TickDelay, &[device(1)], 3.25);
    let initializer = DefinitionStateInitializer::Parameter(ParameterId::new(0));

    let bindings = bind(&network, device(1), initializer).unwrap();

    assert_eq!(bindings.state_inputs().len(), 1);
    let binding = &bindings.state_inputs()[0];
    assert_eq!(binding.state.device, device(1));
    assert_eq!(binding.initializer, initializer);
    assert_eq!(binding.read_logical(&network, Ok(None)), Ok(bits(3.25)));
    assert_eq!(
        binding.read_logical(&network, Ok(Some(bits(8.0)))),
        Ok(bits(8.0))
    );
}

#[test]
fn states_that_cannot_be_read_are_reported() {
    let definitions = DefinitionRegistry::new();
    let mut network = Network::new();
    network
        .add_device(
            &definitions,
            device(1),
            DefinitionId::from(PrimitiveElementKind::TickDelay),
        )
        .unwrap();
    let initializer = DefinitionStateInitializer::Parameter(ParameterId::new(0));
    let bindings = bind(&network, device(1), initializer).unwrap();
    let binding = &bindings.state_inputs()[0];

    assert_eq!(
        binding.read_logical(&network, Ok(None)),
        Err(IslandRuntimeError::MissingParameter {
            device: device(1),
            parameter: ParameterId::new(0)
        })
    );
    assert_eq!(
        binding.read_logical(
            &network,
            Err(PhysicalStateError::StateNotInitialized {
                state: state_of(device(1))
            })
        ),
        Err(IslandRuntimeError::MissingState {
            device: device(1),
            state: DefinitionStateId::new(0)
        })
    );
}

#[test]
fn state_output_binding_retains_transition_source_and_physical_destination() {
    let network = network_of(PrimitiveElementKind::Capacitor, &[device(1)], 1.0e-6);

    let bindings = bind(&network, device(1), ZERO).unwrap();

    assert_eq!(bindings.state_outputs().len(), 1);
    let binding = &bindings.state_outputs()[0];
    assert_eq!(binding.state, state_of(device(1)));
    assert_eq!(binding.source, ValueSlot::new(2));
    assert_eq!(
        binding.address,
        PhysicalStateAddress {
            location: network.device_location(device(1)).unwrap(),
            state_index: 0,
        }
    );

    let mut workspace = ValueWorkspace::new(3);
    workspace.values_mut()[2] = bits(0.75);
    assert_eq!(binding.value(&workspace), bits(0.75));
    assert_eq!(binding.validate_source(&workspace), Ok(()));
}

#[test]
fn state_output_binding_rejects_non_finite_source_value() {
    let network = network_of(PrimitiveElementKind::TickDelay, &[device(1)], 0.0);
    let state = state_of(device(1));
    let binding = StateOutputBinding {
        state,
        source: ValueSlot::new(0),
        address: PhysicalStateAddress {
            location: network.device_location(device(1)).unwrap(),
            state_index: 0,
        },
    };
    let mut workspace = ValueWorkspace::new(1);
    workspace.values_mut()[0] = bits(f64::NAN);

    assert_eq!(
        binding.validate_source(&workspace),
        Err(IslandRuntimeError::NonFiniteState { state }),
    );
}

#[test]
fn devices_that_are_not_there_cannot_be_bound() {
    let network = network_of(PrimitiveElementKind::Capacitor, &[device(1)], 1.0);

    assert_eq!(
        bind(&network, device(2), ZERO).err(),
        Some(IslandRuntimeError::MissingDevice { device: device(2) })
    );
}

#[test]
fn rebinding_stops_at_the_first_missing_device() {
    let mut network = network_of(
        PrimitiveElementKind::Capacitor,
        &[device(1), device(2), device(3)],
        1.0,
    );
    let inputs = [3, 2]
        .iter()
        .map(|&raw| CompiledPartitionInputs {
            device: device(raw),
            definition_parameters: vec![ParameterId::new(0)],
            parameter_inputs: vec![InputSlot::new(0)],
        })
        .collect();
    let states = IslandStateLayout {
        states: vec![(state_of(device(3)), ZERO)],
    };
    let mut bindings = IslandBindings::new(
        &network,
        &states,
        &inputs,
        &vec![(StateSlot::new(0), InputSlot::new(1))],
        &Vec::new(),
    )
    .unwrap();
    let before = bindings.state_inputs()[0];

    network.remove_device(device(2)).unwrap();
    assert_eq!(
        bindings.rebind(&network),
        Err(IslandRuntimeError::MissingDevice { device: device(2) })
    );

    assert_eq!(bindings.parameters()[0].location.row(), 1);
    assert_eq!(bindings.parameters()[1].location.row(), 1);
    assert_eq!(bindings.state_inputs()[0], before);
    assert_eq!(before.address.location.row(), 2);
}
