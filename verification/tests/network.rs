use hynergy::connection::{ConnectionRef, ConnectionType};
use hynergy::definition::PrimitiveElementKind;
use hynergy::device_arena::DeviceArena;
use hynergy::device_chunk::{DeviceChunk, DEVICE_CHUNK_CAPACITY, UNASSIGNED_PARAMETER};
use hynergy::ids::{DefinitionId, DeviceId, ParameterId, TerminalId, WireId};
use hynergy::network::Network;
use hynergy::network_error::NetworkModelError;
use hynergy::parameter::ParameterConstraintError;
use hynergy::registry::DefinitionRegistry;

fn bits(value: f64) -> u64 {
    value.to_bits()
}

fn device_id(raw: u32) -> DeviceId {
    DeviceId::try_from(raw).unwrap()
}

fn wire_id(raw: u32) -> WireId {
    WireId::try_from(raw).unwrap()
}

#[test]
fn device_parameter_validation_preserves_previous_value() {
    let definitions = DefinitionRegistry::new();
    let mut model = Network::new();
    let device = device_id(1);
    let definition = DefinitionId::from(PrimitiveElementKind::Conductance);

    model.add_device(&definitions, device, definition).unwrap();
    assert_eq!(
        model.device(device).unwrap().parameter(ParameterId::new(0)),
        Some(None),
    );

    model
        .set_device_parameter(&definitions, device, ParameterId::new(0), bits(0.0))
        .unwrap();

    assert_eq!(
        model.device(device).unwrap().parameter(ParameterId::new(0)),
        Some(Some(bits(0.0))),
    );

    model
        .set_device_parameter(&definitions, device, ParameterId::new(0), bits(1.0))
        .unwrap();

    for (value, error) in [
        (-1.0, ParameterConstraintError::OutOfRange),
        (f64::NAN, ParameterConstraintError::NonFinite),
    ] {
        assert_eq!(
            model.set_device_parameter(&definitions, device, ParameterId::new(0), bits(value)),
            Err(NetworkModelError::ParameterConstraintViolation {
                parameter: ParameterId::new(0),
                source: error,
            })
        );

        assert_eq!(
            model.device(device).unwrap().parameter(ParameterId::new(0)),
            Some(Some(bits(1.0))),
        );
    }
}

#[test]
fn wire_connections_exposes_typed_read_only_connections() {
    let definitions = DefinitionRegistry::new();
    let mut network = Network::new();
    let wire_a = WireId::try_from(1).unwrap();
    let wire_b = WireId::try_from(2).unwrap();
    let device = device_id(1);
    let terminal = TerminalId::new(0);

    network.add_wire(wire_a).unwrap();
    network.add_wire(wire_b).unwrap();
    network.connect_wires(wire_a, wire_b).unwrap();
    network
        .add_device(
            &definitions,
            device,
            DefinitionId::from(PrimitiveElementKind::Conductance),
        )
        .unwrap();
    network.attach_terminal(wire_a, device, terminal).unwrap();

    let connections = network.wire_connections(wire_a).unwrap();
    assert!(
        connections
            .iter()
            .any(|connection| connection.as_wire() == Some(wire_b))
    );
    assert!(
        connections
            .iter()
            .any(|connection| connection.as_terminal() == Some((device, terminal)))
    );
}

#[test]
fn detaching_terminal_removes_wire_connection() {
    let definitions = DefinitionRegistry::new();
    let mut network = Network::new();
    let wire = WireId::try_from(1).unwrap();
    let device = device_id(1);
    let terminal = TerminalId::new(0);

    network.add_wire(wire).unwrap();
    network
        .add_device(
            &definitions,
            device,
            DefinitionId::from(PrimitiveElementKind::Conductance),
        )
        .unwrap();
    network.attach_terminal(wire, device, terminal).unwrap();

    network.detach_terminal(wire, device, terminal).unwrap();

    assert!(network.wire_connections(wire).unwrap().is_empty());
}

#[test]
fn same_definition_devices_share_chunks_until_capacity() {
    let definitions = DefinitionRegistry::new();
    let mut network = Network::new();
    let definition = DefinitionId::from(PrimitiveElementKind::Conductance);

    for raw in 1..=65 {
        network
            .add_device(&definitions, device_id(raw), definition)
            .unwrap();
    }

    assert_eq!(network.device_arena().chunk_count(), 2);
    assert_eq!(network.device_arena().chunk_len(0), 64);
    assert_eq!(network.device_arena().chunk_len(1), 1);

    assert_eq!(network.device_arena().chunk_definition(0), definition,);
    assert_eq!(network.device_arena().chunk_definition(1), definition,);

    assert!(network.device_arena().is_consistent(&definitions));
}

#[test]
fn different_definitions_never_share_a_chunk() {
    let definitions = DefinitionRegistry::new();
    let mut network = Network::new();

    network
        .add_device(
            &definitions,
            device_id(1),
            DefinitionId::from(PrimitiveElementKind::Conductance),
        )
        .unwrap();

    network
        .add_device(
            &definitions,
            device_id(2),
            DefinitionId::from(PrimitiveElementKind::VoltageSource),
        )
        .unwrap();

    assert_eq!(network.device_arena().chunk_count(), 2);

    assert_ne!(
        network.device_arena().chunk_definition(0),
        network.device_arena().chunk_definition(1),
    );
}

#[test]
fn semantic_iteration_visits_each_resident_device_once() {
    let definitions = DefinitionRegistry::new();
    let mut network = Network::new();

    let conductance = DefinitionId::from(PrimitiveElementKind::Conductance);
    let source = DefinitionId::from(PrimitiveElementKind::VoltageSource);

    network
        .add_device(&definitions, device_id(1), conductance)
        .unwrap();

    network
        .add_device(&definitions, device_id(2), source)
        .unwrap();

    network
        .add_device(&definitions, device_id(3), conductance)
        .unwrap();

    let mut ids = network
        .iter_devices()
        .into_iter()
        .map(|(id, _)| id)
        .collect::<Vec<_>>();

    ids.sort_unstable_by_key(|id| id.get());

    assert_eq!(ids, vec![device_id(1), device_id(2), device_id(3)]);
}

#[test]
fn semantic_parameter_access_never_exposes_infinity_sentinel() {
    let definitions = DefinitionRegistry::new();
    let mut network = Network::new();
    let id = device_id(1);

    network
        .add_device(
            &definitions,
            id,
            DefinitionId::from(PrimitiveElementKind::Conductance),
        )
        .unwrap();

    assert_eq!(
        network.device(id).unwrap().parameter(ParameterId::new(0)),
        Some(None),
    );

    network
        .set_device_parameter(&definitions, id, ParameterId::new(0), bits(1.25))
        .unwrap();

    assert_eq!(
        network.device(id).unwrap().parameter(ParameterId::new(0)),
        Some(Some(bits(1.25))),
    );
}

#[test]
fn removing_middle_row_moves_full_row_and_repairs_directory() {
    let definitions = DefinitionRegistry::new();
    let mut network = Network::new();
    let definition = DefinitionId::from(PrimitiveElementKind::Conductance);

    for raw in 1..=3 {
        network
            .add_device(&definitions, device_id(raw), definition)
            .unwrap();
    }

    network
        .set_device_parameter(&definitions, device_id(3), ParameterId::new(0), bits(7.0))
        .unwrap();

    let result = network.remove_device(device_id(2)).unwrap();

    assert_eq!(result.moved_device(), Some(device_id(3)));

    assert_eq!(
        network
            .device(device_id(3))
            .unwrap()
            .parameter(ParameterId::new(0)),
        Some(Some(bits(7.0))),
    );

    assert!(matches!(
        network.device(device_id(2)),
        Err(NetworkModelError::IdNotAssigned { .. })
    ));

    assert!(network.device_arena().is_consistent(&definitions));
}

#[test]
fn removing_empty_non_last_chunk_repairs_every_moved_chunk_locator() {
    let definitions = DefinitionRegistry::new();
    let mut network = Network::new();

    let first_definition = DefinitionId::from(PrimitiveElementKind::VoltageSource);

    let moved_definition = DefinitionId::from(PrimitiveElementKind::Conductance);

    network
        .add_device(&definitions, device_id(1), first_definition)
        .unwrap();

    for raw in 2..=4 {
        network
            .add_device(&definitions, device_id(raw), moved_definition)
            .unwrap();
    }

    let result = network.remove_device(device_id(1)).unwrap();

    let relocation = result
        .chunk_relocation()
        .expect("non-last empty chunk should be replaced");

    assert_eq!(relocation.from_chunk(), 1);
    assert_eq!(relocation.to_chunk(), 0);

    for raw in 2..=4 {
        assert_eq!(
            network.device(device_id(raw)).unwrap().definition_id(),
            moved_definition,
        );
    }

    let chunk_count = network.device_arena().chunk_count();

    network
        .add_device(&definitions, device_id(5), moved_definition)
        .unwrap();

    assert_eq!(network.device_arena().chunk_count(), chunk_count,);

    assert!(network.device_arena().is_consistent(&definitions));
}

#[test]
fn semantic_iteration_skips_removed_id_holes_without_duplicates() {
    let definitions = DefinitionRegistry::new();
    let mut network = Network::new();
    let definition = DefinitionId::from(PrimitiveElementKind::Conductance);

    for raw in 1..=4 {
        network
            .add_device(&definitions, device_id(raw), definition)
            .unwrap();
    }

    network.remove_device(device_id(2)).unwrap();

    let mut ids = network
        .iter_devices()
        .into_iter()
        .map(|(id, _)| id)
        .collect::<Vec<_>>();

    ids.sort_unstable_by_key(|id| id.get());

    assert_eq!(ids, vec![device_id(1), device_id(3), device_id(4),],);
}

#[test]
fn terminal_attach_detach_survives_device_row_relocation() {
    let definitions = DefinitionRegistry::new();
    let mut network = Network::new();

    let wire = WireId::try_from(1).unwrap();
    let definition = DefinitionId::from(PrimitiveElementKind::Conductance);

    network.add_wire(wire).unwrap();

    for raw in 1..=3 {
        network
            .add_device(&definitions, device_id(raw), definition)
            .unwrap();
    }

    network
        .attach_terminal(wire, device_id(3), TerminalId::new(0))
        .unwrap();

    network.remove_device(device_id(2)).unwrap();

    assert_eq!(
        network.device(device_id(3)).unwrap().terminals()[0],
        Some(ConnectionRef::from(wire)),
    );

    network
        .detach_terminal(wire, device_id(3), TerminalId::new(0))
        .unwrap();

    assert!(network.wire_connections(wire).unwrap().is_empty());
}

#[test]
fn chunk_appends_fixed_stride_rows_without_eager_capacity_sixty_four() {
    let definitions = DefinitionRegistry::new();
    let definition_id = DefinitionId::from(PrimitiveElementKind::VoltageControlledConductance);
    let definition = definitions.get(definition_id).unwrap();
    let mut chunk = DeviceChunk::new(definition_id, definition);

    chunk.push_empty_row(device_id(1));
    chunk.push_empty_row(device_id(2));

    assert_eq!(chunk.len(), 2);
    assert_eq!(
        [chunk.device_id(0), chunk.device_id(1)],
        [device_id(1), device_id(2)]
    );
    let terminal_count = definition.terminals().to_vec().len();
    let parameter_count = definition.parameters().to_vec().len();
    assert_eq!(chunk.stored_terminals(), 2 * terminal_count);
    assert_eq!(chunk.stored_parameters(), 2 * parameter_count);
    for row in 0..2 {
        for parameter in 0..parameter_count as u32 {
            assert_eq!(
                chunk.raw_parameter(row, ParameterId::new(parameter)),
                Some(UNASSIGNED_PARAMETER)
            );
        }
    }
}

#[test]
fn semantic_device_view_hides_unassigned_parameter_sentinel() {
    let definitions = DefinitionRegistry::new();
    let definition_id = DefinitionId::from(PrimitiveElementKind::Conductance);
    let definition = definitions.get(definition_id).unwrap();
    let mut arena = DeviceArena::new();

    arena.insert(device_id(1), definition_id, definition).unwrap();

    let view = arena.device(device_id(1)).unwrap();

    assert_eq!(view.definition_id(), definition_id);
    assert_eq!(view.parameter(ParameterId::new(0)), Some(None));
    assert_eq!(view.parameters(), vec![None]);
}

#[test]
fn chunk_rejects_a_sixty_fifth_row() {
    let definitions = DefinitionRegistry::new();
    let definition_id = DefinitionId::from(PrimitiveElementKind::Conductance);
    let definition = definitions.get(definition_id).unwrap();
    let mut chunk = DeviceChunk::new(definition_id, definition);

    for raw in 1..=DEVICE_CHUNK_CAPACITY as u32 {
        assert!(chunk.push_empty_row(device_id(raw)));
    }

    assert!(!chunk.push_empty_row(device_id(65)));
}

#[test]
fn device_parameters_start_unassigned_and_store_values_explicitly() {
    let registry = DefinitionRegistry::new();
    let definition_id = DefinitionId::from(PrimitiveElementKind::Conductance);
    let definition = registry.get(definition_id).unwrap();
    let mut arena = DeviceArena::new();
    arena.insert(device_id(1), definition_id, definition).unwrap();

    assert_eq!(arena.device(device_id(1)).unwrap().parameters(), vec![None]);

    arena
        .set_parameter(device_id(1), ParameterId::new(0), bits(1.0))
        .unwrap();

    assert_eq!(
        arena.device(device_id(1)).unwrap().parameters(),
        vec![Some(bits(1.0))]
    );
}

fn network_with_one_device() -> (DefinitionRegistry, Network) {
    let definitions = DefinitionRegistry::new();
    let mut network = Network::new();
    network.add_wire(wire_id(1)).unwrap();
    network.add_wire(wire_id(2)).unwrap();
    network
        .add_device(
            &definitions,
            device_id(1),
            DefinitionId::from(PrimitiveElementKind::Conductance),
        )
        .unwrap();
    (definitions, network)
}

#[test]
fn identifiers_are_checked_before_anything_is_added() {
    let (definitions, mut network) = network_with_one_device();
    let definition = DefinitionId::from(PrimitiveElementKind::Conductance);

    assert_eq!(
        network.add_wire(wire_id(1)),
        Err(NetworkModelError::IdAlreadyAssigned { id: 1 })
    );
    assert_eq!(
        network.add_wire(wire_id(4)),
        Err(NetworkModelError::IdOutOfBound {
            id: 4,
            upper_bound: 2
        })
    );
    assert_eq!(
        network.add_wire(wire_id(0x8000_0000)),
        Err(NetworkModelError::IdOutOfBound {
            id: 0x8000_0000,
            upper_bound: 2
        })
    );
    assert_eq!(
        network.add_device(&definitions, device_id(1), definition),
        Err(NetworkModelError::IdAlreadyAssigned { id: 1 })
    );
    assert_eq!(
        network.add_device(&definitions, device_id(3), definition),
        Err(NetworkModelError::IdOutOfBound {
            id: 3,
            upper_bound: 1
        })
    );
    assert_eq!(
        network.add_device(&definitions, device_id(0x8000_0000), definition),
        Err(NetworkModelError::IdExceeds31Bit { id: 0x8000_0000 })
    );
    assert_eq!(
        network.add_device(
            &definitions,
            device_id(2),
            DefinitionId::try_from(99).unwrap()
        ),
        Err(NetworkModelError::UnknownDefinition {
            definition: DefinitionId::try_from(99).unwrap()
        })
    );
}

#[test]
fn connections_are_checked() {
    let (definitions, mut network) = network_with_one_device();
    let terminal = TerminalId::new(0);

    assert_eq!(
        network.connect_wires(wire_id(1), wire_id(1)),
        Err(NetworkModelError::WireConnectToSelf)
    );
    assert_eq!(
        network.disconnect_wires(wire_id(1), wire_id(2)),
        Err(NetworkModelError::NotConnected)
    );
    network.connect_wires(wire_id(1), wire_id(2)).unwrap();
    assert_eq!(
        network.connect_wires(wire_id(2), wire_id(1)),
        Err(NetworkModelError::AlreadyConnected)
    );
    assert_eq!(
        network.connect_wires(wire_id(1), wire_id(3)),
        Err(NetworkModelError::IdNotAssigned {
            ty: ConnectionType::Wire,
            id: 3
        })
    );
    assert_eq!(
        network.attach_terminal(wire_id(1), device_id(1), TerminalId::new(2)),
        Err(NetworkModelError::InvalidTerminal)
    );
    assert_eq!(
        network.detach_terminal(wire_id(1), device_id(1), terminal),
        Err(NetworkModelError::NotConnected)
    );
    network
        .attach_terminal(wire_id(1), device_id(1), terminal)
        .unwrap();
    assert_eq!(
        network.attach_terminal(wire_id(2), device_id(1), terminal),
        Err(NetworkModelError::TerminalAlreadyConnected)
    );
    assert_eq!(
        network.set_device_parameter(&definitions, device_id(1), ParameterId::new(1), bits(1.0)),
        Err(NetworkModelError::InvalidParameter {
            parameter: ParameterId::new(1)
        })
    );
    assert_eq!(
        network.remove_device(device_id(7)),
        Err(NetworkModelError::IdOutOfBound {
            id: 7,
            upper_bound: 1
        })
    );
}

#[test]
fn disconnecting_undoes_connecting() {
    let (_, mut network) = network_with_one_device();

    network.connect_wires(wire_id(1), wire_id(2)).unwrap();
    network
        .attach_terminal(wire_id(1), device_id(1), TerminalId::new(1))
        .unwrap();
    network.disconnect_wires(wire_id(2), wire_id(1)).unwrap();

    let connections = network.wire_connections(wire_id(1)).unwrap();
    assert_eq!(
        connections,
        vec![ConnectionRef::terminal(device_id(1), TerminalId::new(1)).unwrap()]
    );
    assert!(network.wire_connections(wire_id(2)).unwrap().is_empty());

    network
        .detach_terminal(wire_id(1), device_id(1), TerminalId::new(1))
        .unwrap();
    assert!(network.wire_connections(wire_id(1)).unwrap().is_empty());
    assert_eq!(
        network.device(device_id(1)).unwrap().terminals(),
        &[None, None]
    );
}

#[test]
fn removing_a_wire_frees_everything_that_was_connected_to_it() {
    let (_, mut network) = network_with_one_device();

    network.connect_wires(wire_id(1), wire_id(2)).unwrap();
    network
        .attach_terminal(wire_id(1), device_id(1), TerminalId::new(0))
        .unwrap();
    network.remove_wire(wire_id(1)).unwrap();

    assert!(network.wire_connections(wire_id(2)).unwrap().is_empty());
    assert_eq!(
        network.device(device_id(1)).unwrap().terminals(),
        &[None, None]
    );
    assert_eq!(
        network.wire_connections(wire_id(1)),
        Err(NetworkModelError::IdNotAssigned {
            ty: ConnectionType::Wire,
            id: 1
        })
    );
}

#[test]
fn long_connection_lists_keep_their_items() {
    let mut network = Network::new();
    for raw in 1..=9 {
        network.add_wire(wire_id(raw)).unwrap();
    }
    for raw in 2..=9 {
        network.connect_wires(wire_id(1), wire_id(raw)).unwrap();
    }
    network.disconnect_wires(wire_id(1), wire_id(3)).unwrap();

    let mut others: Vec<u32> = network
        .wire_connections(wire_id(1))
        .unwrap()
        .iter()
        .map(|connection| connection.as_wire().unwrap().get())
        .collect();
    others.sort_unstable();
    assert_eq!(others, vec![2, 4, 5, 6, 7, 8, 9]);
}

#[test]
fn parameters_are_found_by_place() {
    let (definitions, mut network) = network_with_one_device();
    network
        .set_device_parameter(&definitions, device_id(1), ParameterId::new(0), bits(4.0))
        .unwrap();
    let place = network.device_location(device_id(1)).unwrap();

    assert_eq!(
        network.parameter_at_location(place, ParameterId::new(0)),
        Some(Some(bits(4.0)))
    );
    assert_eq!(
        network.parameter_at_location(place, ParameterId::new(1)),
        None
    );
}

#[test]
fn removing_undoes_adding_a_wire() {
    let (_, mut network) = network_with_one_device();
    network.connect_wires(wire_id(1), wire_id(2)).unwrap();

    network.add_wire(wire_id(3)).unwrap();
    network.remove_wire(wire_id(3)).unwrap();

    assert!(network.has_wire(1));
    assert!(network.has_wire(2));
    assert!(!network.has_wire(3));
    assert_eq!(
        network.wire_connections(wire_id(1)).unwrap(),
        vec![ConnectionRef::from(wire_id(2))]
    );
    network.add_wire(wire_id(3)).unwrap();
    assert!(network.wire_connections(wire_id(3)).unwrap().is_empty());
}

#[test]
fn insertion_goes_on_in_the_chunk_that_lost_a_device() {
    let definitions = DefinitionRegistry::new();
    let mut network = Network::new();
    let definition = DefinitionId::from(PrimitiveElementKind::Conductance);
    for raw in 1..=130 {
        network
            .add_device(&definitions, device_id(raw), definition)
            .unwrap();
    }
    assert_eq!(
        network
            .device_location(device_id(130))
            .unwrap()
            .chunk_index(),
        2
    );

    network.remove_device(device_id(1)).unwrap();
    network.remove_device(device_id(70)).unwrap();
    let insert = network
        .add_device(&definitions, device_id(1), definition)
        .unwrap();
    assert_eq!(insert.chunk_index(), 1);
    let insert = network
        .add_device(&definitions, device_id(70), definition)
        .unwrap();
    assert_eq!(insert.chunk_index(), 0);
}

#[test]
fn devices_are_listed_as_they_are_kept() {
    let definitions = DefinitionRegistry::new();
    let mut network = Network::new();
    let conductance = DefinitionId::from(PrimitiveElementKind::Conductance);
    let source = DefinitionId::from(PrimitiveElementKind::VoltageSource);
    for (raw, definition) in [(1, conductance), (2, source), (3, conductance)] {
        network
            .add_device(&definitions, device_id(raw), definition)
            .unwrap();
    }

    assert_eq!(
        network.iter_device_ids(),
        vec![device_id(1), device_id(3), device_id(2)]
    );
}

fn connection_list(network: &Network, wire: u32) -> Vec<ConnectionRef> {
    network.wire_connections(wire_id(wire)).unwrap()
}

fn wire_ref(wire: u32) -> ConnectionRef {
    ConnectionRef::from(wire_id(wire))
}

fn terminal_ref(device: u32, terminal: u32) -> ConnectionRef {
    ConnectionRef::terminal(device_id(device), TerminalId::new(terminal)).unwrap()
}

#[test]
fn connections_are_listed_in_order() {
    let mut network = Network::new();
    for raw in 1..=4 {
        network.add_wire(wire_id(raw)).unwrap();
    }
    for (a, b) in [(1, 2), (1, 3), (1, 4), (2, 3)] {
        network.connect_wires(wire_id(a), wire_id(b)).unwrap();
    }
    assert_eq!(
        connection_list(&network, 1),
        vec![wire_ref(2), wire_ref(3), wire_ref(4)]
    );
    assert_eq!(connection_list(&network, 3), vec![wire_ref(1), wire_ref(2)]);

    network.connect_wires(wire_id(2), wire_id(4)).unwrap();
    assert_eq!(
        connection_list(&network, 1),
        vec![wire_ref(2), wire_ref(3), wire_ref(4)]
    );
    network.disconnect_wires(wire_id(2), wire_id(4)).unwrap();
    assert_eq!(connection_list(&network, 2), vec![wire_ref(1), wire_ref(3)]);
    assert_eq!(connection_list(&network, 4), vec![wire_ref(1)]);

    network.disconnect_wires(wire_id(1), wire_id(2)).unwrap();
    assert_eq!(connection_list(&network, 1), vec![wire_ref(4), wire_ref(3)]);
    assert_eq!(connection_list(&network, 2), vec![wire_ref(3)]);
    assert_eq!(connection_list(&network, 3), vec![wire_ref(1), wire_ref(2)]);

    network.remove_wire(wire_id(4)).unwrap();
    assert_eq!(connection_list(&network, 1), vec![wire_ref(3)]);
    assert_eq!(connection_list(&network, 3), vec![wire_ref(1), wire_ref(2)]);

    let slots = network.wires();
    assert_eq!(slots.len(), 4);
    assert!(slots[3].is_none());
    let slot = slots[2].as_ref().unwrap();
    assert_eq!(slot.len(), 2);
    assert!(slot.contains_connection(wire_ref(1)));
    assert!(slot.contains_connection(wire_ref(2)));
    assert!(!slot.contains_connection(wire_ref(3)));
}

#[test]
fn removed_devices_leave_the_other_connections_in_order() {
    let definitions = DefinitionRegistry::new();
    let mut network = Network::new();
    network.add_wire(wire_id(1)).unwrap();
    for raw in 1..=3 {
        network
            .add_device(
                &definitions,
                device_id(raw),
                DefinitionId::from(PrimitiveElementKind::Conductance),
            )
            .unwrap();
    }
    for (device, terminal) in [(1, 0), (2, 0), (2, 1), (1, 1), (3, 0)] {
        network
            .attach_terminal(wire_id(1), device_id(device), TerminalId::new(terminal))
            .unwrap();
    }

    network.remove_device(device_id(1)).unwrap();

    assert_eq!(
        connection_list(&network, 1),
        vec![terminal_ref(3, 0), terminal_ref(2, 0), terminal_ref(2, 1)]
    );
}
