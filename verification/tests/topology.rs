use hynergy::connection::DeviceComponent;
use hynergy::definition::PrimitiveElementKind;
use hynergy::ids::{
    DefinitionId, DeviceId, IslandId, NetId, TerminalId, TerminalPartitionId, WireId,
};
use hynergy::invalidation::WorldInvalidation;
use hynergy::network::Network;
use hynergy::registry::DefinitionRegistry;
use hynergy::scratch::TraversalScratch;
use hynergy::topology::{terminal_component, DerivedTopology};


fn wire(raw: u32) -> WireId {
    WireId::try_from(raw).unwrap()
}

fn device(raw: u32) -> DeviceId {
    DeviceId::try_from(raw).unwrap()
}

fn add_wire(network: &mut Network, topology: &mut DerivedTopology, id: WireId) {
    network.add_wire(id).unwrap();
    topology.add_wire(id);
}

fn add_device(
    network: &mut Network,
    topology: &mut DerivedTopology,
    definitions: &DefinitionRegistry,
    id: DeviceId,
    kind: PrimitiveElementKind,
) {
    let definition_id = DefinitionId::from(kind);

    let definition = definitions.get(definition_id).unwrap();

    let model_insert = network
        .prepare_add_device(definitions, id, definition_id)
        .unwrap();

    let topology_insert = topology.prepare_add_device(definition, &model_insert);

    let insert = network.commit_add_device(definitions, model_insert);

    topology.commit_add_device(id, definition, topology_insert, insert);
}

fn remove_device(
    definitions: &DefinitionRegistry,
    network: &mut Network,
    topology: &mut DerivedTopology,
    scratch: &mut TraversalScratch,
    device: DeviceId,
) -> Vec<NetId> {
    let affected_nets = topology.device_nets(network, device);
    let prepared = topology.prepare_device_removal(definitions, network, device);
    assert!(topology.has_room_left_without(definitions, network, device, &prepared));

    let removal = network.remove_device(device).unwrap();

    topology.remove_device(definitions, network, scratch, device, prepared, removal);

    affected_nets
}

fn connect(
    definitions: &DefinitionRegistry,
    network: &mut Network,
    topology: &mut DerivedTopology,
    a: WireId,
    b: WireId,
) {
    assert!(topology.has_revisions_left());
    network.connect_wires(a, b).unwrap();
    topology.connect_wires(definitions, network, a, b);
}

fn disconnect(
    definitions: &DefinitionRegistry,
    network: &mut Network,
    topology: &mut DerivedTopology,
    scratch: &mut TraversalScratch,
    a: WireId,
    b: WireId,
) {
    assert!(topology.has_room_left());
    network.disconnect_wires(a, b).unwrap();
    topology.disconnect_wires(definitions, network, scratch, a, b);
}

fn attach(
    definitions: &DefinitionRegistry,
    network: &mut Network,
    topology: &mut DerivedTopology,
    wire: WireId,
    device: DeviceId,
    terminal: u32,
) {
    let terminal = TerminalId::new(terminal);

    assert!(topology.has_revisions_left());
    network.attach_terminal(wire, device, terminal).unwrap();

    topology.attach_terminal(definitions, network, wire, device, terminal);
}

fn detach(
    definitions: &DefinitionRegistry,
    network: &mut Network,
    topology: &mut DerivedTopology,
    scratch: &mut TraversalScratch,
    wire: WireId,
    device: DeviceId,
    terminal: u32,
) {
    let terminal_id = TerminalId::new(terminal);

    network
        .detach_terminal(wire, device, TerminalId::new(terminal))
        .unwrap();

    topology.detach_terminal(definitions, network, scratch, wire, device, terminal_id);
}

fn remove_wire(
    definitions: &DefinitionRegistry,
    network: &mut Network,
    topology: &mut DerivedTopology,
    scratch: &mut TraversalScratch,
    wire: WireId,
) {
    assert!(topology.has_room_left());
    network.remove_wire(wire).unwrap();
    topology.remove_wire(definitions, network, scratch, wire);
}

fn device_component(device: DeviceId, partition: u16) -> DeviceComponent {
    DeviceComponent::new(device, TerminalPartitionId::new(partition))
}

fn device_island(topology: &DerivedTopology, network: &Network, device: DeviceId) -> IslandId {
    topology.component_island(
        &DefinitionRegistry::new(),
        network,
        device_component(device, 0),
    )
}

fn device_id(index: usize) -> DeviceId {
    device(u32::try_from(index + 1).unwrap())
}

fn net_count(topology: &DerivedTopology) -> usize {
    (1..=2048)
        .filter(|&raw| topology.net(NetId::try_from(raw).unwrap()).is_some())
        .count()
}

/// Nets and islands are the same sets of wires and components as in a topology that is derived anew.
fn assert_matches_rebuilt(
    topology: &DerivedTopology,
    definitions: &DefinitionRegistry,
    network: &Network,
) {
    let rebuilt = DerivedTopology::from_network(network, definitions);
    let wires: Vec<WireId> = (1..=network.wire_count() as u32)
        .filter(|&raw| network.has_wire(raw))
        .map(wire)
        .collect();
    let mut components = Vec::new();
    for id in network.iter_device_ids() {
        let definition_id = network.device_definition_id(id).unwrap();
        let count = definitions.get(definition_id).unwrap().partition_count();
        for partition in 0..count as u16 {
            components.push(device_component(id, partition));
        }
    }
    for &a in &wires {
        for &b in &wires {
            assert_eq!(
                topology.wire_net(a) == topology.wire_net(b),
                rebuilt.wire_net(a) == rebuilt.wire_net(b),
            );
        }
    }
    for &a in &components {
        let ours = topology.component_island(definitions, network, a);
        let theirs = rebuilt.component_island(definitions, network, a);
        for &b in &components {
            assert_eq!(
                ours == topology.component_island(definitions, network, b),
                theirs == rebuilt.component_island(definitions, network, b),
            );
        }
        for &w in &wires {
            assert_eq!(
                topology.net_island(topology.wire_net(w)) == Some(ours),
                rebuilt.net_island(rebuilt.wire_net(w)) == Some(theirs),
            );
        }
    }
    assert_eq!(net_count(topology), net_count(&rebuilt));
    assert_eq!(topology.islands().len(), rebuilt.islands().len());
}

#[test]
fn dense_relocation_does_not_change_unrelated_net_id() {
    let definitions = DefinitionRegistry::new();
    let mut network = Network::new();
    let mut topology = DerivedTopology::new();

    let a = wire(1);
    let b = wire(2);
    let c = wire(3);

    add_wire(&mut network, &mut topology, a);
    add_wire(&mut network, &mut topology, b);
    add_wire(&mut network, &mut topology, c);

    let c_id = topology.wire_net(c);

    connect(&definitions, &mut network, &mut topology, a, b);

    assert_eq!(topology.wire_net(c), c_id);
    assert!(topology.net(c_id).is_some());
}

#[test]
fn connecting_islandless_wires_merges_only_their_nets() {
    let definitions = DefinitionRegistry::new();
    let mut network = Network::new();
    let mut topology = DerivedTopology::new();

    let a = wire(1);
    let b = wire(2);

    add_wire(&mut network, &mut topology, a);
    add_wire(&mut network, &mut topology, b);

    connect(&definitions, &mut network, &mut topology, a, b);

    assert_eq!(topology.wire_net(a), topology.wire_net(b));
    assert_eq!(net_count(&topology), 1);
    assert_eq!(topology.islands().len(), 0);
}

#[test]
fn attaching_terminal_adds_net_to_devices_island() {
    let definitions = DefinitionRegistry::new();
    let mut network = Network::new();
    let mut topology = DerivedTopology::new();

    let w = wire(1);
    let d = device(1);

    add_wire(&mut network, &mut topology, w);

    add_device(
        &mut network,
        &mut topology,
        &definitions,
        d,
        PrimitiveElementKind::Conductance,
    );

    attach(&definitions, &mut network, &mut topology, w, d, 0);

    let net = topology.wire_net(w);
    let island = device_island(&topology, &network, d);

    assert_eq!(topology.net_island(net), Some(island));
}

#[test]
fn connecting_two_device_backed_nets_merges_nets_and_islands() {
    let definitions = DefinitionRegistry::new();
    let mut network = Network::new();
    let mut topology = DerivedTopology::new();

    let a = wire(1);
    let b = wire(2);
    let da = device(1);
    let db = device(2);

    add_wire(&mut network, &mut topology, a);
    add_wire(&mut network, &mut topology, b);

    add_device(
        &mut network,
        &mut topology,
        &definitions,
        da,
        PrimitiveElementKind::Conductance,
    );

    add_device(
        &mut network,
        &mut topology,
        &definitions,
        db,
        PrimitiveElementKind::Conductance,
    );

    attach(&definitions, &mut network, &mut topology, a, da, 0);

    attach(&definitions, &mut network, &mut topology, b, db, 0);

    connect(&definitions, &mut network, &mut topology, a, b);

    assert_eq!(topology.wire_net(a), topology.wire_net(b));
    assert_eq!(net_count(&topology), 1);
    assert_eq!(topology.islands().len(), 1);
}

#[test]
fn redundant_wire_edge_deletion_does_not_split_net() {
    let definitions = DefinitionRegistry::new();
    let mut network = Network::new();
    let mut topology = DerivedTopology::new();
    let mut scratch = TraversalScratch::new();

    let a = wire(1);
    let b = wire(2);
    let c = wire(3);

    for id in [a, b, c] {
        add_wire(&mut network, &mut topology, id);
    }

    connect(&definitions, &mut network, &mut topology, a, b);
    connect(&definitions, &mut network, &mut topology, b, c);
    connect(&definitions, &mut network, &mut topology, a, c);

    let old = topology.wire_net(a);

    disconnect(
        &definitions,
        &mut network,
        &mut topology,
        &mut scratch,
        a,
        c,
    );

    assert_eq!(net_count(&topology), 1);
    assert_eq!(topology.wire_net(a), old);
    assert_eq!(topology.wire_net(b), old);
    assert_eq!(topology.wire_net(c), old);
}

#[test]
fn bridge_deletion_splits_net_and_keeps_old_id_on_larger_side() {
    let definitions = DefinitionRegistry::new();
    let mut network = Network::new();
    let mut topology = DerivedTopology::new();
    let mut scratch = TraversalScratch::new();

    let a = wire(1);
    let b = wire(2);
    let c = wire(3);

    for id in [a, b, c] {
        add_wire(&mut network, &mut topology, id);
    }

    connect(&definitions, &mut network, &mut topology, a, b);
    connect(&definitions, &mut network, &mut topology, b, c);

    let old = topology.wire_net(a);

    disconnect(
        &definitions,
        &mut network,
        &mut topology,
        &mut scratch,
        b,
        c,
    );

    assert_eq!(net_count(&topology), 2);
    assert_eq!(topology.wire_net(a), old);
    assert_eq!(topology.wire_net(b), old);
    assert_ne!(topology.wire_net(c), old);
}

#[test]
fn removing_articulation_wire_can_create_more_than_two_nets() {
    let definitions = DefinitionRegistry::new();
    let mut network = Network::new();
    let mut topology = DerivedTopology::new();
    let mut scratch = TraversalScratch::new();

    let center = wire(1);
    let branches = [wire(2), wire(3), wire(4)];

    add_wire(&mut network, &mut topology, center);

    for branch in branches {
        add_wire(&mut network, &mut topology, branch);
        connect(&definitions, &mut network, &mut topology, center, branch);
    }

    remove_wire(
        &definitions,
        &mut network,
        &mut topology,
        &mut scratch,
        center,
    );

    assert_eq!(net_count(&topology), 3);

    assert_ne!(
        topology.wire_net(branches[0]),
        topology.wire_net(branches[1])
    );

    assert_ne!(
        topology.wire_net(branches[1]),
        topology.wire_net(branches[2])
    );

    assert_ne!(
        topology.wire_net(branches[0]),
        topology.wire_net(branches[2])
    );
}

#[test]
fn net_can_split_while_island_stays_connected_through_device() {
    let definitions = DefinitionRegistry::new();
    let mut network = Network::new();
    let mut topology = DerivedTopology::new();
    let mut scratch = TraversalScratch::new();

    let a = wire(1);
    let b = wire(2);
    let bridge = device(1);

    add_wire(&mut network, &mut topology, a);
    add_wire(&mut network, &mut topology, b);

    connect(&definitions, &mut network, &mut topology, a, b);

    add_device(
        &mut network,
        &mut topology,
        &definitions,
        bridge,
        PrimitiveElementKind::Conductance,
    );

    attach(&definitions, &mut network, &mut topology, a, bridge, 0);
    attach(&definitions, &mut network, &mut topology, b, bridge, 1);

    let island = device_island(&topology, &network, bridge);

    disconnect(
        &definitions,
        &mut network,
        &mut topology,
        &mut scratch,
        a,
        b,
    );

    assert_ne!(topology.wire_net(a), topology.wire_net(b));

    assert_eq!(topology.net_island(topology.wire_net(a)), Some(island));

    assert_eq!(topology.net_island(topology.wire_net(b)), Some(island));

    assert_eq!(topology.islands().len(), 1);
}

#[test]
fn wire_disconnect_can_split_both_net_and_island() {
    let definitions = DefinitionRegistry::new();
    let mut network = Network::new();
    let mut topology = DerivedTopology::new();
    let mut scratch = TraversalScratch::new();

    let a = wire(1);
    let b = wire(2);
    let da = device(1);
    let db = device(2);

    add_wire(&mut network, &mut topology, a);
    add_wire(&mut network, &mut topology, b);

    add_device(
        &mut network,
        &mut topology,
        &definitions,
        da,
        PrimitiveElementKind::Conductance,
    );

    add_device(
        &mut network,
        &mut topology,
        &definitions,
        db,
        PrimitiveElementKind::Conductance,
    );

    attach(&definitions, &mut network, &mut topology, a, da, 0);

    attach(&definitions, &mut network, &mut topology, b, db, 0);

    connect(&definitions, &mut network, &mut topology, a, b);

    let old_island = device_island(&topology, &network, da);

    assert_eq!(old_island, device_island(&topology, &network, db));

    disconnect(
        &definitions,
        &mut network,
        &mut topology,
        &mut scratch,
        a,
        b,
    );

    assert_ne!(topology.wire_net(a), topology.wire_net(b));

    assert_ne!(
        device_island(&topology, &network, da),
        device_island(&topology, &network, db)
    );

    assert!(
        device_island(&topology, &network, da) == old_island
            || device_island(&topology, &network, db) == old_island
    );

    assert_eq!(topology.islands().len(), 2);
}

#[test]
fn detaching_bridge_terminal_repartitions_only_the_affected_island() {
    let definitions = DefinitionRegistry::new();
    let mut network = Network::new();
    let mut topology = DerivedTopology::new();
    let mut scratch = TraversalScratch::new();

    let a = wire(1);
    let b = wire(2);

    let left = device(1);
    let right = device(2);
    let bridge = device(3);

    add_wire(&mut network, &mut topology, a);
    add_wire(&mut network, &mut topology, b);

    for id in [left, right, bridge] {
        add_device(
            &mut network,
            &mut topology,
            &definitions,
            id,
            PrimitiveElementKind::Conductance,
        );
    }

    attach(&definitions, &mut network, &mut topology, a, left, 0);
    attach(&definitions, &mut network, &mut topology, b, right, 0);
    attach(&definitions, &mut network, &mut topology, a, bridge, 0);
    attach(&definitions, &mut network, &mut topology, b, bridge, 1);

    assert_eq!(topology.islands().len(), 1);

    detach(
        &definitions,
        &mut network,
        &mut topology,
        &mut scratch,
        b,
        bridge,
        1,
    );

    assert_eq!(topology.islands().len(), 2);

    assert_eq!(
        device_island(&topology, &network, left),
        device_island(&topology, &network, bridge)
    );

    assert_ne!(
        device_island(&topology, &network, left),
        device_island(&topology, &network, right)
    );
}

#[test]
fn removing_multi_terminal_bridge_device_can_create_many_islands() {
    let definitions = DefinitionRegistry::new();
    let mut network = Network::new();
    let mut topology = DerivedTopology::new();
    let mut scratch = TraversalScratch::new();

    let wires = [wire(1), wire(2), wire(3)];
    let leaves = [device(1), device(2), device(3)];
    let bridge = device(4);

    for id in wires {
        add_wire(&mut network, &mut topology, id);
    }

    for id in leaves {
        add_device(
            &mut network,
            &mut topology,
            &definitions,
            id,
            PrimitiveElementKind::Conductance,
        );
    }

    add_device(
        &mut network,
        &mut topology,
        &definitions,
        bridge,
        PrimitiveElementKind::VoltageControlledCurrentSource,
    );

    for (index, (&wire_id, &leaf)) in wires.iter().zip(leaves.iter()).enumerate() {
        attach(&definitions, &mut network, &mut topology, wire_id, leaf, 0);

        attach(
            &definitions,
            &mut network,
            &mut topology,
            wire_id,
            bridge,
            u32::try_from(index).unwrap(),
        );
    }

    assert_eq!(topology.islands().len(), 1);

    let old_island = device_island(&topology, &network, bridge);

    let affected_nets = remove_device(
        &definitions,
        &mut network,
        &mut topology,
        &mut scratch,
        bridge,
    );

    assert_eq!(affected_nets.len(), 3);

    for wire in wires {
        assert!(
            affected_nets.contains(&topology.wire_net(wire)),
            "every net formerly attached to the bridge must be captured"
        );
    }

    assert!(
        topology.island(old_island).is_some(),
        "the old IslandId should survive on one resulting component"
    );

    assert_eq!(topology.islands().len(), 3);

    assert_ne!(
        device_island(&topology, &network, leaves[0]),
        device_island(&topology, &network, leaves[1])
    );

    assert_ne!(
        device_island(&topology, &network, leaves[1]),
        device_island(&topology, &network, leaves[2])
    );

    assert_ne!(
        device_island(&topology, &network, leaves[0]),
        device_island(&topology, &network, leaves[2])
    );
}

#[test]
fn removing_only_device_makes_all_incident_nets_islandless() {
    let definitions = DefinitionRegistry::new();
    let mut network = Network::new();
    let mut topology = DerivedTopology::new();
    let mut scratch = TraversalScratch::new();

    let wires = [wire(1), wire(2), wire(3)];
    let bridge = device(1);

    for wire in wires {
        add_wire(&mut network, &mut topology, wire);
    }

    add_device(
        &mut network,
        &mut topology,
        &definitions,
        bridge,
        PrimitiveElementKind::VoltageControlledCurrentSource,
    );

    for (terminal, wire) in wires.into_iter().enumerate() {
        attach(
            &definitions,
            &mut network,
            &mut topology,
            wire,
            bridge,
            u32::try_from(terminal).unwrap(),
        );
    }

    let nets = wires.map(|wire| topology.wire_net(wire));
    let old_island = device_island(&topology, &network, bridge);

    assert_eq!(topology.islands().len(), 1);

    let affected_nets = remove_device(
        &definitions,
        &mut network,
        &mut topology,
        &mut scratch,
        bridge,
    );

    assert_eq!(affected_nets.len(), 3);
    assert_eq!(topology.islands().len(), 0);
    assert!(topology.island(old_island).is_none());

    for net_id in nets {
        assert!(topology.net(net_id).is_some());
        assert_eq!(topology.net_island(net_id), None);
    }
}
#[test]
fn row_relocation_preserves_survivor_island_and_revision() {
    let definitions = DefinitionRegistry::new();
    let mut network = Network::new();
    let mut topology = DerivedTopology::new();
    let mut scratch = TraversalScratch::new();

    for raw in 1..=3 {
        add_device(
            &mut network,
            &mut topology,
            &definitions,
            device_id(raw as usize - 1),
            PrimitiveElementKind::Conductance,
        );
    }

    let moved = device_id(2);
    let moved_component = DeviceComponent::new(moved, TerminalPartitionId::new(0));

    let island_before = topology.component_island(&definitions, &network, moved_component);

    let revision_before = topology.island(island_before).unwrap().revision();

    let removed = device_id(1);

    let prepared = topology.prepare_device_removal(&definitions, &network, removed);

    let removal = network.remove_device(removed).unwrap();

    assert_eq!(removal.moved_device(), Some(moved));

    topology.remove_device(
        &definitions,
        &network,
        &mut scratch,
        removed,
        prepared,
        removal,
    );

    assert_eq!(network.device_location(moved).unwrap().row(), 1);

    assert_eq!(
        topology.component_island(&definitions, &network, moved_component),
        island_before,
    );

    assert_eq!(
        topology.island(island_before).unwrap().revision(),
        revision_before,
    );

    assert_matches_rebuilt(&topology, &definitions, &network);
}

#[test]
fn chunk_relocation_preserves_unrelated_islands_and_revisions() {
    let definitions = DefinitionRegistry::new();
    let mut network = Network::new();
    let mut topology = DerivedTopology::new();
    let mut scratch = TraversalScratch::new();

    let first_device = device_id(0);

    add_device(
        &mut network,
        &mut topology,
        &definitions,
        first_device,
        PrimitiveElementKind::VoltageSource,
    );

    let moved_devices = [device_id(1), device_id(2), device_id(3)];

    for &device in &moved_devices {
        add_device(
            &mut network,
            &mut topology,
            &definitions,
            device,
            PrimitiveElementKind::Conductance,
        );
    }

    let before = moved_devices.map(|device| {
        let component = DeviceComponent::new(device, TerminalPartitionId::new(0));

        let island = topology.component_island(&definitions, &network, component);

        let revision = topology.island(island).unwrap().revision();

        (device, component, island, revision)
    });

    let prepared = topology.prepare_device_removal(&definitions, &network, first_device);

    let removal = network.remove_device(first_device).unwrap();

    assert!(removal.chunk_relocation().is_some());

    topology.remove_device(
        &definitions,
        &network,
        &mut scratch,
        first_device,
        prepared,
        removal,
    );

    for (row, (device, component, island, revision)) in before.into_iter().enumerate() {
        let location = network.device_location(device).unwrap();

        assert_eq!(location.chunk_index(), 0);
        assert_eq!(location.row() as usize, row);

        assert_eq!(topology.component_island(&definitions, &network, component), island,);

        assert_eq!(topology.island(island).unwrap().revision(), revision,);
    }

    assert_matches_rebuilt(&topology, &definitions, &network);
}

#[test]
fn detaching_last_terminal_makes_net_islandless() {
    let definitions = DefinitionRegistry::new();
    let mut network = Network::new();
    let mut topology = DerivedTopology::new();
    let mut scratch = TraversalScratch::new();

    let w = wire(1);
    let d = device(1);

    add_wire(&mut network, &mut topology, w);

    add_device(
        &mut network,
        &mut topology,
        &definitions,
        d,
        PrimitiveElementKind::Conductance,
    );

    attach(&definitions, &mut network, &mut topology, w, d, 0);

    let net_id = topology.wire_net(w);
    let island_id = device_island(&topology, &network, d);

    assert_eq!(topology.net_island(net_id), Some(island_id));

    detach(
        &definitions,
        &mut network,
        &mut topology,
        &mut scratch,
        w,
        d,
        0,
    );

    assert_eq!(device_island(&topology, &network, d), island_id);

    assert_eq!(topology.islands().len(), 1);

    assert!(topology.net(net_id).is_some());
    assert_eq!(topology.net_island(net_id), None);
}

#[test]
fn removing_last_wire_retires_net_and_clears_island_membership() {
    let definitions = DefinitionRegistry::new();
    let mut network = Network::new();
    let mut topology = DerivedTopology::new();
    let mut scratch = TraversalScratch::new();

    let w = wire(1);
    let d = device(1);

    add_wire(&mut network, &mut topology, w);

    add_device(
        &mut network,
        &mut topology,
        &definitions,
        d,
        PrimitiveElementKind::Conductance,
    );

    attach(&definitions, &mut network, &mut topology, w, d, 0);

    let net_id = topology.wire_net(w);
    let island_id = device_island(&topology, &network, d);

    remove_wire(&definitions, &mut network, &mut topology, &mut scratch, w);

    assert!(topology.net(net_id).is_none());

    assert_matches_rebuilt(&topology, &definitions, &network);

    assert_eq!(device_island(&topology, &network, d), island_id);

    assert_eq!(topology.islands().len(), 1);
}

#[test]
fn merging_two_nets_inside_same_island_bumps_revision() {
    let definitions = DefinitionRegistry::new();
    let mut network = Network::new();
    let mut topology = DerivedTopology::new();

    let a = wire(1);
    let b = wire(2);
    let d = device(1);

    add_wire(&mut network, &mut topology, a);
    add_wire(&mut network, &mut topology, b);

    add_device(
        &mut network,
        &mut topology,
        &definitions,
        d,
        PrimitiveElementKind::Conductance,
    );

    attach(&definitions, &mut network, &mut topology, a, d, 0);
    attach(&definitions, &mut network, &mut topology, b, d, 1);

    assert_ne!(topology.wire_net(a), topology.wire_net(b));

    let island_id = device_island(&topology, &network, d);

    let old_revision = topology.island(island_id).unwrap().revision();

    connect(&definitions, &mut network, &mut topology, a, b);

    assert_eq!(topology.wire_net(a), topology.wire_net(b));

    assert_eq!(topology.net_island(topology.wire_net(a)), Some(island_id));

    assert_eq!(
        topology.island(island_id).unwrap().revision(),
        old_revision + 1,
        "merging electrical nets changes the island IR topology"
    );
}

#[test]
fn island_split_keeps_old_id_on_component_with_larger_rewrite_cost() {
    let definitions = DefinitionRegistry::new();
    let mut network = Network::new();
    let mut topology = DerivedTopology::new();
    let mut scratch = TraversalScratch::new();

    let a = wire(1);
    let b = wire(2);

    let left_a = device(1);
    let left_b = device(2);
    let right = device(3);

    add_wire(&mut network, &mut topology, a);
    add_wire(&mut network, &mut topology, b);

    connect(&definitions, &mut network, &mut topology, a, b);

    for device in [left_a, left_b, right] {
        add_device(
            &mut network,
            &mut topology,
            &definitions,
            device,
            PrimitiveElementKind::Conductance,
        );
    }

    attach(&definitions, &mut network, &mut topology, a, left_a, 0);
    attach(&definitions, &mut network, &mut topology, a, left_b, 0);
    attach(&definitions, &mut network, &mut topology, b, right, 0);

    let old_island = device_island(&topology, &network, left_a);

    assert_eq!(device_island(&topology, &network, left_b), old_island);

    assert_eq!(device_island(&topology, &network, right), old_island);

    disconnect(
        &definitions,
        &mut network,
        &mut topology,
        &mut scratch,
        a,
        b,
    );

    assert_eq!(device_island(&topology, &network, left_a), old_island);

    assert_eq!(device_island(&topology, &network, left_b), old_island);

    assert_ne!(device_island(&topology, &network, right), old_island);
}

#[test]
fn topology_can_rebuild_multi_net_island_from_existing_network() {
    let definitions = DefinitionRegistry::new();
    let mut network = Network::new();

    let wires = [wire(1), wire(2), wire(3)];
    let leaves = [device(1), device(2), device(3)];
    let bridge = device(4);

    for wire in wires {
        network.add_wire(wire).unwrap();
    }

    for device in leaves {
        network
            .add_device(
                &definitions,
                device,
                DefinitionId::from(PrimitiveElementKind::Conductance),
            )
            .unwrap();
    }

    network
        .add_device(
            &definitions,
            bridge,
            DefinitionId::from(PrimitiveElementKind::VoltageControlledCurrentSource),
        )
        .unwrap();

    for (terminal, (&wire, &leaf)) in wires.iter().zip(leaves.iter()).enumerate() {
        network
            .attach_terminal(wire, leaf, TerminalId::new(0))
            .unwrap();

        network
            .attach_terminal(
                wire,
                bridge,
                TerminalId::new(u32::try_from(terminal).unwrap()),
            )
            .unwrap();
    }

    let topology = DerivedTopology::from_network(&network, &definitions);

    assert_matches_rebuilt(&topology, &definitions, &network);

    assert_eq!(net_count(&topology), 3);
    assert_eq!(topology.islands().len(), 1);

    let island = device_island(&topology, &network, bridge);

    for leaf in leaves {
        assert_eq!(device_island(&topology, &network, leaf), island);
    }

    for wire in wires {
        assert_eq!(topology.net_island(topology.wire_net(wire)), Some(island));
    }
}

#[test]
fn net_terminal_incidence_preserves_device_multiplicity() {
    let definitions = DefinitionRegistry::new();
    let mut network = Network::new();
    let mut topology = DerivedTopology::new();
    let mut scratch = TraversalScratch::new();

    let w = wire(1);
    let d = device(1);

    add_wire(&mut network, &mut topology, w);

    add_device(
        &mut network,
        &mut topology,
        &definitions,
        d,
        PrimitiveElementKind::Conductance,
    );

    attach(&definitions, &mut network, &mut topology, w, d, 0);
    attach(&definitions, &mut network, &mut topology, w, d, 1);

    let net_id = topology.wire_net(w);

    assert_eq!(
        topology
            .net(net_id)
            .unwrap()
            .terminal_components()
            .iter()
            .filter(|component| component.device() == d)
            .count(),
        2
    );

    detach(
        &definitions,
        &mut network,
        &mut topology,
        &mut scratch,
        w,
        d,
        0,
    );

    assert_eq!(
        topology
            .net(net_id)
            .unwrap()
            .terminal_components()
            .iter()
            .filter(|component| component.device() == d)
            .count(),
        1
    );

    assert_eq!(
        topology.net_island(net_id),
        Some(device_island(&topology, &network, d))
    );
}

#[test]
fn island_merge_records_dirty_survivor_and_retired_source() {
    let definitions = DefinitionRegistry::new();
    let mut network = Network::new();
    let mut topology = DerivedTopology::new();

    let a = wire(1);
    let b = wire(2);
    let da = device(1);
    let db = device(2);

    add_wire(&mut network, &mut topology, a);
    add_wire(&mut network, &mut topology, b);

    add_device(
        &mut network,
        &mut topology,
        &definitions,
        da,
        PrimitiveElementKind::Conductance,
    );
    add_device(
        &mut network,
        &mut topology,
        &definitions,
        db,
        PrimitiveElementKind::Conductance,
    );

    attach(&definitions, &mut network, &mut topology, a, da, 0);

    attach(&definitions, &mut network, &mut topology, b, db, 0);

    let old_a = device_island(&topology, &network, da);
    let old_b = device_island(&topology, &network, db);

    topology.clear_invalidation();

    connect(&definitions, &mut network, &mut topology, a, b);

    let survivor = device_island(&topology, &network, da);
    assert_eq!(survivor, device_island(&topology, &network, db));

    let retired = if survivor == old_a { old_b } else { old_a };

    assert_eq!(
        topology.invalidation().topology_dirty_islands(),
        &[survivor]
    );
    assert_eq!(topology.invalidation().retired_islands(), &[retired]);
    assert!(topology.invalidation().numerical_dirty_islands().is_empty());
}

#[test]
fn terminal_component_uses_definition_partition_layout() {
    let definitions = DefinitionRegistry::new();
    let mut network = Network::new();

    let delay = device(1);

    network
        .add_device(&definitions, delay, DefinitionId::from(PrimitiveElementKind::TickDelay))
        .unwrap();

    for (terminal, partition) in [(0, 0), (1, 0), (2, 1), (3, 1)] {
        let component =
            terminal_component(&definitions, &network, delay, TerminalId::new(terminal));

        assert_eq!(component.device(), delay);
        assert_eq!(component.partition(), TerminalPartitionId::new(partition),);
    }
}

#[test]
fn multi_partition_device_starts_with_one_island_per_component() {
    let definitions = DefinitionRegistry::new();
    let mut network = Network::new();
    let mut topology = DerivedTopology::new();

    let delay = device(1);

    add_device(
        &mut network,
        &mut topology,
        &definitions,
        delay,
        PrimitiveElementKind::TickDelay,
    );

    let input = DeviceComponent::new(delay, TerminalPartitionId::new(0));
    let output = DeviceComponent::new(delay, TerminalPartitionId::new(1));

    assert_ne!(
        topology.component_island(&definitions, &network, input),
        topology.component_island(&definitions, &network, output),
    );

    assert_eq!(topology.islands().len(), 2);
}

#[test]
fn marking_device_binding_dirty_marks_all_component_islands_without_changing_revisions() {
    let definitions = DefinitionRegistry::new();
    let mut network = Network::new();
    let mut topology = DerivedTopology::new();

    let delay = device(1);

    add_device(
        &mut network,
        &mut topology,
        &definitions,
        delay,
        PrimitiveElementKind::TickDelay,
    );

    let input = DeviceComponent::new(delay, TerminalPartitionId::new(0));
    let output = DeviceComponent::new(delay, TerminalPartitionId::new(1));

    let input_island = topology.component_island(&definitions, &network, input);
    let output_island = topology.component_island(&definitions, &network, output);

    assert_ne!(input_island, output_island);

    let input_revision = topology.island(input_island).unwrap().revision();
    let output_revision = topology.island(output_island).unwrap().revision();

    topology.clear_invalidation();
    topology.mark_device_binding_dirty(&definitions, &network, delay);

    let invalidation = topology.invalidation();

    assert!(invalidation.topology_dirty_islands().is_empty());
    assert!(invalidation.numerical_dirty_islands().is_empty());
    assert!(invalidation.retired_islands().is_empty());

    let binding_dirty = invalidation.binding_dirty_islands();

    assert_eq!(binding_dirty.len(), 2);
    assert!(binding_dirty.contains(&input_island));
    assert!(binding_dirty.contains(&output_island));

    assert_eq!(
        topology.island(input_island).unwrap().revision(),
        input_revision,
    );
    assert_eq!(
        topology.island(output_island).unwrap().revision(),
        output_revision,
    );
}

#[test]
fn topology_dirty_supersedes_binding_and_numerical_dirty() {
    let island = IslandId::try_from(1).unwrap();
    let mut invalidation = WorldInvalidation::new();

    invalidation.mark_binding_dirty(island);
    invalidation.mark_numerical_dirty(island);

    assert_eq!(invalidation.binding_dirty_islands(), &[island]);
    assert_eq!(invalidation.numerical_dirty_islands(), &[island]);

    invalidation.mark_topology_dirty(island);

    assert_eq!(invalidation.topology_dirty_islands(), &[island]);
    assert!(invalidation.binding_dirty_islands().is_empty());
    assert!(invalidation.numerical_dirty_islands().is_empty());
    assert!(invalidation.retired_islands().is_empty());

    invalidation.mark_binding_dirty(island);
    invalidation.mark_numerical_dirty(island);

    assert!(invalidation.binding_dirty_islands().is_empty());
    assert!(invalidation.numerical_dirty_islands().is_empty());
}

#[test]
fn retiring_island_clears_binding_dirty() {
    let island = IslandId::try_from(1).unwrap();
    let mut invalidation = WorldInvalidation::new();

    invalidation.mark_binding_dirty(island);

    assert_eq!(invalidation.binding_dirty_islands(), &[island]);

    invalidation.mark_retired(island);

    assert!(invalidation.topology_dirty_islands().is_empty());
    assert!(invalidation.numerical_dirty_islands().is_empty());
    assert!(invalidation.binding_dirty_islands().is_empty());
    assert_eq!(invalidation.retired_islands(), &[island]);

    invalidation.mark_binding_dirty(island);
    invalidation.mark_numerical_dirty(island);
    invalidation.mark_topology_dirty(island);

    assert!(invalidation.binding_dirty_islands().is_empty());
    assert!(invalidation.numerical_dirty_islands().is_empty());
    assert!(invalidation.topology_dirty_islands().is_empty());
    assert_eq!(invalidation.retired_islands(), &[island]);
}

#[test]
fn tick_delay_terminals_attach_to_their_component_islands() {
    let definitions = DefinitionRegistry::new();
    let mut network = Network::new();
    let mut topology = DerivedTopology::new();

    let input_wire = wire(1);
    let output_wire = wire(2);
    let delay = device(1);

    add_wire(&mut network, &mut topology, input_wire);
    add_wire(&mut network, &mut topology, output_wire);

    add_device(
        &mut network,
        &mut topology,
        &definitions,
        delay,
        PrimitiveElementKind::TickDelay,
    );

    let input_component = DeviceComponent::new(delay, TerminalPartitionId::new(0));

    let output_component = DeviceComponent::new(delay, TerminalPartitionId::new(1));

    let input_island = topology.component_island(&definitions, &network, input_component);
    let output_island = topology.component_island(&definitions, &network, output_component);

    assert_ne!(input_island, output_island);

    network
        .attach_terminal(input_wire, delay, TerminalId::new(0))
        .unwrap();

    topology.attach_terminal(
        &definitions,
        &network,
        input_wire,
        delay,
        TerminalId::new(0),
    );

    network
        .attach_terminal(output_wire, delay, TerminalId::new(2))
        .unwrap();

    topology.attach_terminal(
        &definitions,
        &network,
        output_wire,
        delay,
        TerminalId::new(2),
    );

    assert_eq!(
        topology.net_island(topology.wire_net(input_wire)),
        Some(input_island),
    );

    assert_eq!(
        topology.net_island(topology.wire_net(output_wire)),
        Some(output_island),
    );

    assert_ne!(
        topology.net_island(topology.wire_net(input_wire)),
        topology.net_island(topology.wire_net(output_wire)),
    );
}

#[test]
fn multi_partition_device_islands_store_exact_components() {
    let definitions = DefinitionRegistry::new();
    let mut network = Network::new();
    let mut topology = DerivedTopology::new();

    let delay = device(1);

    add_device(
        &mut network,
        &mut topology,
        &definitions,
        delay,
        PrimitiveElementKind::TickDelay,
    );

    let input = DeviceComponent::new(delay, TerminalPartitionId::new(0));
    let output = DeviceComponent::new(delay, TerminalPartitionId::new(1));

    let input_island = topology.component_island(&definitions, &network, input);
    let output_island = topology.component_island(&definitions, &network, output);

    assert_eq!(
        topology.island(input_island).unwrap().components(),
        &[input],
    );

    assert_eq!(
        topology.island(output_island).unwrap().components(),
        &[output],
    );
}

#[test]
fn net_terminal_incidence_preserves_device_partition() {
    let definitions = DefinitionRegistry::new();
    let mut network = Network::new();
    let mut topology = DerivedTopology::new();

    let input_wire = wire(1);
    let output_wire = wire(2);
    let delay = device(1);

    add_wire(&mut network, &mut topology, input_wire);
    add_wire(&mut network, &mut topology, output_wire);

    add_device(
        &mut network,
        &mut topology,
        &definitions,
        delay,
        PrimitiveElementKind::TickDelay,
    );

    attach(
        &definitions,
        &mut network,
        &mut topology,
        input_wire,
        delay,
        0,
    );

    attach(
        &definitions,
        &mut network,
        &mut topology,
        output_wire,
        delay,
        2,
    );

    let input_component = DeviceComponent::new(delay, TerminalPartitionId::new(0));

    let output_component = DeviceComponent::new(delay, TerminalPartitionId::new(1));

    let input_net = topology.net(topology.wire_net(input_wire)).unwrap();

    let output_net = topology.net(topology.wire_net(output_wire)).unwrap();

    assert_eq!(input_net.terminal_components(), &[input_component],);

    assert_eq!(output_net.terminal_components(), &[output_component],);
}

#[test]
fn topology_rebuild_uses_live_device_iteration_across_removed_id_holes() {
    let definitions = DefinitionRegistry::new();
    let mut network = Network::new();

    let removed = device(1);
    let live = device(2);

    network
        .add_device(
            &definitions,
            removed,
            DefinitionId::from(PrimitiveElementKind::Conductance),
        )
        .unwrap();

    network
        .add_device(&definitions, live, DefinitionId::from(PrimitiveElementKind::Conductance))
        .unwrap();

    network.remove_device(removed).unwrap();

    let topology = DerivedTopology::from_network(&network, &definitions);

    let component = DeviceComponent::new(live, TerminalPartitionId::new(0));

    assert!(
        topology
            .island(topology.component_island(&definitions, &network, component))
            .is_some()
    );
}

#[test]
fn incremental_changes_agree_with_deriving_anew() {
    let definitions = DefinitionRegistry::new();
    let mut network = Network::new();
    let mut topology = DerivedTopology::new();
    let mut scratch = TraversalScratch::new();
    let kinds = [
        PrimitiveElementKind::Conductance,
        PrimitiveElementKind::TickDelay,
        PrimitiveElementKind::VoltageControlledCurrentSource,
    ];
    let mut seed = 17_u32;
    let mut next = |bound: u32| {
        seed = seed.wrapping_mul(1_664_525).wrapping_add(1_013_904_223);
        (seed >> 16) % bound
    };
    for raw in 1..=6 {
        add_wire(&mut network, &mut topology, wire(raw));
        add_device(
            &mut network,
            &mut topology,
            &definitions,
            device(raw),
            kinds[raw as usize % 3],
        );
    }
    for step in 0..400 {
        let a = wire(next(6) + 1);
        let b = wire(next(6) + 1);
        let d = device(next(6) + 1);
        let terminal = TerminalId::new(next(4));
        match next(8) {
            0 | 1 => {
                if network.connect_wires(a, b).is_ok() {
                    topology.connect_wires(&definitions, &network, a, b);
                }
            }
            2 => {
                if network.disconnect_wires(a, b).is_ok() {
                    topology.disconnect_wires(&definitions, &network, &mut scratch, a, b);
                }
            }
            3 | 4 => {
                if network.attach_terminal(a, d, terminal).is_ok() {
                    topology.attach_terminal(&definitions, &network, a, d, terminal);
                }
            }
            5 => {
                if network.detach_terminal(a, d, terminal).is_ok() {
                    topology.detach_terminal(&definitions, &network, &mut scratch, a, d, terminal);
                }
            }
            6 => {
                if network.remove_wire(a).is_ok() {
                    topology.remove_wire(&definitions, &network, &mut scratch, a);
                }
                if network.add_wire(b).is_ok() {
                    topology.add_wire(b);
                }
            }
            _ => {
                if network.device(d).is_ok() {
                    remove_device(
                        &definitions,
                        &mut network,
                        &mut topology,
                        &mut scratch,
                        d,
                    );
                } else {
                    add_device(
                        &mut network,
                        &mut topology,
                        &definitions,
                        d,
                        kinds[step % 3],
                    );
                }
            }
        }
        assert_matches_rebuilt(&topology, &definitions, &network);
    }
}

#[test]
fn parameter_changes_mark_every_island_of_a_device() {
    let definitions = DefinitionRegistry::new();
    let mut network = Network::new();
    let mut topology = DerivedTopology::new();
    let delay = device(1);
    add_device(
        &mut network,
        &mut topology,
        &definitions,
        delay,
        PrimitiveElementKind::TickDelay,
    );
    topology.clear_invalidation();

    topology.mark_device_numerical_dirty(&definitions, &network, delay);

    assert_eq!(topology.invalidation().numerical_dirty_islands().len(), 2);
    assert!(topology.invalidation().topology_dirty_islands().is_empty());
    assert!(topology.invalidation().binding_dirty_islands().is_empty());
}

#[test]
fn nets_list_their_wires() {
    let definitions = DefinitionRegistry::new();
    let mut network = Network::new();
    let mut topology = DerivedTopology::new();
    for raw in 1..=6 {
        add_wire(&mut network, &mut topology, wire(raw));
    }
    for raw in 2..=6 {
        connect(&definitions, &mut network, &mut topology, wire(1), wire(raw));
    }

    let net = topology.net(topology.wire_net(wire(1))).unwrap();
    let mut wires = net.wires().to_vec();
    wires.sort_unstable();
    assert_eq!(wires, vec![1, 2, 3, 4, 5, 6]);
    assert!(net.wires().contains(4));
    assert!(!net.wires().contains(7));
    assert!(net.terminal_components().is_empty());
}

#[test]
fn rebuilt_islands_are_revised_once_for_each_attached_terminal_or_join() {
    let definitions = DefinitionRegistry::new();
    let mut network = Network::new();
    network.add_wire(wire(1)).unwrap();
    for raw in 1..=3 {
        network
            .add_device(
                &definitions,
                device(raw),
                DefinitionId::from(PrimitiveElementKind::Conductance),
            )
            .unwrap();
    }
    network
        .attach_terminal(wire(1), device(1), TerminalId::new(0))
        .unwrap();
    network
        .attach_terminal(wire(1), device(2), TerminalId::new(0))
        .unwrap();
    network
        .attach_terminal(wire(1), device(2), TerminalId::new(1))
        .unwrap();

    let topology = DerivedTopology::from_network(&network, &definitions);

    let joined = device_island(&topology, &network, device(1));
    assert_eq!(device_island(&topology, &network, device(2)), joined);
    assert_eq!(topology.island(joined).unwrap().revision(), 3);
    let alone = device_island(&topology, &network, device(3));
    assert_eq!(topology.island(alone).unwrap().revision(), 0);
}

#[test]
fn joins_need_a_revision_for_every_island() {
    let topology = DerivedTopology::from_network(&Network::new(), &DefinitionRegistry::new());

    assert!(topology.has_revisions_left());
    assert!(topology.has_room_for_wire());
    assert!(topology.has_room_for_device(&PrimitiveElementKind::TickDelay.definition()));
}

fn numbers(islands: Vec<IslandId>) -> Vec<u32> {
    islands.into_iter().map(|island| island.get()).collect()
}

#[test]
fn rebuilding_numbers_nets_and_islands_in_order() {
    let definitions = DefinitionRegistry::new();
    let mut network = Network::new();
    for raw in 1..=5 {
        network.add_wire(wire(raw)).unwrap();
    }
    network.remove_wire(wire(3)).unwrap();
    network.connect_wires(wire(4), wire(2)).unwrap();
    for raw in 1..=4 {
        network
            .add_device(
                &definitions,
                device(raw),
                DefinitionId::from(PrimitiveElementKind::Conductance),
            )
            .unwrap();
    }
    for (wire_raw, device_raw, terminal) in [(2, 1, 0), (1, 2, 0), (1, 3, 0), (2, 3, 1)] {
        network
            .attach_terminal(wire(wire_raw), device(device_raw), TerminalId::new(terminal))
            .unwrap();
    }

    let topology = DerivedTopology::from_network(&network, &definitions);

    let nets: Vec<u32> = [1, 2, 4, 5]
        .into_iter()
        .map(|raw| topology.wire_net(wire(raw)).get())
        .collect();
    assert_eq!(nets, vec![1, 2, 2, 4]);
    for raw in 1..=3 {
        assert_eq!(device_island(&topology, &network, device(raw)).get(), 2);
    }
    assert_eq!(device_island(&topology, &network, device(4)).get(), 4);
    assert_eq!(numbers(topology.islands()), vec![4, 2]);
    let marks = topology.invalidation();
    assert_eq!(numbers(marks.topology_dirty_islands()), vec![4, 2]);
    assert!(marks.numerical_dirty_islands().is_empty());
    assert!(marks.binding_dirty_islands().is_empty());
    assert!(marks.retired_islands().is_empty());
}

#[test]
fn marks_are_listed_in_the_order_in_which_they_are_made() {
    let definitions = DefinitionRegistry::new();
    let mut network = Network::new();
    let mut topology = DerivedTopology::new();
    let mut scratch = TraversalScratch::new();
    add_wire(&mut network, &mut topology, wire(1));
    for raw in 1..=3 {
        add_device(
            &mut network,
            &mut topology,
            &definitions,
            device(raw),
            PrimitiveElementKind::Conductance,
        );
    }
    assert_eq!(
        numbers(topology.invalidation().topology_dirty_islands()),
        vec![1, 2, 3]
    );

    topology.clear_invalidation();
    attach(&definitions, &mut network, &mut topology, wire(1), device(3), 0);
    attach(&definitions, &mut network, &mut topology, wire(1), device(2), 0);
    attach(&definitions, &mut network, &mut topology, wire(1), device(1), 0);
    let marks = topology.invalidation();
    assert_eq!(numbers(marks.topology_dirty_islands()), vec![3]);
    assert_eq!(numbers(marks.retired_islands()), vec![2, 1]);

    topology.clear_invalidation();
    detach(
        &definitions,
        &mut network,
        &mut topology,
        &mut scratch,
        wire(1),
        device(2),
        0,
    );
    assert_eq!(
        numbers(topology.invalidation().topology_dirty_islands()),
        vec![3, 4]
    );
    assert_eq!(device_island(&topology, &network, device(2)).get(), 4);
    assert_eq!(numbers(topology.islands()), vec![3, 4]);
}

#[test]
fn removal_splits_each_island_of_a_device_on_its_own() {
    let definitions = DefinitionRegistry::new();
    let mut network = Network::new();
    let mut topology = DerivedTopology::new();
    let mut scratch = TraversalScratch::new();
    for raw in 1..=3 {
        add_wire(&mut network, &mut topology, wire(raw));
    }
    add_device(
        &mut network,
        &mut topology,
        &definitions,
        device(1),
        PrimitiveElementKind::TickDelay,
    );
    for raw in 2..=5 {
        add_device(
            &mut network,
            &mut topology,
            &definitions,
            device(raw),
            PrimitiveElementKind::Conductance,
        );
    }
    for (wire_raw, device_raw, terminal) in [
        (1, 1, 0),
        (1, 2, 0),
        (2, 1, 2),
        (2, 3, 0),
        (3, 1, 3),
        (3, 4, 0),
        (3, 5, 0),
    ] {
        attach(
            &definitions,
            &mut network,
            &mut topology,
            wire(wire_raw),
            device(device_raw),
            terminal,
        );
    }
    topology.clear_invalidation();

    remove_device(
        &definitions,
        &mut network,
        &mut topology,
        &mut scratch,
        device(1),
    );

    let islands: Vec<u32> = (2..=5)
        .map(|raw| device_island(&topology, &network, device(raw)).get())
        .collect();
    assert_eq!(islands, vec![1, 7, 2, 2]);
    assert_eq!(
        numbers(topology.invalidation().topology_dirty_islands()),
        vec![1, 2, 7]
    );
    assert!(topology.invalidation().retired_islands().is_empty());
    assert_eq!(numbers(topology.islands()), vec![1, 2, 7]);
}

#[test]
fn the_last_of_equal_parts_keeps_the_identifier() {
    let definitions = DefinitionRegistry::new();
    let mut network = Network::new();
    let mut topology = DerivedTopology::new();
    let mut scratch = TraversalScratch::new();
    for raw in 1..=3 {
        add_wire(&mut network, &mut topology, wire(raw));
    }
    connect(&definitions, &mut network, &mut topology, wire(1), wire(2));
    assert_eq!(topology.wire_net(wire(2)).get(), 1);
    disconnect(
        &definitions,
        &mut network,
        &mut topology,
        &mut scratch,
        wire(1),
        wire(2),
    );
    assert_eq!(topology.wire_net(wire(1)).get(), 4);
    assert_eq!(topology.wire_net(wire(2)).get(), 1);

    for raw in 1..=3 {
        add_device(
            &mut network,
            &mut topology,
            &definitions,
            device(raw),
            PrimitiveElementKind::Conductance,
        );
        attach(&definitions, &mut network, &mut topology, wire(3), device(raw), 0);
    }
    topology.clear_invalidation();
    remove_wire(
        &definitions,
        &mut network,
        &mut topology,
        &mut scratch,
        wire(3),
    );
    let islands: Vec<u32> = (1..=3)
        .map(|raw| device_island(&topology, &network, device(raw)).get())
        .collect();
    assert_eq!(islands, vec![4, 5, 1]);
    assert_eq!(
        numbers(topology.invalidation().topology_dirty_islands()),
        vec![1, 4, 5]
    );
}

#[test]
fn moved_devices_mark_their_islands_in_order() {
    let definitions = DefinitionRegistry::new();
    let mut network = Network::new();
    let mut topology = DerivedTopology::new();
    for raw in 1..=2 {
        add_device(
            &mut network,
            &mut topology,
            &definitions,
            device(raw),
            PrimitiveElementKind::TickDelay,
        );
    }
    topology.clear_invalidation();
    topology.mark_device_binding_dirty(&definitions, &network, device(2));
    topology.mark_device_binding_dirty(&definitions, &network, device(1));
    topology.mark_device_numerical_dirty(&definitions, &network, device(1));
    let marks = topology.invalidation();
    assert_eq!(numbers(marks.binding_dirty_islands()), vec![3, 4, 1, 2]);
    assert_eq!(numbers(marks.numerical_dirty_islands()), vec![1, 2]);
    assert!(marks.topology_dirty_islands().is_empty());
}
