use hynergy::connection::{ConnectionRef, ConnectionType, DeviceComponent};
use hynergy::dense_store::DenseIdStore;
use hynergy::device_arena::{DeviceDirectoryEntry, DeviceLocator, MAX_DEVICE_CHUNKS};
use hynergy::device_chunk::DEVICE_CHUNK_CAPACITY;
use hynergy::device_topology::DeviceTopologyChunk;
use hynergy::ids::{
    DeviceId, IslandId, NetId, TerminalId, TerminalPartitionId, WireId, ZeroIdError,
};
use hynergy::scratch::TraversalScratch;
use hynergy::stride::swap_remove_stride;
use std::mem::size_of;

fn device(raw: u32) -> DeviceId {
    DeviceId::try_from(raw).unwrap()
}

#[test]
fn topology_chunk_middle_row_removal_moves_entire_partition_stride() {
    let a = IslandId::try_from(1).unwrap();
    let b = IslandId::try_from(2).unwrap();
    let c = IslandId::try_from(3).unwrap();
    let d = IslandId::try_from(4).unwrap();
    let e = IslandId::try_from(5).unwrap();
    let f = IslandId::try_from(6).unwrap();

    let mut chunk = DeviceTopologyChunk::new(2);

    chunk.push_row(&[a, b]);
    chunk.push_row(&[c, d]);
    chunk.push_row(&[e, f]);

    chunk.remove_row(1);

    assert_eq!(chunk.row_count(), 2);
    assert_eq!(chunk.row_islands(0), &[a, b]);
    assert_eq!(chunk.row_islands(1), &[e, f]);
}

#[test]
fn zero_partition_topology_chunk_still_tracks_rows() {
    let mut chunk = DeviceTopologyChunk::new(0);

    chunk.push_row(&[]);
    chunk.push_row(&[]);

    assert_eq!(chunk.row_count(), 2);

    chunk.remove_row(0);

    assert_eq!(chunk.row_count(), 1);
}

#[test]
fn inserted_ids_resolve_to_dense_values() {
    let mut store: DenseIdStore<&str> = DenseIdStore::new();

    let a = store.insert("a");
    let b = store.insert("b");
    let c = store.insert("c");

    assert_eq!(store.get(a), Some(&"a"));
    assert_eq!(store.get(b), Some(&"b"));
    assert_eq!(store.get(c), Some(&"c"));
}

#[test]
fn removing_a_middle_value_does_not_change_the_moved_values_id() {
    let mut store: DenseIdStore<&str> = DenseIdStore::new();

    let a = store.insert("a");
    let b = store.insert("b");
    let c = store.insert("c");

    assert_eq!(store.remove(b), Some("b"));

    assert_eq!(store.get(a), Some(&"a"));
    assert_eq!(store.get(b), None);
    assert_eq!(store.get(c), Some(&"c"));
}

#[test]
fn retired_ids_are_not_reused() {
    let mut store: DenseIdStore<usize> = DenseIdStore::new();

    let first = store.insert(10);
    let retired = store.insert(20);
    assert_eq!(store.remove(retired), Some(20));
    let next = store.insert(30);

    assert_ne!(retired, next);
    assert_eq!(first, 1);
    assert_eq!(retired, 2);
    assert_eq!(next, 3);
}

#[test]
fn scratch_marks_are_reusable_between_traversals() {
    let mut scratch = TraversalScratch::new();

    scratch.begin_wire_traversal(4);

    assert!(scratch.visit_wire(1));
    assert!(scratch.visit_wire(3));

    assert!(!scratch.visit_wire(1));
    assert!(!scratch.visit_wire(3));

    scratch.begin_wire_traversal(4);

    assert!(scratch.visit_wire(1));
    assert!(scratch.visit_wire(3));

    scratch.begin_wire_traversal(8);

    assert!(scratch.visit_wire(1));
    assert!(scratch.visit_wire(7));

    scratch.begin_island_traversal(4, &[4]);

    assert!(scratch.visit_net(1));
    assert!(scratch.visit_component(0, 2));

    assert!(!scratch.visit_net(1));
    assert!(!scratch.visit_component(0, 2));

    scratch.begin_island_traversal(8, &[8]);

    assert!(scratch.visit_net(1));
    assert!(scratch.visit_component(0, 2));

    assert!(scratch.visit_net(7));
    assert!(scratch.visit_component(0, 7));
}

#[test]
fn wire_connection_decodes_only_as_wire() {
    let wire = WireId::try_from(3).unwrap();
    let connection = ConnectionRef::from(wire);

    assert_eq!(connection.as_wire(), Some(wire));
    assert_eq!(connection.as_terminal(), None);
}

#[test]
fn terminal_connection_decodes_only_as_terminal() {
    let device = DeviceId::try_from(2).unwrap();
    let terminal = TerminalId::new(7);
    let connection = ConnectionRef::terminal(device, terminal).unwrap();

    assert_eq!(connection.as_wire(), None);
    assert_eq!(connection.as_terminal(), Some((device, terminal)));
}

#[test]
fn terminal_port_must_fit_packed_mask() {
    let device = DeviceId::try_from(1).unwrap();

    let largest_valid = TerminalId::new(ConnectionRef::TYPE_BIT - 1);

    let first_invalid = TerminalId::new(ConnectionRef::TYPE_BIT);

    assert!(ConnectionRef::terminal(device, largest_valid).is_some());

    assert!(ConnectionRef::terminal(device, first_invalid).is_none());
}

#[test]
fn device_directory_entry_is_exactly_four_bytes() {
    assert_eq!(size_of::<DeviceDirectoryEntry>(), 4);
}

#[test]
fn resident_locator_encoding_uses_lower_half_inclusively() {
    let first = DeviceLocator::new(0, 0).unwrap();
    let last = DeviceLocator::new(MAX_DEVICE_CHUNKS - 1, DEVICE_CHUNK_CAPACITY - 1).unwrap();

    let first_entry = DeviceDirectoryEntry::resident(first);
    let last_entry = DeviceDirectoryEntry::resident(last);

    assert_eq!(first_entry.raw(), 1);
    assert_eq!(last_entry.raw(), 0x8000_0000);
    assert_eq!(first_entry.resident_locator(), Some(first));
    assert_eq!(last_entry.resident_locator(), Some(last));
}

#[test]
fn locator_rejects_out_of_range_chunk_or_row() {
    assert!(DeviceLocator::new(MAX_DEVICE_CHUNKS, 0).is_none());
    assert!(DeviceLocator::new(0, DEVICE_CHUNK_CAPACITY).is_none());
}

#[test]
fn upper_half_is_reserved_for_unloaded_markers() {
    let unloaded = DeviceDirectoryEntry::from_raw(0x8000_0001);

    assert!(!unloaded.is_unassigned());
    assert_eq!(unloaded.resident_locator(), None);
    assert_eq!(unloaded.unloaded_record_index(), Some(0));
}

#[test]
fn stable_component_ids_are_one_based() {
    assert_eq!(NetId::try_from(1).unwrap().get(), 1);

    assert_eq!(IslandId::try_from(1).unwrap().get(), 1);
}

#[test]
fn device_component_round_trips_and_uses_option_niche() {
    let component = DeviceComponent::new(device(0x7fff_ffff), TerminalPartitionId::new(u16::MAX));

    assert_eq!(component.device(), device(0x7fff_ffff));
    assert_eq!(component.partition(), TerminalPartitionId::new(u16::MAX));

    assert_eq!(size_of::<DeviceComponent>(), 8);
    assert_eq!(size_of::<Option<DeviceComponent>>(), 8);
}

#[test]
fn device_component_option_has_no_extra_storage() {
    assert_eq!(
        size_of::<Option<DeviceComponent>>(),
        size_of::<DeviceComponent>(),
    );
}

#[test]
fn zero_is_no_identifier() {
    assert_eq!(WireId::try_from(0), Err(ZeroIdError));
    assert_eq!(DeviceId::try_from(0), Err(ZeroIdError));
    assert_eq!(WireId::try_from(u32::MAX).unwrap().get(), u32::MAX);
    assert_eq!(WireId::try_from(1).unwrap().index(), 0);
}

#[test]
fn connections_tell_wires_from_terminals() {
    let wire = ConnectionRef::from(WireId::try_from(9).unwrap());
    let terminal = ConnectionRef::terminal(device(9), TerminalId::new(0)).unwrap();

    assert_eq!(wire.connection_type(), ConnectionType::Wire);
    assert_eq!(terminal.connection_type(), ConnectionType::Device);
    assert_ne!(wire, terminal);
}

#[test]
fn removing_a_stride_moves_the_last_one() {
    let mut values = vec![1, 2, 3, 4, 5, 6];

    swap_remove_stride(&mut values, 0, 3, 2);
    assert_eq!(values, vec![5, 6, 3, 4]);

    swap_remove_stride(&mut values, 1, 2, 2);
    assert_eq!(values, vec![5, 6]);
}

#[test]
fn directory_entries_without_a_device_hold_nothing() {
    let entry = DeviceDirectoryEntry::unassigned();

    assert_eq!(entry.raw(), 0);
    assert!(entry.is_unassigned());
    assert_eq!(entry.resident_locator(), None);
    assert_eq!(entry.unloaded_record_index(), None);
}

#[test]
fn stores_count_their_values() {
    let mut store: DenseIdStore<&str> = DenseIdStore::new();
    let a = store.insert("a");
    let b = store.insert("b");
    assert_eq!(store.len(), 2);

    store.remove(a);
    assert_eq!(store.len(), 1);
    assert_eq!(store.slot_count(), 2);
    assert_eq!(store.ids(), vec![b]);
    assert_eq!(store.remove(a), None);
    *store.get_mut(b) = "c";
    assert_eq!(store.get(b), Some(&"c"));
}

#[test]
fn identifiers_are_listed_in_dense_order() {
    let mut store: DenseIdStore<&str> = DenseIdStore::new();
    for value in ["a", "b", "c"] {
        store.insert(value);
    }
    assert_eq!(store.ids(), vec![1, 2, 3]);

    assert_eq!(store.remove(1), Some("a"));
    assert_eq!(store.ids(), vec![3, 2]);
    assert_eq!(store.remove(1), None);
    assert_eq!(store.ids(), vec![3, 2]);

    store.insert("d");
    assert_eq!(store.ids(), vec![3, 2, 4]);
}

#[test]
fn marks_of_one_kind_leave_the_others_alone() {
    let mut scratch = TraversalScratch::new();
    scratch.begin_wire_traversal(2);
    assert!(scratch.visit_wire(0));

    scratch.begin_island_traversal(2, &[70]);
    assert!(scratch.visit_net(1));
    assert!(scratch.visit_component(0, 65));
    assert!(!scratch.visit_wire(0));
    assert!(scratch.visit_wire(1));
    assert!(scratch.visit_net(0));

    scratch.begin_wire_traversal(2);
    assert!(!scratch.visit_net(1));
    assert!(!scratch.visit_component(0, 65));
    assert!(scratch.visit_component(0, 1));
    assert!(scratch.visit_wire(0));
}
