//! Following the network when devices are added to it.

use crate::connection::{
    component_device, component_partition, component_word, group_words, is_terminal_word,
    lemma_component_word, word_id, DeviceComponent,
};
use crate::definition::DeviceDefinition;
use crate::dense_store::{listed_between, DenseIdStore};
use crate::device_arena::{DeviceInsertResult, DeviceLocation};
use crate::device_topology::DeviceTopologyChunk;
use crate::graph::{connected, lemma_connected_self};
use crate::ids::{DefinitionId, DeviceId, IslandId, TerminalPartitionId};
use crate::island_repair::ids_between;
use crate::island_traversal::{lemma_component_place, lemma_linked_live};
use crate::network::{Network, PreparedDeviceInsert};
use crate::registry::DefinitionRegistry;
use crate::small_list::WordList;
use crate::topology::{
    component_of, is_component, network_ok, partition_count, vertex_edge, wire_edge,
    DerivedTopology, IslandTopology, Vertex,
};
use crate::topology_growth::lemma_same_graphs;
use vstd::prelude::*;

verus! {

/// A place for the components of a device that has been chosen but not taken yet.
#[derive(Debug)]
pub struct PreparedDeviceTopologyInsert {
    location: DeviceLocation,
    new_chunk: Option<DeviceTopologyChunk>,
}

impl PreparedDeviceTopologyInsert {
    pub closed spec fn spec_location(self) -> DeviceLocation {
        self.location
    }

    /// Whether a chunk stands ready exactly if one is needed, without rows and for the right number
    /// of components.
    pub closed spec fn fits(self, created: bool, partitions: int) -> bool {
        &&& self.new_chunk is Some <==> created
        &&& self.new_chunk matches Some(chunk) ==> chunk.wf() && chunk.rows() == 0
            && chunk.partitions() == partitions
    }
}

impl DerivedTopology {
    /// Whether `after` has a row of new islands, one for each component of a device.
    pub(crate) open spec fn row_pushed(
        self,
        after: Self,
        device: u32,
        chunk: int,
        partitions: int,
    ) -> bool {
        let base = self.islands.spec_slot_count();
        let row = self.device_chunks@[chunk].rows();
        let pushed = after.device_chunks@[chunk];
        &&& after.islands.wf()
        &&& after.islands.spec_slot_count() == base + partitions
        &&& forall|i: u32| #[trigger]
            after.islands@.contains_key(i) <==> (self.islands@.contains_key(i) || base < i <= base
                + partitions)
        &&& forall|i: u32|
            self.islands@.contains_key(i) ==> #[trigger] after.islands@[i] == self.islands@[i]
        &&& forall|i: u32|
            base < i <= base + partitions ==> (#[trigger] after.islands@[i]).components@
                == seq![component_word(device, (i - base - 1) as u16)] && after.islands@[i].revision
                == 0
        &&& after.device_chunks@.len() == self.device_chunks@.len()
        &&& forall|c: int|
            0 <= c < self.device_chunks@.len() && c != chunk ==> #[trigger] after.device_chunks@[c]
                == self.device_chunks@[c]
        &&& pushed.wf()
        &&& pushed.rows() == row + 1
        &&& pushed.partitions() == partitions
        &&& forall|r: int, p: int|
            0 <= r < pushed.rows() && 0 <= p < partitions ==> #[trigger] pushed.island(r, p) == if r
                == row {
                (base + 1 + p) as u32
            } else {
                self.device_chunks@[chunk].island(r, p)
            }
        &&& after.invalidation.wf()
        &&& after.invalidation.gone() == self.invalidation.gone()
        &&& self.invalidation.marked_more(
            after.invalidation,
            ids_between(base, base + partitions),
            Set::empty(),
        )
        &&& after.islands.dense_order() == listed_between(
            self.islands.dense_order(),
            base,
            base + partitions,
        )
        &&& after.invalidation.marks() == self.invalidation.marks().dirtied_between(
            base,
            base + partitions,
        )
    }

    /// Adds the row of a device: each of its components is in an island of its own.
    pub(crate) fn push_device_row(&mut self, device: DeviceId, location: DeviceLocation)
        requires
            old(self).islands.wf(),
            old(self).invalidation.wf(),
            0 <= location.spec_chunk() < old(self).device_chunks@.len(),
            old(self).device_chunks@[location.spec_chunk()].wf(),
            old(self).device_chunks@[location.spec_chunk()].rows() < 64,
            old(self).device_chunks@[location.spec_chunk()].partitions() <= 0x1_0000,
            old(self).islands.spec_slot_count()
                + old(self).device_chunks@[location.spec_chunk()].partitions() <= u32::MAX,
            forall|i: u32| #[trigger]
                old(self).invalidation.gone().contains(i) ==> i
                    <= old(self).islands.spec_slot_count(),
        ensures
            old(self).row_pushed(
                *final(self),
                device.value(),
                location.spec_chunk(),
                old(self).device_chunks@[location.spec_chunk()].partitions(),
            ),
            final(self).nets == old(self).nets,
            final(self).wire_net_map == old(self).wire_net_map,
            final(self).net_island_map == old(self).net_island_map,
    {
        let chunk_index: usize = location.chunk_index() as usize;
        let count: usize = self.device_chunks[chunk_index].partition_count();
        let slots: usize = self.islands.slot_count();
        let ghost base = self.islands.spec_slot_count();
        let mut row: Vec<IslandId> = Vec::new();
        let mut partition: usize = 0;
        assert(ids_between(base, base) =~= Set::empty());
        while partition < count
            invariant
                partition <= count <= 0x1_0000,
                base == old(self).islands.spec_slot_count(),
                base + count <= u32::MAX,
                0 <= base,
                self.nets == old(self).nets,
                self.wire_net_map == old(self).wire_net_map,
                self.net_island_map == old(self).net_island_map,
                self.device_chunks == old(self).device_chunks,
                self.islands.wf(),
                self.islands.spec_slot_count() == base + partition,
                forall|i: u32| #[trigger]
                    self.islands@.contains_key(i) <==> (old(self).islands@.contains_key(i) || base
                        < i <= base + partition),
                forall|i: u32|
                    old(self).islands@.contains_key(i) ==> #[trigger] self.islands@[i] == old(
                        self,
                    ).islands@[i],
                forall|i: u32|
                    base < i <= base + partition ==> (#[trigger] self.islands@[i]).components@
                        == seq![component_word(device.value(), (i - base - 1) as u16)]
                        && self.islands@[i].revision == 0,
                row@.len() == partition,
                forall|p: int|
                    0 <= p < partition ==> (#[trigger] row@[p]).value() == base + 1 + p,
                self.invalidation.wf(),
                self.invalidation.gone() == old(self).invalidation.gone(),
                forall|i: u32| #[trigger]
                    old(self).invalidation.gone().contains(i) ==> i <= base,
                old(self).invalidation.marked_more(
                    self.invalidation,
                    ids_between(base, base + partition),
                    Set::empty(),
                ),
                self.islands.dense_order() == listed_between(
                    old(self).islands.dense_order(),
                    base,
                    base + partition,
                ),
                self.invalidation.marks() == old(self).invalidation.marks().dirtied_between(
                    base,
                    base + partition,
                ),
            decreases count - partition,
        {
            broadcast use DenseIdStore::lemma_live;

            let component: u64 = DeviceComponent::new(
                device,
                TerminalPartitionId::new(partition as u16),
            ).to_word();
            let mut components = WordList::new();
            components.push(component);
            assert(components@ =~= seq![component]);
            let ghost before = *self;
            let island: u32 = self.islands.insert(IslandTopology { components, revision: 0 });
            assert(!self.invalidation.gone().contains(island));
            self.invalidation.mark_topology_dirty(IslandId::new(island));
            row.push(IslandId::new(island));
            proof {
                assert(ids_between(base, base + partition).union(set![island]) =~= ids_between(
                    base,
                    base + partition + 1,
                ));
                old(self).invalidation.lemma_marked_more(
                    before.invalidation,
                    self.invalidation,
                    ids_between(base, base + partition),
                    Set::empty(),
                    set![island],
                    Set::empty(),
                );
                assert(Set::<u32>::empty().union(Set::empty()) =~= Set::empty());
            }
            partition = partition + 1;
        }
        self.device_chunks[chunk_index].push_row(row.as_slice());
    }

    /// Whether a network is another with one more device, and the topology is that of the other.
    pub open spec fn device_step(
        self,
        before: Network,
        after: Network,
        definitions: DefinitionRegistry,
        device: u32,
        definition: DefinitionId,
        insert: DeviceInsertResult,
    ) -> bool {
        &&& self.consistent(before, definitions)
        &&& network_ok(before, definitions)
        &&& network_ok(after, definitions)
        &&& before.device_added(after, definitions, device, definition, insert)
    }

    /// The number of island identifiers that have been given out.
    pub closed spec fn spec_island_slots(self) -> int {
        self.islands.spec_slot_count()
    }

    pub(crate) proof fn lemma_island_slots(self)
        ensures
            self.spec_island_slots() == self.islands.spec_slot_count(),
    {
    }

    /// What following a new device does to islands: each component gets one of its own.
    pub closed spec fn device_followed(self, after: Self, device: u32, partitions: int) -> bool {
        let base = self.islands.spec_slot_count();
        &&& after.nets == self.nets
        &&& after.wire_net_map == self.wire_net_map
        &&& after.net_island_map == self.net_island_map
        &&& after.islands.spec_slot_count() == base + partitions
        &&& forall|i: u32| #[trigger]
            after.islands@.contains_key(i) <==> (self.islands@.contains_key(i) || base < i <= base
                + partitions)
        &&& forall|i: u32|
            self.islands@.contains_key(i) ==> #[trigger] after.islands@[i] == self.islands@[i]
        &&& forall|i: u32|
            base < i <= base + partitions ==> (#[trigger] after.islands@[i]).components@
                == seq![component_word(device, (i - base - 1) as u16)] && after.islands@[i].revision
                == 0
        &&& self.invalidation.marked_more(
            after.invalidation,
            ids_between(base, base + partitions),
            Set::empty(),
        )
        &&& after.islands.dense_order() == listed_between(
            self.islands.dense_order(),
            base,
            base + partitions,
        )
        &&& after.invalidation.marks() == self.invalidation.marks().dirtied_between(
            base,
            base + partitions,
        )
    }

    /// Whether identifiers are left for the islands of the components of one more device.
    pub fn has_room_for_device(&self, definition: &DeviceDefinition) -> (result: bool)
        requires
            definition.wf(),
        ensures
            result == (self.spec_island_slots() + definition.spec_partition_count() <= u32::MAX),
    {
        let slots: usize = self.islands.slot_count();
        let count: usize = definition.partition_count();
        slots <= u32::MAX as usize && count <= u32::MAX as usize - slots
    }

    /// Chooses the place for the components of a device, without taking it yet.
    pub fn prepare_add_device(
        &self,
        definition: &DeviceDefinition,
        model: &PreparedDeviceInsert,
    ) -> (result: PreparedDeviceTopologyInsert)
        requires
            definition.wf(),
        ensures
            result.spec_location() == model.spec_location(),
            result.fits(model.spec_created(), definition.spec_partition_count()),
    {
        let new_chunk = if model.created_chunk() {
            Some(DeviceTopologyChunk::new(definition.partition_count()))
        } else {
            None
        };
        PreparedDeviceTopologyInsert { location: model.location(), new_chunk }
    }

    /// Follows the network when a device has been added in the place that was chosen for it.
    pub fn commit_add_device(
        &mut self,
        device: DeviceId,
        definition: &DeviceDefinition,
        prepared: PreparedDeviceTopologyInsert,
        insert: DeviceInsertResult,
    )
        requires
            exists|
                before: Network,
                after: Network,
                definitions: DefinitionRegistry,
                id: DefinitionId,
            | #[trigger]
                old(self).device_step(
                    before,
                    after,
                    definitions,
                    device.value(),
                    id,
                    insert,
                ) && *definition == definitions.definition(id.value()),
            prepared.fits(insert.spec_created(), definition.spec_partition_count()),
            old(self).spec_island_slots() + definition.spec_partition_count() <= u32::MAX,
        ensures
            forall|
                before: Network,
                after: Network,
                definitions: DefinitionRegistry,
                id: DefinitionId,
            | #[trigger]
                old(self).device_step(
                    before,
                    after,
                    definitions,
                    device.value(),
                    id,
                    insert,
                ) && *definition == definitions.definition(id.value())
                    ==> final(self).consistent(after, definitions),
            old(self).device_followed(
                *final(self),
                device.value(),
                definition.spec_partition_count(),
            ),
    {
        let ghost t0 = *self;
        let ghost d = device.value();
        proof {
            let (before, after, definitions, id) = choose|
                before: Network,
                after: Network,
                definitions: DefinitionRegistry,
                id: DefinitionId,
            | #[trigger]
                self.device_step(before, after, definitions, d, id, insert) && *definition
                    == definitions.definition(id.value());
            self.lemma_consistent(before, definitions);
            lemma_insert_place(t0, before, after, definitions, d, id, insert);
        }
        match prepared.new_chunk {
            Some(chunk) => {
                self.device_chunks.push(chunk);
            },
            None => {},
        }
        let ghost ready = *self;
        assert(insert.spec_created() ==> ready.device_chunks@.drop_last() =~= t0.device_chunks@);
        self.push_device_row(device, insert.location());
        proof {
            assert forall|
                before: Network,
                after: Network,
                definitions: DefinitionRegistry,
                id: DefinitionId,
            | #[trigger]
                t0.device_step(before, after, definitions, d, id, insert) && *definition
                    == definitions.definition(id.value()) implies self.consistent(
                after,
                definitions,
            ) by {
                t0.lemma_consistent(before, definitions);
                lemma_insert_place(t0, before, after, definitions, d, id, insert);
                lemma_device_added(t0, ready, *self, before, after, definitions, d, id, insert);
                self.lemma_consistent(after, definitions);
            }
        }
    }
}

/// Where the row of a new device goes.
proof fn lemma_insert_place(
    t0: DerivedTopology,
    before: Network,
    after: Network,
    definitions: DefinitionRegistry,
    device: u32,
    definition: DefinitionId,
    insert: DeviceInsertResult,
)
    requires
        network_ok(before, definitions),
        network_ok(after, definitions),
        before.device_added(after, definitions, device, definition, insert),
        t0.structure_ok(before, definitions),
    ensures
        definitions.definition(definition.value()).wf(),
        definitions.definition(definition.value()).spec_partition_count() <= 0x1_0000,
        insert.spec_created() ==> insert.spec_chunk() == t0.device_chunks@.len()
            && insert.spec_row() == 0,
        !insert.spec_created() ==> {
            &&& 0 <= insert.spec_chunk() < t0.device_chunks@.len()
            &&& t0.device_chunks@[insert.spec_chunk()].wf()
            &&& t0.device_chunks@[insert.spec_chunk()].rows() == insert.spec_row()
            &&& t0.device_chunks@[insert.spec_chunk()].partitions() == definitions.definition(
                definition.value(),
            ).spec_partition_count()
        },
        0 <= insert.spec_row() < 64,
{
    let chunk = insert.spec_chunk();
    before.arena().lemma_wf();
    after.arena().lemma_wf();
    assert(definitions.knows(definition.value()));
    assert(definitions.spec_definitions()[definition.value() - 1].wf());
    assert(after.arena().rows(chunk) == insert.spec_row() + 1);
    if !insert.spec_created() {
        assert(t0.device_chunks@[chunk].wf());
        assert(after.arena().spec_chunk_definition(chunk) == before.arena().spec_chunk_definition(
            chunk,
        ));
        assert(before.arena().rows(chunk) == insert.spec_row());
    }
}

/// A new device with each of its components in an island of its own gives the topology of the
/// network with the device.
#[verifier::spinoff_prover]
#[verifier::rlimit(40)]
proof fn lemma_device_added(
    t0: DerivedTopology,
    ready: DerivedTopology,
    t1: DerivedTopology,
    before: Network,
    after: Network,
    definitions: DefinitionRegistry,
    device: u32,
    definition: DefinitionId,
    insert: DeviceInsertResult,
)
    requires
        network_ok(before, definitions),
        network_ok(after, definitions),
        before.device_added(after, definitions, device, definition, insert),
        t0.consistent_except(before, definitions, Set::empty()),
        ready.nets == t0.nets,
        ready.wire_net_map == t0.wire_net_map,
        ready.net_island_map == t0.net_island_map,
        ready.islands == t0.islands,
        ready.invalidation == t0.invalidation,
        if insert.spec_created() {
            &&& ready.device_chunks@.len() == t0.device_chunks@.len() + 1
            &&& ready.device_chunks@.drop_last() == t0.device_chunks@
            &&& ready.device_chunks@.last().wf()
            &&& ready.device_chunks@.last().rows() == 0
            &&& ready.device_chunks@.last().partitions() == definitions.definition(
                definition.value(),
            ).spec_partition_count()
        } else {
            ready.device_chunks == t0.device_chunks
        },
        ready.row_pushed(
            t1,
            device,
            insert.spec_chunk(),
            definitions.definition(definition.value()).spec_partition_count(),
        ),
        t1.nets == ready.nets,
        t1.wire_net_map == ready.wire_net_map,
        t1.net_island_map == ready.net_island_map,
        t1.islands.spec_slot_count() <= u32::MAX,
    ensures
        t1.consistent_except(after, definitions, Set::empty()),
{
    broadcast use {group_words, lemma_component_word, DenseIdStore::lemma_live};

    let k = insert.spec_chunk();
    let partitions = definitions.definition(definition.value()).spec_partition_count();
    let base = t0.islands.spec_slot_count();
    lemma_insert_place(t0, before, after, definitions, device, definition, insert);
    before.arena().lemma_wf();
    after.arena().lemma_wf();
    assert(after.arena().resident(device));
    assert(device != 0);
    assert forall|d: u32| #[trigger] before.device_live(d) implies after.device_live(d)
        && after.device_model(d).definition == before.device_model(d).definition && d != device by {
        assert(before.arena().resident(d));
        assert(after.arena().resident(d));
        assert(after.arena()@[d] == before.arena()@[d]);
    }
    assert(after.device_model(device).definition == definition) by {
        assert(after.arena()@.contains_key(device));
    }
    assert forall|c: int| 0 <= c < ready.device_chunks@.len() && c < t0.device_chunks@.len() implies
        #[trigger] ready.device_chunks@[c] == t0.device_chunks@[c] by {
        if insert.spec_created() {
            assert(ready.device_chunks@.drop_last()[c] == ready.device_chunks@[c]);
        }
    }
    assert(t1.structure_ok(after, definitions)) by {
        assert forall|c: int| 0 <= c < t1.device_chunks@.len() implies {
            let chunk = #[trigger] t1.device_chunks@[c];
            &&& chunk.wf()
            &&& chunk.rows() == after.arena().rows(c)
            &&& chunk.partitions() == definitions.definition(
                after.arena().spec_chunk_definition(c).value(),
            ).spec_partition_count()
        } by {
            if c != k {
                assert(c < t0.device_chunks@.len());
                assert(t1.device_chunks@[c] == ready.device_chunks@[c]);
                assert(t0.device_chunks@[c].wf());
                assert(after.arena().rows(c) == before.arena().rows(c));
                assert(after.arena().spec_chunk_definition(c)
                    == before.arena().spec_chunk_definition(c));
            } else {
                assert(after.arena().rows(c) == insert.spec_row() + 1);
                assert(after.arena().spec_chunk_definition(c) == definition);
            }
        }
        assert forall|i: u32| #[trigger] t1.invalidation.gone().contains(i) implies
            !t1.islands@.contains_key(i) && i <= t1.islands.spec_slot_count() by {
            assert(t0.invalidation.gone().contains(i));
        }
    }
    assert forall|x: u64|
        is_terminal_word(x) && before.device_live(word_id(x)) implies #[trigger] component_of(
        after,
        definitions,
        x,
    ) == component_of(before, definitions, x) by {}
    assert forall|c: u64| #[trigger] is_component(before, definitions, c) implies is_component(
        after,
        definitions,
        c,
    ) && t1.component_label(after, c) == t0.component_label(before, c) by {
        let d = component_device(c);
        assert(before.device_live(d));
        lemma_component_place(t0, before, definitions, c);
        assert(after.arena().chunk_of(d) == before.arena().chunk_of(d));
        assert(after.arena().row_of(d) == before.arena().row_of(d));
        let place = before.arena().chunk_of(d);
        if place == k {
            assert(before.arena().row_of(d) < insert.spec_row());
            assert(t1.device_chunks@[k].island(
                before.arena().row_of(d),
                component_partition(c) as int,
            ) == t0.device_chunks@[k].island(
                before.arena().row_of(d),
                component_partition(c) as int,
            ));
        }
    }
    assert forall|c: u64| #[trigger]
        is_component(after, definitions, c) && component_device(c) == device implies
        t1.component_label(after, c) == base + 1 + component_partition(c) && component_partition(c)
        < partitions by {
        assert(after.arena().chunk_of(device) == k);
        assert(after.arena().row_of(device) == insert.spec_row());
        assert(t0.islands@.contains_key(0) ==> base >= 0);
        assert(t1.device_chunks@[k].island(insert.spec_row(), component_partition(c) as int)
            == base + 1 + component_partition(c));
    }
    assert forall|c: u64| #[trigger]
        is_component(after, definitions, c) && component_device(c) != device implies is_component(
        before,
        definitions,
        c,
    ) by {
        let d = component_device(c);
        assert(after.arena().resident(d));
        assert(before.arena().resident(d));
        assert(before.device_live(d));
    }
    assert forall|w: u32| #[trigger] t1.net_of(w) == t0.net_of(w) by {}
    assert forall|n: u32| #[trigger] t1.net_label(n) == t0.net_label(n) by {}
    assert(t1.wires_ok(after)) by {
        assert forall|w: u32| #[trigger] after.wire_live(w) implies t1.nets@.contains_key(
            t1.net_of(w),
        ) && t1.nets@[t1.net_of(w)].wires@.contains(w) by {
            assert(before.wire_live(w));
        }
        assert forall|w: u32| !after.wire_live(w) implies #[trigger] t1.net_of(w) == 0 by {
            assert(!before.wire_live(w));
            assert(t0.net_of(w) == 0);
        }
        assert forall|n: u32| #[trigger] t1.nets@.contains_key(n) implies {
            &&& t1.nets@[n].wires@.len() > 0
            &&& t1.nets@[n].wires@.no_duplicates()
            &&& forall|w: u32| #[trigger]
                t1.nets@[n].wires@.contains(w) ==> after.wire_live(w) && t1.net_of(w) == n
        } by {
            assert(t0.nets@.contains_key(n));
            assert forall|w: u32| #[trigger] t1.nets@[n].wires@.contains(w) implies after.wire_live(
                w,
            ) && t1.net_of(w) == n by {
                assert(t0.nets@[n].wires@.contains(w));
                assert(before.wire_live(w));
            }
        }
    }
    assert forall|x: u64, n: u32| #[trigger]
        t1.attached(after, x, n) == t0.attached(before, x, n) by {
        if t1.attached(after, x, n) {
            let y = choose|y: u64| #[trigger]
                after.linked(x, y) && !is_terminal_word(y) && t1.net_of(word_id(y)) == n;
            assert(before.linked(x, y));
            assert(t0.net_of(word_id(y)) == n);
        }
        if t0.attached(before, x, n) {
            let y = choose|y: u64| #[trigger]
                before.linked(x, y) && !is_terminal_word(y) && t0.net_of(word_id(y)) == n;
            assert(after.linked(x, y));
            assert(t1.net_of(word_id(y)) == n);
        }
    }
    assert(t1.nets_list(after, definitions)) by {
        assert forall|n: u32| #[trigger] t1.nets@.contains_key(n) implies t1.net_lists(
            after,
            definitions,
            n,
        ) by {
            assert(t0.nets@.contains_key(n));
            assert(t0.net_lists(before, definitions, n));
            let model = t1.nets@[n];
            assert forall|x: u64| #[trigger] model.terminals@.contains(x) <==> t1.attached(
                after,
                x,
                n,
            ) by {
                assert(t0.nets@[n].terminals@.contains(x) <==> t0.attached(before, x, n));
            }
            assert forall|i: int|
                0 <= i < model.terminals@.len() implies #[trigger] model.terminal_components@[i]
                == component_of(after, definitions, model.terminals@[i]) by {
                let x = model.terminals@[i];
                assert(model.terminals@.contains(x));
                assert(t0.attached(before, x, n));
                let y = choose|y: u64| #[trigger]
                    before.linked(x, y) && !is_terminal_word(y) && t0.net_of(word_id(y)) == n;
                lemma_linked_live(before, definitions, x, y);
            }
        }
    }
    assert(t1.net_labels_ok(Set::empty())) by {
        assert forall|n: u32| #[trigger] t1.nets@.contains_key(n) implies {
            &&& t1.net_label(n) != 0 ==> t1.islands@.contains_key(t1.net_label(n))
            &&& t1.net_label(n) == 0 ==> t1.nets@[n].terminals@.len() == 0
            &&& t1.net_label(n) != 0 ==> t1.nets@[n].terminals@.len() > 0
        } by {
            assert(t0.nets@.contains_key(n));
        }
        assert forall|n: u32| !t1.nets@.contains_key(n) implies #[trigger] t1.net_label(n) == 0 by {
            assert(t0.net_label(n) == 0);
        }
    }
    assert(t1.components_ok(after, definitions, Set::empty())) by {
        assert forall|c: u64| #[trigger] is_component(after, definitions, c) implies {
            let label = t1.component_label(after, c);
            t1.islands@.contains_key(label) && t1.islands@[label].components@.contains(c)
        } by {
            if component_device(c) == device {
                let label = t1.component_label(after, c);
                assert(t1.islands@[label].components@ == seq![
                    component_word(device, component_partition(c)),
                ]);
                assert(t1.islands@[label].components@[0] == c);
            } else {
                assert(is_component(before, definitions, c));
                assert(t0.islands@.contains_key(t0.component_label(before, c)));
            }
        }
        assert forall|i: u32| #[trigger] t1.islands@.contains_key(i) implies {
            &&& t1.islands@[i].components@.len() > 0
            &&& t1.islands@[i].components@.no_duplicates()
            &&& forall|c: u64| #[trigger]
                t1.islands@[i].components@.contains(c) ==> is_component(after, definitions, c)
                    && t1.component_label(after, c) == i
        } by {
            if t0.islands@.contains_key(i) {
                assert forall|c: u64| #[trigger] t1.islands@[i].components@.contains(c) implies
                    is_component(after, definitions, c) && t1.component_label(after, c) == i by {
                    assert(t0.islands@[i].components@.contains(c));
                    assert(is_component(before, definitions, c));
                }
            } else {
                let p = (i - base - 1) as u16;
                let c = component_word(device, p);
                assert(p == i - base - 1);
                assert(is_component(after, definitions, c));
                assert(t1.component_label(after, c) == base + 1 + p);
            }
        }
    }
    assert(t1.closed_ok(after, definitions)) by {
        assert forall|x: u64, y: u64| #[trigger] after.linked(x, y) implies {
            &&& t1.label(after, definitions, x) == t1.label(after, definitions, y)
            &&& !is_terminal_word(x) && !is_terminal_word(y) ==> t1.net_of(word_id(x)) == t1.net_of(
                word_id(y),
            )
        } by {
            assert(before.linked(x, y) && before.linked(y, x));
            lemma_linked_live(before, definitions, x, y);
            lemma_linked_live(before, definitions, y, x);
            assert(t1.label(after, definitions, x) == t0.label(before, definitions, x));
            assert(t1.label(after, definitions, y) == t0.label(before, definitions, y));
        }
    }
    lemma_same_graphs(before, after, definitions);
    assert(t1.nets_connected(after)) by {
        assert forall|a: u32, b: u32|
            #![trigger t1.net_of(a), t1.net_of(b)]
            after.wire_live(a) && after.wire_live(b) && t1.net_of(a) == t1.net_of(
                b,
            ) implies connected(wire_edge(after), a, b) by {
            assert(before.wire_live(a) && before.wire_live(b));
            assert(t0.net_of(a) == t0.net_of(b));
        }
    }
    assert(t1.islands_connected(after, definitions, Set::empty())) by {
        assert forall|a: u64, b: u64|
            #![trigger t1.component_label(after, a), t1.component_label(after, b)]
            is_component(after, definitions, a) && is_component(after, definitions, b)
                && t1.component_label(after, a) == t1.component_label(
                after,
                b,
            ) implies connected(
            vertex_edge(after, definitions),
            Vertex::Component(a),
            Vertex::Component(b),
        ) by {
            if component_device(a) == device && component_device(b) == device {
                assert(a == b);
                lemma_connected_self(vertex_edge(after, definitions), Vertex::Component(a));
            } else if component_device(a) != device && component_device(b) != device {
                assert(is_component(before, definitions, a));
                assert(is_component(before, definitions, b));
                assert(t0.component_label(before, a) == t0.component_label(before, b));
            } else {
                let old = if component_device(a) == device {
                    b
                } else {
                    a
                };
                assert(is_component(before, definitions, old));
                assert(t0.islands@.contains_key(t0.component_label(before, old)));
            }
        }
    }
}

/// Adding a device leaves all nets and all islands as they are. Each of its components is in a new
/// island of its own, at revision zero. The new islands are kept behind the others in order, and are
/// marked in this order.
pub proof fn law_adding_a_device_leaves_the_rest_alone(
    topology: DerivedTopology,
    after: DerivedTopology,
    device: u32,
    partitions: int,
)
    requires
        topology.device_followed(after, device, partitions),
    ensures
        forall|w: u32| #[trigger] after.wire_net_spec(w) == topology.wire_net_spec(w),
        forall|n: u32| #[trigger] after.has_net(n) == topology.has_net(n),
        forall|n: u32| #[trigger] after.net_at(n) == topology.net_at(n),
        forall|n: u32| #[trigger] after.net_island_spec(n) == topology.net_island_spec(n),
        forall|i: u32| #[trigger]
            after.has_island(i) <==> topology.has_island(i) || topology.spec_island_slots() < i
                <= topology.spec_island_slots() + partitions,
        forall|i: u32|
            topology.has_island(i) ==> #[trigger] after.island_at(i) == topology.island_at(i),
        forall|i: u32|
            topology.spec_island_slots() < i <= topology.spec_island_slots() + partitions ==> (
            #[trigger] after.island_at(i)).spec_components() == seq![
                component_word(device, (i - topology.spec_island_slots() - 1) as u16),
            ] && after.island_at(i).spec_revision() == 0,
        topology.spec_invalidation().marked_more(
            after.spec_invalidation(),
            ids_between(topology.spec_island_slots(), after.spec_island_slots()),
            Set::empty(),
        ),
        after.spec_island_slots() == topology.spec_island_slots() + partitions,
        after.island_order() == listed_between(
            topology.island_order(),
            topology.spec_island_slots(),
            after.spec_island_slots(),
        ),
        after.spec_invalidation().marks() == topology.spec_invalidation().marks().dirtied_between(
            topology.spec_island_slots(),
            after.spec_island_slots(),
        ),
{
    topology.lemma_model();
    after.lemma_model();
    topology.lemma_island_slots();
    after.lemma_island_slots();
    assert forall|w: u32| #[trigger] after.wire_net_spec(w) == topology.wire_net_spec(w) by {
        topology.lemma_wire_net(w);
        after.lemma_wire_net(w);
    }
    assert forall|i: u32|
        topology.spec_island_slots() < i <= topology.spec_island_slots() + partitions implies (
    #[trigger] after.island_at(i)).spec_components() == seq![
        component_word(device, (i - topology.spec_island_slots() - 1) as u16),
    ] && after.island_at(i).spec_revision() == 0 by {
        after.islands@[i].lemma_list();
    }
    assert forall|i: u32| #[trigger] after.has_island(i) <==> topology.has_island(i)
        || topology.spec_island_slots() < i <= topology.spec_island_slots() + partitions by {
        assert(after.islands@.contains_key(i) == after.has_island(i));
    }
    assert forall|i: u32| topology.has_island(i) implies #[trigger] after.island_at(i)
        == topology.island_at(i) by {
        assert(after.islands@[i] == topology.islands@[i]);
    }
}

} // verus!
