//! What can be asked of a derived topology, and what the answers mean for the network.

use crate::connection::{
    component_word, group_words, is_terminal_word, lemma_component_word, wire_word, word_id,
    DeviceComponent,
};
use crate::dense_store::DenseIdStore;
use crate::device_topology::DeviceTopologyChunk;
use crate::graph::{connected, lemma_connected_edge, lemma_connected_trans, lemma_connected_within};
use crate::ids::{DeviceId, IslandId, NetId, WireId};
use crate::invalidation::{Marks, WorldInvalidation};
use crate::island_traversal::{lemma_linked_live, lemma_wires_connected};
use crate::network::Network;
use crate::registry::DefinitionRegistry;
use crate::topology::{
    component_of, is_component, network_ok, partition_count, vertex_edge, vertex_of, wire_edge,
    DerivedTopology, IslandTopology, Net, Vertex,
};
use vstd::prelude::*;

verus! {

/// Whether an island is among the first of a row.
spec fn in_row(chunk: DeviceTopologyChunk, row: int, count: int, island: u32) -> bool {
    exists|p: int| 0 <= p < count && #[trigger] chunk.island(row, p) == island
}

impl DerivedTopology {
    /// The island of a net, or zero.
    pub closed spec fn net_island_spec(self, net: u32) -> u32 {
        self.net_label(net)
    }

    /// Whether an identifier stands for a net.
    pub closed spec fn has_net(self, net: u32) -> bool {
        self.nets@.contains_key(net)
    }

    /// The net that an identifier stands for.
    pub closed spec fn net_at(self, net: u32) -> Net {
        self.nets@[net]
    }

    /// Whether an identifier stands for an island.
    pub closed spec fn has_island(self, island: u32) -> bool {
        self.islands@.contains_key(island)
    }

    /// The island that an identifier stands for.
    pub closed spec fn island_at(self, island: u32) -> IslandTopology {
        self.islands@[island]
    }

    /// The identifiers of the islands, in the order in which the islands are kept.
    pub closed spec fn island_order(self) -> Seq<u32> {
        self.islands.dense_order()
    }

    /// The marks.
    pub closed spec fn spec_invalidation(self) -> WorldInvalidation {
        self.invalidation
    }

    /// Whether this is the topology of some network.
    pub open spec fn derived(self) -> bool {
        exists|network: Network, definitions: DefinitionRegistry| #[trigger]
            self.consistent(network, definitions)
    }

    pub(crate) proof fn lemma_model(self)
        ensures
            forall|n: u32| #[trigger] self.has_net(n) == self.nets@.contains_key(n),
            forall|n: u32| #[trigger] self.net_at(n) == self.nets@[n],
            forall|n: u32| #[trigger] self.net_island_spec(n) == self.net_label(n),
            forall|i: u32| #[trigger] self.has_island(i) == self.islands@.contains_key(i),
            forall|i: u32| #[trigger] self.island_at(i) == self.islands@[i],
            self.island_order() == self.islands.dense_order(),
            self.spec_invalidation() == self.invalidation,
    {
    }

    proof fn lemma_stores(self)
        requires
            self.derived(),
        ensures
            self.nets.wf(),
            self.islands.wf(),
            self.invalidation.wf(),
            self.net_island_map@.len() == self.nets.spec_slot_count(),
    {
        let (network, definitions) = choose|network: Network, definitions: DefinitionRegistry| #[trigger]
            self.consistent(network, definitions);
        self.lemma_consistent(network, definitions);
    }

    /// The net of a wire that is in one.
    pub fn wire_net(&self, wire: WireId) -> (result: NetId)
        requires
            self.wire_net_spec(wire.value()) != 0,
        ensures
            result.value() == self.wire_net_spec(wire.value()),
    {
        let number: u32 = wire.get();
        proof {
            self.lemma_wire_net(number);
        }
        NetId::new(self.wire_net_raw(number))
    }

    /// The island of a net.
    pub fn net_island(&self, net: NetId) -> (result: Option<IslandId>)
        requires
            self.derived(),
            self.has_net(net.value()),
        ensures
            match result {
                Some(island) => island.value() == self.net_island_spec(net.value()),
                None => self.net_island_spec(net.value()) == 0,
            },
    {
        broadcast use DenseIdStore::lemma_live;

        proof {
            self.lemma_stores();
        }
        let island: u32 = self.net_island_map[net.index()];
        if island == 0 {
            None
        } else {
            Some(IslandId::new(island))
        }
    }

    /// The island of a component of a device of the network.
    pub fn component_island(
        &self,
        definitions: &DefinitionRegistry,
        network: &Network,
        component: DeviceComponent,
    ) -> (result: IslandId)
        requires
            network_ok(*network, *definitions),
            self.consistent(*network, *definitions),
            is_component(*network, *definitions, component.word()),
        ensures
            result.value() == self.component_island_spec(*network, component.word()),
            self.has_island(result.value()),
    {
        proof {
            self.lemma_consistent(*network, *definitions);
        }
        IslandId::new(self.component_island_raw(definitions, network, component.to_word()))
    }

    /// The net that an identifier stands for.
    pub fn net(&self, id: NetId) -> (result: Option<&Net>)
        requires
            self.derived(),
        ensures
            match result {
                Some(net) => self.has_net(id.value()) && *net == self.net_at(id.value()),
                None => !self.has_net(id.value()),
            },
    {
        proof {
            self.lemma_stores();
        }
        self.nets.get(id.get())
    }

    /// The island that an identifier stands for.
    pub fn island(&self, id: IslandId) -> (result: Option<&IslandTopology>)
        requires
            self.derived(),
        ensures
            match result {
                Some(island) => self.has_island(id.value()) && *island == self.island_at(
                    id.value(),
                ),
                None => !self.has_island(id.value()),
            },
    {
        proof {
            self.lemma_stores();
        }
        self.islands.get(id.get())
    }

    /// The identifiers of the islands, each once.
    pub fn islands(&self) -> (result: Vec<IslandId>)
        requires
            self.derived(),
        ensures
            forall|i: u32| #[trigger]
                self.has_island(i) <==> exists|k: int|
                    0 <= k < result@.len() && (#[trigger] result@[k]).value() == i,
            forall|k: int, l: int|
                0 <= k < l < result@.len() ==> (#[trigger] result@[k]).value() != (
                #[trigger] result@[l]).value(),
            result@.len() == self.island_order().len(),
            forall|k: int|
                0 <= k < result@.len() ==> (#[trigger] result@[k]).value() == self.island_order()[k],
    {
        broadcast use DenseIdStore::lemma_live;

        proof {
            self.lemma_stores();
        }
        let live = self.islands.ids();
        let mut islands: Vec<IslandId> = Vec::new();
        let mut index: usize = 0;
        while index < live.len()
            invariant
                index <= live@.len(),
                islands@.len() == index,
                forall|i: u32| #[trigger] live@.contains(i) <==> self.islands@.contains_key(i),
                forall|k: int| 0 <= k < index ==> (#[trigger] islands@[k]).value() == live@[k],
            decreases live@.len() - index,
        {
            broadcast use DenseIdStore::lemma_live;

            assert(live@.contains(live@[index as int]));
            assert(self.islands@.contains_key(live@[index as int]));
            islands.push(IslandId::new(live[index]));
            index = index + 1;
        }
        proof {
            assert forall|i: u32| #[trigger] self.has_island(i) <==> exists|k: int|
                0 <= k < islands@.len() && (#[trigger] islands@[k]).value() == i by {
                if self.has_island(i) {
                    assert(live@.contains(i));
                    let k = choose|k: int| 0 <= k < live@.len() && live@[k] == i;
                    assert(islands@[k].value() == i);
                }
                if exists|k: int| 0 <= k < islands@.len() && (#[trigger] islands@[k]).value() == i {
                    let k = choose|k: int|
                        0 <= k < islands@.len() && (#[trigger] islands@[k]).value() == i;
                    assert(live@.contains(live@[k]));
                }
            }
        }
        islands
    }

    /// A revision is left for every island.
    pub open spec fn revisions_left(self) -> bool {
        forall|i: u32| #[trigger]
            self.has_island(i) ==> self.island_at(i).spec_revision() < u64::MAX
    }

    pub(crate) proof fn lemma_revisions(self)
        requires
            self.revisions_left(),
        ensures
            forall|i: u32| #[trigger]
                self.islands@.contains_key(i) ==> self.islands@[i].revision < u64::MAX,
    {
        self.lemma_model();
        assert forall|i: u32| #[trigger] self.islands@.contains_key(i) implies
            self.islands@[i].revision < u64::MAX by {
            assert(self.has_island(i));
            self.islands@[i].lemma_list();
        }
    }

    /// Whether a revision is left for every island, so that wires and terminals can be connected.
    pub fn has_revisions_left(&self) -> (result: bool)
        requires
            self.derived(),
        ensures
            result == self.revisions_left(),
    {
        let islands = self.islands();
        let mut index: usize = 0;
        while index < islands.len()
            invariant
                self.derived(),
                index <= islands@.len(),
                forall|i: u32| #[trigger]
                    self.has_island(i) <==> exists|k: int|
                        0 <= k < islands@.len() && (#[trigger] islands@[k]).value() == i,
                forall|k: int|
                    0 <= k < index ==> self.island_at(
                        (#[trigger] islands@[k]).value(),
                    ).spec_revision() < u64::MAX,
            decreases islands@.len() - index,
        {
            assert(self.has_island(islands@[index as int].value()));
            match self.island(islands[index]) {
                Some(island) => {
                    if island.revision() == u64::MAX {
                        return false;
                    }
                },
                None => {},
            }
            index = index + 1;
        }
        true
    }

    /// What has to be redone.
    pub fn invalidation(&self) -> (result: &WorldInvalidation)
        ensures
            *result == self.spec_invalidation(),
    {
        &self.invalidation
    }

    /// Forgets what had to be redone.
    pub fn clear_invalidation(&mut self)
        ensures
            final(self).spec_invalidation().topology() == Seq::<u32>::empty(),
            final(self).spec_invalidation().numerical() == Seq::<u32>::empty(),
            final(self).spec_invalidation().binding() == Seq::<u32>::empty(),
            final(self).spec_invalidation().gone() == Seq::<u32>::empty(),
            forall|network: Network, definitions: DefinitionRegistry|
                old(self).consistent(network, definitions) ==> #[trigger] final(self).consistent(
                    network,
                    definitions,
                ),
            old(self).same_but_marks(*final(self)),
    {
        self.invalidation.clear();
        proof {
            assert forall|network: Network, definitions: DefinitionRegistry|
                old(self).consistent(network, definitions) implies #[trigger] self.consistent(
                network,
                definitions,
            ) by {
                old(self).lemma_consistent(network, definitions);
                self.lemma_consistent(network, definitions);
                DerivedTopology::lemma_marks_only(*old(self), *self, network, definitions);
            }
        }
    }

    /// Whether `after` differs in its marks at most.
    pub closed spec fn same_but_marks(self, after: Self) -> bool {
        &&& after.nets == self.nets
        &&& after.wire_net_map == self.wire_net_map
        &&& after.islands == self.islands
        &&& after.net_island_map == self.net_island_map
        &&& after.device_chunks == self.device_chunks
    }

    /// Whether an island holds a component of a device.
    pub open spec fn island_of_device(
        self,
        network: Network,
        definitions: DefinitionRegistry,
        device: u32,
        island: u32,
    ) -> bool {
        exists|p: u16|
            p < partition_count(network, definitions, device)
                && #[trigger] self.component_island_spec(network, component_word(device, p))
                == island
    }

    /// The marks once the islands of the first components of a device are marked in turn: for their
    /// numbers, or for their bindings.
    pub open spec fn marks_of_device(
        self,
        network: Network,
        device: u32,
        numerical: bool,
        count: int,
    ) -> Marks
        decreases count,
    {
        if count <= 0 {
            self.spec_invalidation().marks()
        } else {
            let before = self.marks_of_device(network, device, numerical, count - 1);
            let island = self.component_island_spec(
                network,
                component_word(device, (count - 1) as u16),
            );
            if numerical {
                before.renumbered(island)
            } else {
                before.rebound(island)
            }
        }
    }

    /// Marks the islands of a device whose numbers changed.
    pub fn mark_device_numerical_dirty(
        &mut self,
        definitions: &DefinitionRegistry,
        network: &Network,
        device: DeviceId,
    )
        requires
            network_ok(*network, *definitions),
            old(self).consistent(*network, *definitions),
            network.device_live(device.value()),
        ensures
            final(self).consistent(*network, *definitions),
            old(self).same_but_marks(*final(self)),
            final(self).spec_invalidation().marks() == old(self).marks_of_device(
                *network,
                device.value(),
                true,
                partition_count(*network, *definitions, device.value()),
            ),
            final(self).spec_invalidation().gone() == old(self).spec_invalidation().gone(),
            final(self).spec_invalidation().topology() == old(self).spec_invalidation().topology(),
            final(self).spec_invalidation().binding() == old(self).spec_invalidation().binding(),
            forall|i: u32| #[trigger]
                final(self).spec_invalidation().numerical().contains(i) <==> (old(
                    self,
                ).spec_invalidation().numerical().contains(i) || (old(self).island_of_device(
                    *network,
                    *definitions,
                    device.value(),
                    i,
                ) && !old(self).spec_invalidation().topology().contains(i))),
    {
        self.mark_device(definitions, network, device, true);
    }

    /// Marks the islands of a device that has moved to another place.
    pub fn mark_device_binding_dirty(
        &mut self,
        definitions: &DefinitionRegistry,
        network: &Network,
        device: DeviceId,
    )
        requires
            network_ok(*network, *definitions),
            old(self).consistent(*network, *definitions),
            network.device_live(device.value()),
        ensures
            final(self).consistent(*network, *definitions),
            old(self).same_but_marks(*final(self)),
            final(self).spec_invalidation().marks() == old(self).marks_of_device(
                *network,
                device.value(),
                false,
                partition_count(*network, *definitions, device.value()),
            ),
            final(self).spec_invalidation().gone() == old(self).spec_invalidation().gone(),
            final(self).spec_invalidation().topology() == old(self).spec_invalidation().topology(),
            final(self).spec_invalidation().numerical() == old(
                self,
            ).spec_invalidation().numerical(),
            forall|i: u32| #[trigger]
                final(self).spec_invalidation().binding().contains(i) <==> (old(
                    self,
                ).spec_invalidation().binding().contains(i) || (old(self).island_of_device(
                    *network,
                    *definitions,
                    device.value(),
                    i,
                ) && !old(self).spec_invalidation().topology().contains(i))),
    {
        self.mark_device(definitions, network, device, false);
    }

    fn mark_device(
        &mut self,
        definitions: &DefinitionRegistry,
        network: &Network,
        device: DeviceId,
        numerical: bool,
    )
        requires
            network_ok(*network, *definitions),
            old(self).consistent(*network, *definitions),
            network.device_live(device.value()),
        ensures
            final(self).consistent(*network, *definitions),
            old(self).same_but_marks(*final(self)),
            final(self).invalidation.marks() == old(self).marks_of_device(
                *network,
                device.value(),
                numerical,
                partition_count(*network, *definitions, device.value()),
            ),
            final(self).invalidation.gone() == old(self).invalidation.gone(),
            final(self).invalidation.topology() == old(self).invalidation.topology(),
            numerical ==> final(self).invalidation.binding() == old(self).invalidation.binding(),
            !numerical ==> final(self).invalidation.numerical() == old(
                self,
            ).invalidation.numerical(),
            forall|i: u32| #[trigger]
                final(self).invalidation.numerical().contains(i) <==> (old(
                    self,
                ).invalidation.numerical().contains(i) || (numerical && old(
                    self,
                ).island_of_device(*network, *definitions, device.value(), i) && !old(
                    self,
                ).invalidation.topology().contains(i))),
            forall|i: u32| #[trigger]
                final(self).invalidation.binding().contains(i) <==> (old(
                    self,
                ).invalidation.binding().contains(i) || (!numerical && old(self).island_of_device(
                    *network,
                    *definitions,
                    device.value(),
                    i,
                ) && !old(self).invalidation.topology().contains(i))),
    {
        broadcast use {lemma_component_word, DenseIdStore::lemma_live};

        let ghost t0 = *self;
        let ghost d = device.value();
        proof {
            self.lemma_consistent(*network, *definitions);
            network.arena().lemma_wf();
            assert(network.arena().resident(d));
            network.arena().lemma_fits(*definitions, d);
            network.arena().lemma_shaped(*definitions, network.arena().chunk_of(d));
            let id = network.device_model(d).definition.value();
            assert(definitions.spec_definitions()[id - 1].wf());
        }
        let location = network.device_location(device).unwrap();
        let chunk_index: usize = location.chunk_index() as usize;
        let row: usize = location.row() as usize;
        let count: usize = self.device_chunks[chunk_index].partition_count();
        let ghost chunk = self.device_chunks@[chunk_index as int];
        let mut partition: usize = 0;
        while partition < count
            invariant
                network_ok(*network, *definitions),
                t0 == *old(self),
                d == device.value(),
                d != 0,
                network.device_live(d),
                t0.consistent_except(*network, *definitions, Set::empty()),
                t0.same_but_marks(*self),
                chunk_index == network.arena().chunk_of(d),
                row == network.arena().row_of(d),
                chunk_index < self.device_chunks@.len(),
                chunk == self.device_chunks@[chunk_index as int],
                chunk.wf(),
                row < chunk.rows(),
                count == chunk.partitions() == partition_count(*network, *definitions, d),
                count <= 0x1_0000,
                partition <= count,
                self.invalidation.wf(),
                self.invalidation.marks() == t0.marks_of_device(
                    *network,
                    d,
                    numerical,
                    partition as int,
                ),
                self.invalidation.gone() == t0.invalidation.gone(),
                self.invalidation.topology() == t0.invalidation.topology(),
                numerical ==> self.invalidation.binding() == t0.invalidation.binding(),
                !numerical ==> self.invalidation.numerical() == t0.invalidation.numerical(),
                forall|i: u32| #[trigger]
                    self.invalidation.numerical().contains(i) <==> (
                    t0.invalidation.numerical().contains(i) || (numerical && in_row(
                        chunk,
                        row as int,
                        partition as int,
                        i,
                    ) && !t0.invalidation.topology().contains(i))),
                forall|i: u32| #[trigger]
                    self.invalidation.binding().contains(i) <==> (
                    t0.invalidation.binding().contains(i) || (!numerical && in_row(
                        chunk,
                        row as int,
                        partition as int,
                        i,
                    ) && !t0.invalidation.topology().contains(i))),
            decreases count - partition,
        {
            broadcast use {lemma_component_word, DenseIdStore::lemma_live};

            let island = self.device_chunks[chunk_index].component_island(row, partition);
            let ghost before = self.invalidation;
            proof {
                let c = component_word(d, partition as u16);
                t0.lemma_component_island(*network, c);
                assert(is_component(*network, *definitions, c));
                assert(t0.component_label(*network, c) == island.value());
                assert(t0.islands@.contains_key(island.value()));
                assert(!t0.invalidation.gone().contains(island.value()));
                assert(chunk.island(row as int, partition as int) == island.value());
            }
            if numerical {
                self.invalidation.mark_numerical_dirty(island);
            } else {
                self.invalidation.mark_binding_dirty(island);
            }
            proof {
                crate::invalidation::lemma_with(before.numerical(), island.value());
                crate::invalidation::lemma_with(before.binding(), island.value());
                assert forall|i: u32| #[trigger]
                    in_row(chunk, row as int, partition + 1, i) <==> (in_row(
                        chunk,
                        row as int,
                        partition as int,
                        i,
                    ) || i == island.value()) by {
                    if in_row(chunk, row as int, partition + 1, i) {
                        let p = choose|p: int|
                            0 <= p < partition + 1 && #[trigger] chunk.island(row as int, p) == i;
                        if p < partition {
                            assert(chunk.island(row as int, p) == i);
                        }
                    }
                    if in_row(chunk, row as int, partition as int, i) {
                        let p = choose|p: int|
                            0 <= p < partition && #[trigger] chunk.island(row as int, p) == i;
                        assert(chunk.island(row as int, p) == i);
                    }
                }
            }
            partition = partition + 1;
        }
        proof {
            DerivedTopology::lemma_marks_only(t0, *self, *network, *definitions);
            self.lemma_consistent(*network, *definitions);
            assert forall|i: u32| #[trigger] t0.island_of_device(
                *network,
                *definitions,
                d,
                i,
            ) <==> in_row(chunk, row as int, count as int, i) by {
                if t0.island_of_device(*network, *definitions, d, i) {
                    let p = choose|p: u16|
                        p < partition_count(*network, *definitions, d)
                            && #[trigger] t0.component_island_spec(*network, component_word(d, p))
                            == i;
                    t0.lemma_component_island(*network, component_word(d, p));
                    assert(chunk.island(row as int, p as int) == i);
                }
                if in_row(chunk, row as int, count as int, i) {
                    let p = choose|p: int|
                        0 <= p < count && #[trigger] chunk.island(row as int, p) == i;
                    t0.lemma_component_island(*network, component_word(d, p as u16));
                    assert(t0.component_island_spec(*network, component_word(d, p as u16)) == i);
                }
            }
        }
    }
}

/// Marking leaves nets, islands, and the islands of components as they are.
pub proof fn law_marking_changes_marks_alone(
    topology: DerivedTopology,
    after: DerivedTopology,
    network: Network,
)
    requires
        topology.same_but_marks(after),
    ensures
        topology.same_but_for_marks(after, network),
        after.spec_net_slots() == topology.spec_net_slots(),
        after.spec_island_slots() == topology.spec_island_slots(),
{
    topology.lemma_model();
    after.lemma_model();
    topology.lemma_net_slots();
    after.lemma_net_slots();
    topology.lemma_island_slots();
    after.lemma_island_slots();
    assert forall|w: u32| #[trigger] after.wire_net_spec(w) == topology.wire_net_spec(w) by {
        topology.lemma_wire_net(w);
        after.lemma_wire_net(w);
    }
    assert forall|n: u32| #[trigger] after.net_island_spec(n) == topology.net_island_spec(n) by {
        assert(after.net_label(n) == topology.net_label(n));
    }
    assert forall|c: u64| #[trigger]
        after.component_island_spec(network, c) == topology.component_island_spec(network, c) by {
        topology.lemma_component_island(network, c);
        after.lemma_component_island(network, c);
    }
}

/// Two wires are in one net exactly if they are connected by wires.
pub proof fn law_nets_are_connected_wires(
    topology: DerivedTopology,
    network: Network,
    definitions: DefinitionRegistry,
    a: u32,
    b: u32,
)
    requires
        network_ok(network, definitions),
        topology.consistent(network, definitions),
        network.wire_live(a),
        network.wire_live(b),
    ensures
        topology.wire_net_spec(a) == topology.wire_net_spec(b) <==> connected(
            wire_edge(network),
            a,
            b,
        ),
{
    broadcast use group_words;

    topology.lemma_consistent(network, definitions);
    topology.lemma_wire_net(a);
    topology.lemma_wire_net(b);
    if connected(wire_edge(network), a, b) {
        let within = |w: u32| topology.net_of(w) == topology.net_of(a);
        assert forall|u: u32, v: u32| within(u) && #[trigger] wire_edge(network)(u, v) implies
            within(v) && wire_edge(network)(u, v) by {
            assert(network.linked(wire_word(u), wire_word(v)));
        }
        lemma_connected_within(wire_edge(network), wire_edge(network), within, a, b);
    }
}

/// What is connected is in one island.
proof fn lemma_one_island(
    topology: DerivedTopology,
    network: Network,
    definitions: DefinitionRegistry,
    from: Vertex,
    to: Vertex,
    island: u32,
)
    requires
        topology.consistent_except(network, definitions, Set::empty()),
        connected(vertex_edge(network, definitions), from, to),
        match from {
            Vertex::Wire(w) => topology.net_label(topology.net_of(w)) == island,
            Vertex::Component(c) => topology.component_label(network, c) == island,
        },
    ensures
        match to {
            Vertex::Wire(w) => topology.net_label(topology.net_of(w)) == island,
            Vertex::Component(c) => topology.component_label(network, c) == island,
        },
{
    let edge = vertex_edge(network, definitions);
    let within = |v: Vertex|
        match v {
            Vertex::Wire(w) => topology.net_label(topology.net_of(w)) == island,
            Vertex::Component(c) => topology.component_label(network, c) == island,
        };
    assert forall|u: Vertex, v: Vertex| within(u) && #[trigger] edge(u, v) implies within(v)
        && edge(u, v) by {
        let (x, y) = choose|x: u64, y: u64| #[trigger]
            network.linked(x, y) && vertex_of(network, definitions, x) == u && vertex_of(
                network,
                definitions,
                y,
            ) == v;
        assert(topology.label(network, definitions, x) == topology.label(network, definitions, y));
    }
    lemma_connected_within(edge, edge, within, from, to);
}

/// Two device components are in one island exactly if they are connected through wires and other
/// components.
pub proof fn law_islands_are_connected_components(
    topology: DerivedTopology,
    network: Network,
    definitions: DefinitionRegistry,
    a: u64,
    b: u64,
)
    requires
        network_ok(network, definitions),
        topology.consistent(network, definitions),
        is_component(network, definitions, a),
        is_component(network, definitions, b),
    ensures
        topology.component_island_spec(network, a) == topology.component_island_spec(network, b)
            <==> connected(
            vertex_edge(network, definitions),
            Vertex::Component(a),
            Vertex::Component(b),
        ),
{
    topology.lemma_consistent(network, definitions);
    if connected(vertex_edge(network, definitions), Vertex::Component(a), Vertex::Component(b)) {
        lemma_one_island(
            topology,
            network,
            definitions,
            Vertex::Component(a),
            Vertex::Component(b),
            topology.component_label(network, a),
        );
    } else if topology.component_island_spec(network, a) == topology.component_island_spec(
        network,
        b,
    ) {
        assert(topology.component_label(network, a) == topology.component_label(network, b));
    }
}

/// A wire is in an island exactly if it is connected to a component of it, and in none exactly if it
/// is connected to no component.
pub proof fn law_wire_islands(
    topology: DerivedTopology,
    network: Network,
    definitions: DefinitionRegistry,
    wire: u32,
)
    requires
        network_ok(network, definitions),
        topology.consistent(network, definitions),
        network.wire_live(wire),
    ensures
        topology.net_island_spec(topology.wire_net_spec(wire)) == 0 <==> !exists|c: u64| #[trigger]
            is_component(network, definitions, c) && connected(
                vertex_edge(network, definitions),
                Vertex::Wire(wire),
                Vertex::Component(c),
            ),
        forall|c: u64| #[trigger]
            is_component(network, definitions, c) && connected(
                vertex_edge(network, definitions),
                Vertex::Wire(wire),
                Vertex::Component(c),
            ) ==> topology.component_island_spec(network, c) == topology.net_island_spec(
                topology.wire_net_spec(wire),
            ),
{
    broadcast use DenseIdStore::lemma_live;

    topology.lemma_consistent(network, definitions);
    topology.lemma_wire_net(wire);
    let edge = vertex_edge(network, definitions);
    let net = topology.net_of(wire);
    let island = topology.net_label(net);
    assert forall|c: u64| #[trigger]
        is_component(network, definitions, c) && connected(
            edge,
            Vertex::Wire(wire),
            Vertex::Component(c),
        ) implies topology.component_label(network, c) == island && island != 0 by {
        lemma_one_island(
            topology,
            network,
            definitions,
            Vertex::Wire(wire),
            Vertex::Component(c),
            island,
        );
        assert(topology.islands@.contains_key(topology.component_label(network, c)));
    }
    if island != 0 {
        assert(topology.nets@.contains_key(net));
        assert(topology.net_lists(network, definitions, net));
        let x = topology.nets@[net].terminals@[0];
        assert(topology.nets@[net].terminals@.contains(x));
        assert(topology.attached(network, x, net));
        let y = choose|y: u64| #[trigger]
            network.linked(x, y) && !is_terminal_word(y) && topology.net_of(word_id(y)) == net;
        assert(network.linked(y, x));
        lemma_linked_live(network, definitions, x, y);
        lemma_linked_live(network, definitions, y, x);
        let w = word_id(y);
        let c = component_of(network, definitions, x);
        assert(topology.net_of(wire) == topology.net_of(w));
        assert(connected(wire_edge(network), wire, w));
        lemma_wires_connected(network, definitions, wire, w);
        assert(vertex_of(network, definitions, y) == Vertex::Wire(w));
        assert(vertex_of(network, definitions, x) == Vertex::Component(c));
        assert(edge(Vertex::Wire(w), Vertex::Component(c)));
        lemma_connected_edge(edge, Vertex::Wire(w), Vertex::Component(c));
        lemma_connected_trans(edge, Vertex::Wire(wire), Vertex::Wire(w), Vertex::Component(c));
        assert(is_component(network, definitions, c));
    }
}

/// Following a network step by step gives the nets and islands that deriving them anew gives, up to
/// the identifiers: two topologies of one network agree on which wires share a net, which
/// components share an island, and which wires are in no island.
pub proof fn law_topologies_agree(
    one: DerivedTopology,
    other: DerivedTopology,
    network: Network,
    definitions: DefinitionRegistry,
)
    requires
        network_ok(network, definitions),
        one.consistent(network, definitions),
        other.consistent(network, definitions),
    ensures
        forall|a: u32, b: u32|
            #![trigger one.wire_net_spec(a), one.wire_net_spec(b)]
            network.wire_live(a) && network.wire_live(b) ==> ((one.wire_net_spec(a)
                == one.wire_net_spec(b)) == (other.wire_net_spec(a) == other.wire_net_spec(b))),
        forall|a: u64, b: u64|
            #![trigger is_component(network, definitions, a), is_component(network, definitions, b)]
            is_component(network, definitions, a) && is_component(network, definitions, b) ==> ((
            one.component_island_spec(network, a) == one.component_island_spec(network, b)) == (
            other.component_island_spec(network, a) == other.component_island_spec(network, b))),
        forall|w: u32| #[trigger]
            network.wire_live(w) ==> ((one.net_island_spec(one.wire_net_spec(w)) == 0) == (
            other.net_island_spec(other.wire_net_spec(w)) == 0)),
{
    assert forall|a: u32, b: u32|
        #![trigger one.wire_net_spec(a), one.wire_net_spec(b)]
        network.wire_live(a) && network.wire_live(b) implies ((one.wire_net_spec(a)
        == one.wire_net_spec(b)) == (other.wire_net_spec(a) == other.wire_net_spec(b))) by {
        law_nets_are_connected_wires(one, network, definitions, a, b);
        law_nets_are_connected_wires(other, network, definitions, a, b);
    }
    assert forall|a: u64, b: u64|
        #![trigger is_component(network, definitions, a), is_component(network, definitions, b)]
        is_component(network, definitions, a) && is_component(network, definitions, b) implies ((
    one.component_island_spec(network, a) == one.component_island_spec(network, b)) == (
    other.component_island_spec(network, a) == other.component_island_spec(network, b))) by {
        law_islands_are_connected_components(one, network, definitions, a, b);
        law_islands_are_connected_components(other, network, definitions, a, b);
    }
    assert forall|w: u32| #[trigger] network.wire_live(w) implies ((one.net_island_spec(
        one.wire_net_spec(w),
    ) == 0) == (other.net_island_spec(other.wire_net_spec(w)) == 0)) by {
        law_wire_islands(one, network, definitions, w);
        law_wire_islands(other, network, definitions, w);
    }
}

/// The lists of a topology agree with its maps: a wire is on the list of its net, a component on the
/// list of its island, and every island holds a component.
pub proof fn law_lists_agree(
    topology: DerivedTopology,
    network: Network,
    definitions: DefinitionRegistry,
)
    requires
        topology.consistent(network, definitions),
    ensures
        forall|w: u32, n: u32| #[trigger]
            topology.net_at(n).spec_wires().contains(w) && topology.has_net(n)
                ==> network.wire_live(w) && topology.wire_net_spec(w) == n,
        forall|w: u32| #[trigger]
            network.wire_live(w) ==> topology.has_net(topology.wire_net_spec(w))
                && topology.net_at(topology.wire_net_spec(w)).spec_wires().contains(w),
        forall|c: u64| #[trigger]
            is_component(network, definitions, c) ==> topology.has_island(
                topology.component_island_spec(network, c),
            ) && topology.island_at(
                topology.component_island_spec(network, c),
            ).spec_components().contains(c),
        forall|i: u32, c: u64| #[trigger]
            topology.island_at(i).spec_components().contains(c) && topology.has_island(i)
                ==> is_component(network, definitions, c) && topology.component_island_spec(
                network,
                c,
            ) == i,
        forall|i: u32| #[trigger]
            topology.has_island(i) ==> topology.island_at(i).spec_components().len() > 0,
{
    topology.lemma_consistent(network, definitions);
    assert forall|w: u32| #[trigger] topology.wire_net_spec(w) == topology.net_of(w) by {
        topology.lemma_wire_net(w);
    }
    assert forall|n: u32| #[trigger] topology.net_at(n).spec_wires()
        == topology.nets@[n].wires@ by {
        topology.nets@[n].lemma_lists();
    }
    assert forall|i: u32| #[trigger] topology.island_at(i).spec_components()
        == topology.islands@[i].components@ by {
        topology.islands@[i].lemma_list();
    }
    assert forall|w: u32, n: u32| #[trigger]
        topology.net_at(n).spec_wires().contains(w) && topology.has_net(n) implies
        network.wire_live(w) && topology.wire_net_spec(w) == n by {
        assert(topology.nets@.contains_key(n));
        assert(topology.nets@[n].wires@.contains(w));
    }
    assert forall|i: u32, c: u64| #[trigger]
        topology.island_at(i).spec_components().contains(c) && topology.has_island(i) implies
        is_component(network, definitions, c) && topology.component_island_spec(network, c) == i by {
        assert(topology.islands@.contains_key(i));
        assert(topology.islands@[i].components@.contains(c));
    }
    assert forall|i: u32| #[trigger] topology.has_island(i) implies topology.island_at(
        i,
    ).spec_components().len() > 0 by {
        assert(topology.islands@.contains_key(i));
    }
}

/// Whether a list holds the terminals that are attached to the wires of a net, each once.
pub open spec fn lists_terminals(
    topology: DerivedTopology,
    network: Network,
    net: u32,
    terminals: Seq<u64>,
) -> bool {
    &&& terminals.no_duplicates()
    &&& forall|x: u64| #[trigger]
        terminals.contains(x) <==> is_terminal_word(x) && exists|y: u64| #[trigger]
            network.linked(x, y) && !is_terminal_word(y) && topology.wire_net_spec(word_id(y))
                == net
}

/// A net lists one component for each terminal that is attached to one of its wires.
pub proof fn law_nets_list_attached_components(
    topology: DerivedTopology,
    network: Network,
    definitions: DefinitionRegistry,
    net: u32,
)
    requires
        topology.consistent(network, definitions),
        topology.has_net(net),
    ensures
        exists|terminals: Seq<u64>| #[trigger]
            lists_terminals(topology, network, net, terminals) && topology.net_at(
                net,
            ).spec_components() == terminals.map_values(
                |x: u64| component_of(network, definitions, x),
            ),
{
    topology.lemma_consistent(network, definitions);
    let model = topology.nets@[net];
    let terminals = model.terminals@;
    model.lemma_lists();
    assert(topology.net_lists(network, definitions, net));
    assert forall|w: u32| #[trigger] topology.wire_net_spec(w) == topology.net_of(w) by {
        topology.lemma_wire_net(w);
    }
    assert forall|x: u64| #[trigger] terminals.contains(x) <==> is_terminal_word(x) && exists|
        y: u64,
    | #[trigger]
        network.linked(x, y) && !is_terminal_word(y) && topology.wire_net_spec(word_id(y))
            == net by {
        assert(terminals.contains(x) <==> topology.attached(network, x, net));
        if topology.attached(network, x, net) {
            let y = choose|y: u64| #[trigger]
                network.linked(x, y) && !is_terminal_word(y) && topology.net_of(word_id(y)) == net;
            assert(topology.wire_net_spec(word_id(y)) == net);
        }
    }
    assert(topology.net_at(net).spec_components() =~= terminals.map_values(
        |x: u64| component_of(network, definitions, x),
    ));
    assert(lists_terminals(topology, network, net, terminals));
}

} // verus!
