//! The topology derived from a network: which wires form nets, and which nets and device components
//! form islands.

use crate::connection::{
    component_device, component_partition, component_word, is_terminal_word, lemma_component_word,
    wire_word, word_id, word_terminal, DeviceComponent,
};
use crate::dense_store::DenseIdStore;
use crate::device_topology::DeviceTopologyChunk;
use crate::graph::connected;
use crate::island_traversal::{component_slot, lemma_component_place};
use crate::ids::{DeviceId, IslandId, TerminalId, TerminalPartitionId, MAX_PACKED_ID};
use crate::invalidation::WorldInvalidation;
use crate::network::Network;
use crate::registry::DefinitionRegistry;
use crate::small_list::{IdList, WordList};
use vstd::prelude::*;

verus! {

/// Wires that are connected to one another, and the device components attached to them.
pub struct Net {
    pub(crate) wires: IdList,
    /// For each attached terminal, the component that it belongs to.
    pub(crate) terminal_components: WordList,
    /// The attached terminals, packed, in the order of their components.
    pub(crate) terminals: Ghost<Seq<u64>>,
}

impl Net {
    /// The numbers of the wires.
    pub closed spec fn spec_wires(self) -> Seq<u32> {
        self.wires@
    }

    /// The components of the attached terminals, packed.
    pub closed spec fn spec_components(self) -> Seq<u64> {
        self.terminal_components@
    }

    pub(crate) proof fn lemma_lists(self)
        ensures
            self.spec_wires() == self.wires@,
            self.spec_components() == self.terminal_components@,
    {
    }

    /// The numbers of the wires.
    pub fn wires(&self) -> (result: &IdList)
        ensures
            result@ == self.spec_wires(),
    {
        &self.wires
    }

    /// The components of the attached terminals, one for each terminal.
    pub fn terminal_components(&self) -> (result: Vec<DeviceComponent>)
        requires
            forall|i: int|
                0 <= i < self.spec_components().len() ==> is_component_word(
                    #[trigger] self.spec_components()[i],
                ),
        ensures
            result@.len() == self.spec_components().len(),
            forall|i: int|
                0 <= i < result@.len() ==> (#[trigger] result@[i]).word()
                    == self.spec_components()[i],
    {
        assert forall|i: int|
            0 <= i < self.terminal_components@.len() implies is_component_word(
            #[trigger] self.terminal_components@[i],
        ) by {
            assert(is_component_word(self.spec_components()[i]));
        }
        components_of(&self.terminal_components)
    }
}

/// Device components that are connected to one another.
#[derive(Debug)]
pub struct IslandTopology {
    pub(crate) components: WordList,
    pub(crate) revision: u64,
}

impl IslandTopology {
    /// The components, packed.
    pub closed spec fn spec_components(self) -> Seq<u64> {
        self.components@
    }

    /// How often the island has changed.
    pub closed spec fn spec_revision(self) -> u64 {
        self.revision
    }

    pub(crate) proof fn lemma_list(self)
        ensures
            self.spec_components() == self.components@,
            self.spec_revision() == self.revision,
    {
    }

    pub fn components(&self) -> (result: Vec<DeviceComponent>)
        requires
            forall|i: int|
                0 <= i < self.spec_components().len() ==> is_component_word(
                    #[trigger] self.spec_components()[i],
                ),
        ensures
            result@.len() == self.spec_components().len(),
            forall|i: int|
                0 <= i < result@.len() ==> (#[trigger] result@[i]).word()
                    == self.spec_components()[i],
    {
        assert forall|i: int| 0 <= i < self.components@.len() implies is_component_word(
            #[trigger] self.components@[i],
        ) by {
            assert(is_component_word(self.spec_components()[i]));
        }
        components_of(&self.components)
    }

    pub fn revision(&self) -> (result: u64)
        ensures
            result == self.spec_revision(),
    {
        self.revision
    }
}

/// Whether a word is the packed form of some component.
pub open spec fn is_component_word(word: u64) -> bool {
    component_device(word) != 0 && word == component_word(
        component_device(word),
        component_partition(word),
    )
}

fn components_of(list: &WordList) -> (result: Vec<DeviceComponent>)
    requires
        forall|i: int| 0 <= i < list@.len() ==> is_component_word(#[trigger] list@[i]),
    ensures
        result@.len() == list@.len(),
        forall|i: int| 0 <= i < result@.len() ==> (#[trigger] result@[i]).word() == list@[i],
{
    let mut components: Vec<DeviceComponent> = Vec::new();
    let mut index: usize = 0;
    while index < list.len()
        invariant
            index <= list@.len(),
            forall|i: int| 0 <= i < list@.len() ==> is_component_word(#[trigger] list@[i]),
            components@.len() == index,
            forall|i: int| 0 <= i < index ==> (#[trigger] components@[i]).word() == list@[i],
        decreases list@.len() - index,
    {
        assert(is_component_word(list@[index as int]));
        components.push(DeviceComponent::from_word(list.get(index)));
        index = index + 1;
    }
    components
}

/// A vertex of the graph that the islands are the components of.
pub enum Vertex {
    Wire(u32),
    Component(u64),
}

/// The number of partitions of a device's terminals.
pub open spec fn partition_count(network: Network, definitions: DefinitionRegistry, device: u32) -> int {
    definitions.definition(network.device_model(device).definition.value()).spec_partition_count()
}

/// The partition that a terminal of a device belongs to.
pub open spec fn terminal_partition(
    network: Network,
    definitions: DefinitionRegistry,
    device: u32,
    terminal: int,
) -> u16 {
    definitions.definition(
        network.device_model(device).definition.value(),
    ).spec_partitions()[terminal] as u16
}

/// The component, packed, that a packed terminal belongs to.
pub open spec fn component_of(network: Network, definitions: DefinitionRegistry, terminal: u64) -> u64 {
    component_word(
        word_id(terminal),
        terminal_partition(
            network,
            definitions,
            word_id(terminal),
            word_terminal(terminal) as int,
        ),
    )
}

/// Whether a packed component belongs to a device of the network.
pub open spec fn is_component(network: Network, definitions: DefinitionRegistry, component: u64) -> bool {
    let device = component_device(component);
    &&& is_component_word(component)
    &&& network.device_live(device)
    &&& component_partition(component) < partition_count(network, definitions, device)
}

/// The vertex that a packed wire or terminal stands for.
pub open spec fn vertex_of(network: Network, definitions: DefinitionRegistry, word: u64) -> Vertex {
    if is_terminal_word(word) {
        Vertex::Component(component_of(network, definitions, word))
    } else {
        Vertex::Wire(word_id(word))
    }
}

/// Whether two wires are connected directly.
pub open spec fn wire_edge(network: Network) -> spec_fn(u32, u32) -> bool {
    |a: u32, b: u32| network.linked(wire_word(a), wire_word(b))
}

/// Whether a connection leads from one wire or component to another.
pub open spec fn vertex_linked(
    network: Network,
    definitions: DefinitionRegistry,
    a: Vertex,
    b: Vertex,
) -> bool {
    exists|x: u64, y: u64| #[trigger]
        network.linked(x, y) && vertex_of(network, definitions, x) == a && vertex_of(
            network,
            definitions,
            y,
        ) == b
}

/// The graph of wires and components.
pub open spec fn vertex_edge(network: Network, definitions: DefinitionRegistry) -> spec_fn(
    Vertex,
    Vertex,
) -> bool {
    |a: Vertex, b: Vertex| vertex_linked(network, definitions, a, b)
}

/// Nets and islands, with the maps from wires to nets, from nets to islands and from components to
/// islands. A zero in a map stands for none.
pub struct DerivedTopology {
    pub(crate) nets: DenseIdStore<Net>,
    pub(crate) wire_net_map: Vec<u32>,
    pub(crate) islands: DenseIdStore<IslandTopology>,
    pub(crate) net_island_map: Vec<u32>,
    pub(crate) device_chunks: Vec<DeviceTopologyChunk>,
    pub(crate) invalidation: WorldInvalidation,
}

impl DerivedTopology {
    /// The net of a wire, or zero.
    pub(crate) open spec fn net_of(self, wire: u32) -> u32 {
        if 1 <= wire <= self.wire_net_map@.len() {
            self.wire_net_map@[wire - 1]
        } else {
            0
        }
    }

    /// The island of a net, or zero.
    pub(crate) open spec fn net_label(self, net: u32) -> u32 {
        if 1 <= net <= self.net_island_map@.len() {
            self.net_island_map@[net - 1]
        } else {
            0
        }
    }

    /// The island of a component of a device of the network.
    pub(crate) open spec fn component_label(self, network: Network, component: u64) -> u32 {
        let device = component_device(component);
        self.device_chunks@[network.arena().chunk_of(device)].island(
            network.arena().row_of(device),
            component_partition(component) as int,
        )
    }

    /// The island of a packed component of a device of the network.
    pub closed spec fn component_island_spec(self, network: Network, component: u64) -> u32 {
        self.component_label(network, component)
    }

    pub(crate) proof fn lemma_component_island(self, network: Network, component: u64)
        ensures
            self.component_island_spec(network, component) == self.component_label(
                network,
                component,
            ),
    {
    }

    /// The island of a packed wire or terminal, or zero.
    pub(crate) open spec fn label(
        self,
        network: Network,
        definitions: DefinitionRegistry,
        word: u64,
    ) -> u32 {
        if is_terminal_word(word) {
            self.component_label(network, component_of(network, definitions, word))
        } else {
            self.net_label(self.net_of(word_id(word)))
        }
    }

    /// Maps and sidecars have the sizes of what they mirror.
    pub(crate) open spec fn structure_ok(
        self,
        network: Network,
        definitions: DefinitionRegistry,
    ) -> bool {
        &&& self.nets.wf()
        &&& self.islands.wf()
        &&& self.invalidation.wf()
        &&& self.wire_net_map@.len() == network.wire_slots()
        &&& self.net_island_map@.len() == self.nets.spec_slot_count()
        &&& self.nets.spec_slot_count() <= MAX_PACKED_ID
        &&& self.device_chunks@.len() == network.arena().spec_chunk_count()
        &&& forall|c: int|
            0 <= c < self.device_chunks@.len() ==> {
                let chunk = #[trigger] self.device_chunks@[c];
                &&& chunk.wf()
                &&& chunk.rows() == network.arena().rows(c)
                &&& chunk.partitions() == definitions.definition(
                    network.arena().spec_chunk_definition(c).value(),
                ).spec_partition_count()
            }
        &&& forall|i: u32| #[trigger]
            self.invalidation.gone().contains(i) ==> !self.islands@.contains_key(i) && i
                <= self.islands.spec_slot_count()
    }

    /// Wires and nets point at each other; every net holds a wire.
    pub(crate) open spec fn wires_ok(self, network: Network) -> bool {
        &&& forall|w: u32| #[trigger]
            network.wire_live(w) ==> self.nets@.contains_key(self.net_of(w)) && self.nets@[self.net_of(
                w,
            )].wires@.contains(w)
        &&& forall|w: u32| !network.wire_live(w) ==> #[trigger] self.net_of(w) == 0
        &&& forall|n: u32| #[trigger]
            self.nets@.contains_key(n) ==> {
                &&& self.nets@[n].wires@.len() > 0
                &&& self.nets@[n].wires@.no_duplicates()
                &&& forall|w: u32| #[trigger]
                    self.nets@[n].wires@.contains(w) ==> network.wire_live(w) && self.net_of(w) == n
            }
    }

    /// Whether a packed terminal is attached to a wire of a net.
    pub(crate) open spec fn attached(self, network: Network, terminal: u64, net: u32) -> bool {
        is_terminal_word(terminal) && exists|y: u64| #[trigger]
            network.linked(terminal, y) && !is_terminal_word(y) && self.net_of(word_id(y)) == net
    }

    /// A net lists each attached terminal once, by its component.
    pub(crate) open spec fn net_lists(
        self,
        network: Network,
        definitions: DefinitionRegistry,
        net: u32,
    ) -> bool {
        let model = self.nets@[net];
        &&& model.terminals@.no_duplicates()
        &&& model.terminals@.len() == model.terminal_components@.len()
        &&& forall|i: int|
            0 <= i < model.terminals@.len() ==> #[trigger] model.terminal_components@[i]
                == component_of(network, definitions, model.terminals@[i])
        &&& forall|x: u64| #[trigger]
            model.terminals@.contains(x) <==> self.attached(network, x, net)
    }

    pub(crate) open spec fn nets_list(
        self,
        network: Network,
        definitions: DefinitionRegistry,
    ) -> bool {
        forall|n: u32| #[trigger]
            self.nets@.contains_key(n) ==> self.net_lists(network, definitions, n)
    }

    /// A net belongs to an island exactly if something is attached to it. In a broken island, nets
    /// may be left without attachments.
    pub(crate) open spec fn net_labels_ok(self, broken: Set<u32>) -> bool {
        &&& forall|n: u32| #[trigger]
            self.nets@.contains_key(n) ==> {
                &&& self.net_label(n) != 0 ==> self.islands@.contains_key(self.net_label(n))
                &&& self.net_label(n) == 0 ==> self.nets@[n].terminals@.len() == 0
                &&& self.net_label(n) != 0 && !broken.contains(self.net_label(n))
                    ==> self.nets@[n].terminals@.len() > 0
            }
        &&& forall|n: u32| !self.nets@.contains_key(n) ==> #[trigger] self.net_label(n) == 0
    }

    /// Components and islands point at each other; every island that is not broken holds one.
    pub(crate) open spec fn components_ok(
        self,
        network: Network,
        definitions: DefinitionRegistry,
        broken: Set<u32>,
    ) -> bool {
        &&& forall|c: u64| #[trigger]
            is_component(network, definitions, c) ==> {
                let island = self.component_label(network, c);
                self.islands@.contains_key(island) && self.islands@[island].components@.contains(c)
            }
        &&& forall|i: u32| #[trigger]
            self.islands@.contains_key(i) ==> {
                &&& !broken.contains(i) ==> self.islands@[i].components@.len() > 0
                &&& self.islands@[i].components@.no_duplicates()
                &&& forall|c: u64| #[trigger]
                    self.islands@[i].components@.contains(c) ==> is_component(
                        network,
                        definitions,
                        c,
                    ) && self.component_label(network, c) == i
            }
    }

    /// What is connected has one net and one island.
    pub(crate) open spec fn closed_ok(
        self,
        network: Network,
        definitions: DefinitionRegistry,
    ) -> bool {
        forall|x: u64, y: u64| #[trigger]
            network.linked(x, y) ==> {
                &&& self.label(network, definitions, x) == self.label(network, definitions, y)
                &&& !is_terminal_word(x) && !is_terminal_word(y) ==> self.net_of(word_id(x))
                    == self.net_of(word_id(y))
            }
    }

    /// The wires of a net are connected.
    pub(crate) open spec fn nets_connected(self, network: Network) -> bool {
        forall|a: u32, b: u32|
            #![trigger self.net_of(a), self.net_of(b)]
            network.wire_live(a) && network.wire_live(b) && self.net_of(a) == self.net_of(b)
                ==> connected(wire_edge(network), a, b)
    }

    /// The components of an island that is not broken are connected.
    pub(crate) open spec fn islands_connected(
        self,
        network: Network,
        definitions: DefinitionRegistry,
        broken: Set<u32>,
    ) -> bool {
        forall|a: u64, b: u64|
            #![trigger self.component_label(network, a), self.component_label(network, b)]
            is_component(network, definitions, a) && is_component(network, definitions, b)
                && self.component_label(network, a) == self.component_label(network, b)
                && !broken.contains(self.component_label(network, a)) ==> connected(
                vertex_edge(network, definitions),
                Vertex::Component(a),
                Vertex::Component(b),
            )
    }

    /// The topology is that of the network, up to the islands that are broken.
    pub(crate) open spec fn consistent_except(
        self,
        network: Network,
        definitions: DefinitionRegistry,
        broken: Set<u32>,
    ) -> bool {
        &&& self.structure_ok(network, definitions)
        &&& self.wires_ok(network)
        &&& self.nets_list(network, definitions)
        &&& self.net_labels_ok(broken)
        &&& self.components_ok(network, definitions, broken)
        &&& self.closed_ok(network, definitions)
        &&& self.nets_connected(network)
        &&& self.islands_connected(network, definitions, broken)
    }

    /// The topology is that of the network.
    pub closed spec fn consistent(self, network: Network, definitions: DefinitionRegistry) -> bool {
        self.consistent_except(network, definitions, Set::empty())
    }

    pub(crate) proof fn lemma_consistent(self, network: Network, definitions: DefinitionRegistry)
        ensures
            self.consistent(network, definitions) == self.consistent_except(
                network,
                definitions,
                Set::empty(),
            ),
            forall|c: u64|
                #![trigger self.component_island_spec(network, c)]
                self.component_island_spec(network, c) == self.component_label(network, c),
    {
    }

    /// Identifiers and revisions are left for the repair of any net and any island.
    pub closed spec fn has_room(self) -> bool {
        &&& forall|i: u32| #[trigger] self.islands@.contains_key(i) ==> self.room_to_split(i)
        &&& forall|n: u32| #[trigger]
            self.nets@.contains_key(n) ==> self.nets.spec_slot_count() + self.nets@[n].wires@.len()
                <= MAX_PACKED_ID
    }

    /// Whether identifiers and revisions are left for the repair of any net and any island.
    pub fn has_room_left(&self) -> (result: bool)
        requires
            exists|network: Network, definitions: DefinitionRegistry| #[trigger]
                self.consistent(network, definitions),
        ensures
            result == self.has_room(),
    {
        broadcast use DenseIdStore::lemma_live;

        let islands = self.islands.ids();
        let island_slots: usize = self.islands.slot_count();
        let mut index: usize = 0;
        while index < islands.len()
            invariant
                index <= islands@.len(),
                island_slots == self.islands.spec_slot_count(),
                self.islands.wf(),
                forall|i: u32| #[trigger] islands@.contains(i) <==> self.islands@.contains_key(i),
                forall|k: int|
                    0 <= k < index ==> self.room_to_split(#[trigger] islands@[k]),
            decreases islands@.len() - index,
        {
            assert(islands@.contains(islands@[index as int]));
            let island = self.islands.get(islands[index]).unwrap();
            if island.revision == u64::MAX || island_slots > u32::MAX as usize
                || island.components.len() > u32::MAX as usize - island_slots {
                return false;
            }
            index = index + 1;
        }
        let nets = self.nets.ids();
        let net_slots: usize = self.nets.slot_count();
        let mut position: usize = 0;
        while position < nets.len()
            invariant
                position <= nets@.len(),
                net_slots == self.nets.spec_slot_count(),
                self.nets.wf(),
                forall|i: u32| #[trigger] islands@.contains(i) <==> self.islands@.contains_key(i),
                forall|k: int|
                    0 <= k < islands@.len() ==> self.room_to_split(#[trigger] islands@[k]),
                forall|n: u32| #[trigger] nets@.contains(n) <==> self.nets@.contains_key(n),
                forall|k: int|
                    0 <= k < position ==> net_slots + self.nets@[#[trigger] nets@[k]].wires@.len()
                        <= MAX_PACKED_ID,
            decreases nets@.len() - position,
        {
            assert(nets@.contains(nets@[position as int]));
            let net = self.nets.get(nets[position]).unwrap();
            if net_slots > MAX_PACKED_ID as usize || net.wires.len() > MAX_PACKED_ID as usize
                - net_slots {
                return false;
            }
            position = position + 1;
        }
        proof {
            assert forall|i: u32| #[trigger] self.islands@.contains_key(
                i,
            ) implies self.room_to_split(i) by {
                assert(islands@.contains(i));
                let k = choose|k: int| 0 <= k < islands@.len() && islands@[k] == i;
                assert(self.room_to_split(islands@[k]));
            }
            assert forall|n: u32| #[trigger] self.nets@.contains_key(n) implies
                self.nets.spec_slot_count() + self.nets@[n].wires@.len() <= MAX_PACKED_ID by {
                assert(nets@.contains(n));
                let k = choose|k: int| 0 <= k < nets@.len() && nets@[k] == n;
                assert(net_slots + self.nets@[nets@[k]].wires@.len() <= MAX_PACKED_ID);
            }
        }
        true
    }

    pub(crate) open spec fn room_to_split(self, island: u32) -> bool {
        &&& self.islands@[island].revision < u64::MAX
        &&& self.islands.spec_slot_count() + self.islands@[island].components@.len() <= u32::MAX
    }

    pub(crate) proof fn lemma_room(self)
        requires
            self.has_room(),
        ensures
            forall|i: u32| #[trigger] self.islands@.contains_key(i) ==> self.room_to_split(i),
            forall|n: u32| #[trigger]
                self.nets@.contains_key(n) ==> self.nets.spec_slot_count()
                    + self.nets@[n].wires@.len() <= MAX_PACKED_ID,
    {
    }

    /// Whether nothing has ever been in the topology.
    pub closed spec fn is_new(self) -> bool {
        &&& self.nets.wf()
        &&& self.nets.spec_slot_count() == 0
        &&& self.nets@ == Map::<u32, Net>::empty()
        &&& self.wire_net_map@ == Seq::<u32>::empty()
        &&& self.islands.wf()
        &&& self.islands.spec_slot_count() == 0
        &&& self.islands@ == Map::<u32, IslandTopology>::empty()
        &&& self.islands.dense_order() == Seq::<u32>::empty()
        &&& self.net_island_map@ == Seq::<u32>::empty()
        &&& self.device_chunks@ == Seq::<DeviceTopologyChunk>::empty()
        &&& self.invalidation.wf()
        &&& self.invalidation.topology() == Seq::<u32>::empty()
        &&& self.invalidation.numerical() == Seq::<u32>::empty()
        &&& self.invalidation.binding() == Seq::<u32>::empty()
        &&& self.invalidation.gone() == Seq::<u32>::empty()
    }

    pub(crate) proof fn lemma_new(self)
        requires
            self.is_new(),
        ensures
            self.nets.wf(),
            self.nets.spec_slot_count() == 0,
            self.nets@ == Map::<u32, Net>::empty(),
            self.wire_net_map@ == Seq::<u32>::empty(),
            self.islands.wf(),
            self.islands.spec_slot_count() == 0,
            self.islands@ == Map::<u32, IslandTopology>::empty(),
            self.islands.dense_order() == Seq::<u32>::empty(),
            self.net_island_map@ == Seq::<u32>::empty(),
            self.device_chunks@ == Seq::<DeviceTopologyChunk>::empty(),
            self.invalidation.wf(),
            self.invalidation.gone() == Seq::<u32>::empty(),
    {
    }

    /// Whether every island is marked for its topology, once and in the order in which the islands
    /// are kept, and nothing else is marked.
    pub open spec fn all_marked(self) -> bool {
        let marks = self.spec_invalidation();
        &&& marks.topology() == self.island_order()
        &&& marks.topology().no_duplicates()
        &&& forall|i: u32| #[trigger] marks.topology().contains(i) <==> self.has_island(i)
        &&& marks.numerical() == Seq::<u32>::empty()
        &&& marks.binding() == Seq::<u32>::empty()
        &&& marks.gone() == Seq::<u32>::empty()
    }

    /// Marks every island for its topology, and nothing else.
    pub(crate) fn mark_all(&mut self)
        requires
            old(self).islands.wf(),
        ensures
            final(self).all_marked(),
            final(self).invalidation.wf(),
            final(self).nets == old(self).nets,
            final(self).wire_net_map == old(self).wire_net_map,
            final(self).islands == old(self).islands,
            final(self).net_island_map == old(self).net_island_map,
            final(self).device_chunks == old(self).device_chunks,
            forall|network: Network, definitions: DefinitionRegistry|
                old(self).consistent_except(network, definitions, Set::empty())
                    ==> #[trigger] final(self).consistent_except(
                    network,
                    definitions,
                    Set::empty(),
                ),
    {
        self.invalidation.clear();
        let live = self.islands.ids();
        let mut index: usize = 0;
        while index < live.len()
            invariant
                index <= live@.len(),
                self.nets == old(self).nets,
                self.wire_net_map == old(self).wire_net_map,
                self.islands == old(self).islands,
                self.net_island_map == old(self).net_island_map,
                self.device_chunks == old(self).device_chunks,
                self.invalidation.wf(),
                self.invalidation.topology() == live@.take(index as int),
                live@.no_duplicates(),
                self.invalidation.numerical() == Seq::<u32>::empty(),
                self.invalidation.binding() == Seq::<u32>::empty(),
                self.invalidation.gone() == Seq::<u32>::empty(),
                forall|i: u32| #[trigger] live@.contains(i) ==> self.islands@.contains_key(i),
            decreases live@.len() - index,
        {
            broadcast use DenseIdStore::lemma_live;

            let island: u32 = live[index];
            let ghost before = self.invalidation;
            proof {
                assert(live@.contains(island));
                assert(self.islands@.contains_key(island));
                let taken = live@.take(index as int);
                assert(live@.take(index + 1) =~= taken.push(island));
                if taken.contains(island) {
                    let k = choose|k: int| 0 <= k < taken.len() && taken[k] == island;
                    assert(live@[k] == live@[index as int]);
                }
            }
            self.invalidation.mark_topology_dirty(IslandId::new(island));
            index = index + 1;
        }
        assert(live@.take(live@.len() as int) =~= live@);
        proof {
            self.lemma_model();
            assert forall|network: Network, definitions: DefinitionRegistry|
                old(self).consistent_except(network, definitions, Set::empty()) implies #[trigger]
                self.consistent_except(network, definitions, Set::empty()) by {
                Self::lemma_marks_only(*old(self), *self, network, definitions);
            }
        }
    }

    /// Marks do not matter for what the topology is.
    pub(crate) proof fn lemma_marks_only(
        before: Self,
        after: Self,
        network: Network,
        definitions: DefinitionRegistry,
    )
        requires
            before.consistent_except(network, definitions, Set::empty()),
            after.nets == before.nets,
            after.wire_net_map == before.wire_net_map,
            after.islands == before.islands,
            after.net_island_map == before.net_island_map,
            after.device_chunks == before.device_chunks,
            after.invalidation.wf(),
            forall|i: u32| #[trigger]
                after.invalidation.gone().contains(i) ==> before.invalidation.gone().contains(i),
        ensures
            after.consistent_except(network, definitions, Set::empty()),
    {
        crate::island_repair::lemma_same_wires(before, after, network, definitions);
        assert forall|n: u32| #[trigger] after.net_label(n) == before.net_label(n) by {}
        assert forall|c: u64| #[trigger]
            after.component_label(network, c) == before.component_label(network, c) by {}
        assert(after.structure_ok(network, definitions));
        assert(after.net_labels_ok(Set::empty()));
        assert(after.components_ok(network, definitions, Set::empty()));
        assert(after.closed_ok(network, definitions)) by {
            assert forall|x: u64, y: u64| #[trigger] network.linked(x, y) implies {
                &&& after.label(network, definitions, x) == after.label(network, definitions, y)
                &&& !is_terminal_word(x) && !is_terminal_word(y) ==> after.net_of(word_id(x))
                    == after.net_of(word_id(y))
            } by {
                assert(after.label(network, definitions, x) == before.label(
                    network,
                    definitions,
                    x,
                ));
                assert(after.label(network, definitions, y) == before.label(
                    network,
                    definitions,
                    y,
                ));
            }
        }
        assert(after.islands_connected(network, definitions, Set::empty())) by {
            assert forall|a: u64, b: u64|
                #![trigger after.component_label(network, a), after.component_label(network, b)]
                is_component(network, definitions, a) && is_component(network, definitions, b)
                    && after.component_label(network, a) == after.component_label(
                    network,
                    b,
                ) implies connected(
                vertex_edge(network, definitions),
                Vertex::Component(a),
                Vertex::Component(b),
            ) by {
                assert(before.component_label(network, a) == before.component_label(network, b));
            }
        }
    }

    /// A topology without nets and islands.
    pub fn new() -> (result: Self)
        ensures
            forall|network: Network, definitions: DefinitionRegistry|
                network.wire_slots() == 0 && network.arena().spec_chunk_count() == 0 && (forall|
                    d: u32,
                | !network.device_live(d)) && network.wf() ==> #[trigger] result.consistent(
                    network,
                    definitions,
                ),
            result.is_new(),
            result.has_room(),
            result.spec_net_slots() == 0,
            result.spec_island_slots() == 0,
            forall|w: u32| #[trigger] result.wire_net_spec(w) == 0,
            forall|n: u32| !#[trigger] result.has_net(n),
            forall|n: u32| #[trigger] result.net_island_spec(n) == 0,
            forall|i: u32| !#[trigger] result.has_island(i),
            result.island_order() == Seq::<u32>::empty(),
            result.spec_invalidation().wf(),
            result.spec_invalidation().topology() == Seq::<u32>::empty(),
            result.spec_invalidation().numerical() == Seq::<u32>::empty(),
            result.spec_invalidation().binding() == Seq::<u32>::empty(),
            result.spec_invalidation().gone() == Seq::<u32>::empty(),
    {
        let result = DerivedTopology {
            nets: DenseIdStore::new(),
            wire_net_map: Vec::new(),
            islands: DenseIdStore::new(),
            net_island_map: Vec::new(),
            device_chunks: Vec::new(),
            invalidation: WorldInvalidation::new(),
        };
        proof {
            result.lemma_model();
            result.lemma_net_slots();
            result.lemma_island_slots();
            assert forall|w: u32| #[trigger] result.wire_net_spec(w) == 0 by {
                result.lemma_wire_net(w);
            }
        }
        result
    }
}

impl DerivedTopology {
    /// The chunk, row and partition of a component.
    fn component_location(
        &self,
        definitions: &DefinitionRegistry,
        network: &Network,
        component: u64,
    ) -> (result: (usize, usize, usize))
        requires
            network_ok(*network, *definitions),
            self.structure_ok(*network, *definitions),
            is_component(*network, *definitions, component),
        ensures
            result.0 == network.arena().chunk_of(component_device(component)),
            result.1 == network.arena().row_of(component_device(component)),
            result.2 == component_partition(component),
            result.0 < self.device_chunks@.len(),
            self.device_chunks@[result.0 as int].wf(),
            result.1 < self.device_chunks@[result.0 as int].rows() <= 64,
            result.2 < self.device_chunks@[result.0 as int].partitions() <= 0x1_0000,
    {
        let unpacked = DeviceComponent::from_word(component);
        let location = network.device_location(unpacked.device()).unwrap();
        proof {
            lemma_component_place(*self, *network, *definitions, component);
        }
        (
            location.chunk_index() as usize,
            location.row() as usize,
            unpacked.partition().index(),
        )
    }

    /// The chunk of a component, and its position among the components of the chunk.
    pub(crate) fn component_storage_index(
        &self,
        definitions: &DefinitionRegistry,
        network: &Network,
        component: u64,
    ) -> (result: (usize, usize))
        requires
            network_ok(*network, *definitions),
            self.structure_ok(*network, *definitions),
            is_component(*network, *definitions, component),
        ensures
            (result.0 as int, result.1 as int) == component_slot(*self, *network, component),
    {
        let (chunk, row, partition) = self.component_location(definitions, network, component);
        let stride: usize = self.device_chunks[chunk].partition_count();
        proof {
            assert(row * stride <= 64 * 0x1_0000) by (nonlinear_arith)
                requires
                    row <= 64,
                    stride <= 0x1_0000,
            ;
            assert(row * stride >= 0) by (nonlinear_arith)
                requires
                    row >= 0,
                    stride >= 0,
            ;
        }
        (chunk, row * stride + partition)
    }

    /// Moves a component to another island.
    pub(crate) fn set_component_island(
        &mut self,
        definitions: &DefinitionRegistry,
        network: &Network,
        component: u64,
        island: u32,
    )
        requires
            network_ok(*network, *definitions),
            old(self).structure_ok(*network, *definitions),
            is_component(*network, *definitions, component),
            island != 0,
        ensures
            final(self).structure_ok(*network, *definitions),
            final(self).nets == old(self).nets,
            final(self).wire_net_map == old(self).wire_net_map,
            final(self).islands == old(self).islands,
            final(self).net_island_map == old(self).net_island_map,
            final(self).invalidation == old(self).invalidation,
            forall|c: u64|
                is_component(*network, *definitions, c) ==> #[trigger] final(self).component_label(
                    *network,
                    c,
                ) == if c == component {
                    island
                } else {
                    old(self).component_label(*network, c)
                },
    {
        let (chunk, row, partition) = self.component_location(definitions, network, component);
        self.device_chunks[chunk].set_component_island(row, partition, IslandId::new(island));
        proof {
            assert forall|c: u64| is_component(
                *network,
                *definitions,
                c,
            ) implies #[trigger] self.component_label(*network, c) == if c == component {
                island
            } else {
                old(self).component_label(*network, c)
            } by {
                lemma_component_place(*old(self), *network, *definitions, c);
                lemma_component_place(*old(self), *network, *definitions, component);
                let k = network.arena().chunk_of(component_device(c));
                if k == chunk && network.arena().row_of(component_device(c)) == row
                    && component_partition(c) == partition {
                    assert(component_device(c) == component_device(component));
                }
            }
        }
    }

    /// The island of a component.
    pub(crate) fn component_island_raw(
        &self,
        definitions: &DefinitionRegistry,
        network: &Network,
        component: u64,
    ) -> (result: u32)
        requires
            network_ok(*network, *definitions),
            self.structure_ok(*network, *definitions),
            is_component(*network, *definitions, component),
        ensures
            result == self.component_label(*network, component),
            result != 0,
    {
        let (chunk, row, partition) = self.component_location(definitions, network, component);
        self.device_chunks[chunk].component_island(row, partition).get()
    }
}

/// The network that a topology can be kept for: well formed, with devices as the definitions say.
pub open spec fn network_ok(network: Network, definitions: DefinitionRegistry) -> bool {
    network.wf() && definitions.wf() && network.fits(definitions)
}

/// The component that a terminal of a device belongs to.
pub fn terminal_component(
    definitions: &DefinitionRegistry,
    network: &Network,
    device: DeviceId,
    terminal: TerminalId,
) -> (result: DeviceComponent)
    requires
        network_ok(*network, *definitions),
        network.device_live(device.value()),
        terminal.value() < network.device_model(device.value()).terminals.len(),
    ensures
        result.word() == component_word(
            device.value(),
            terminal_partition(*network, *definitions, device.value(), terminal.value() as int),
        ),
        is_component(*network, *definitions, result.word()),
{
    broadcast use lemma_component_word;

    proof {
        network.arena().lemma_fits(*definitions, device.value());
    }
    let number: u32 = device.get();
    let definition_id = network.device_definition_id(device).unwrap();
    let definition = definitions.get(definition_id).unwrap();
    let ghost def = definitions.definition(definition_id.value());
    assert(definitions.spec_definitions()[definition_id.value() - 1].wf());
    let partition: u32 = definition.terminal_partitions().get(terminal.index());
    assert(def.spec_partitions()[terminal.value() as int] < def.spec_partition_count());
    DeviceComponent::new(device, TerminalPartitionId::new(partition as u16))
}

} // verus!
