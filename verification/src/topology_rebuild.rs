//! Deriving the topology of a whole network.

use crate::connection::{
    component_device, component_partition, component_word, group_words, is_terminal_word,
    lemma_component_word, terminal_word, wire_word, word_id, word_terminal,
};
use crate::definition::DeviceDefinition;
use crate::dense_store::{lemma_listed_between, listed_between, DenseIdStore};
use crate::device_topology::DeviceTopologyChunk;
use crate::graph::{connected, lemma_connected_self};
use crate::ids::{DeviceId, TerminalId, MAX_PACKED_ID};
use crate::island_traversal::lemma_linked_live;
use crate::network::Network;
use crate::registry::DefinitionRegistry;
use crate::topology::{
    component_of, is_component, network_ok, partition_count, terminal_component, vertex_edge,
    wire_edge, DerivedTopology, Vertex,
};
use crate::topology_links::{
    joint, lemma_joined_all, links_of, network_links, wire_joint, with_link,
};
use crate::topology_queries::{
    law_islands_are_connected_components, law_nets_are_connected_wires, law_wire_islands,
};
use crate::topology_steps::{component_rank, lists_devices, wires_up_to};
use vstd::prelude::*;

verus! {

/// The number of components of the devices in the first chunks.
pub open spec fn components_before(
    network: Network,
    definitions: DefinitionRegistry,
    chunks: int,
) -> int
    decreases chunks,
{
    if chunks <= 0 {
        0
    } else {
        components_before(network, definitions, chunks - 1) + network.arena().rows(chunks - 1)
            * definitions.definition(
            network.arena().spec_chunk_definition(chunks - 1).value(),
        ).spec_partition_count()
    }
}

/// Later chunks add components.
proof fn lemma_components_grow(
    network: Network,
    definitions: DefinitionRegistry,
    chunks: int,
    more: int,
)
    requires
        network_ok(network, definitions),
        0 <= chunks <= more <= network.arena().spec_chunk_count(),
    ensures
        0 <= components_before(network, definitions, chunks) <= components_before(
            network,
            definitions,
            more,
        ),
    decreases more,
{
    if more > 0 {
        let last = more - 1;
        network.arena().lemma_wf();
        network.arena().lemma_shaped(definitions, last);
        let id = network.arena().spec_chunk_definition(last).value();
        assert(definitions.spec_definitions()[id - 1].wf());
        let rows = network.arena().rows(last);
        let partitions = definitions.definition(id).spec_partition_count();
        assert(rows * partitions >= 0) by (nonlinear_arith)
            requires
                rows >= 0,
                partitions >= 0,
        ;
        if chunks < more {
            lemma_components_grow(network, definitions, chunks, last);
        } else {
            lemma_components_grow(network, definitions, last, last);
        }
    }
}

impl DerivedTopology {
    /// Whether the first wires of a network are each in a net of its own, and no other wire is in
    /// any.
    pub(crate) open spec fn wires_opened(self, network: Network, upto: int) -> bool {
        &&& self.nets.wf()
        &&& self.net_island_map@.len() == self.nets.spec_slot_count()
        &&& self.nets.spec_slot_count() == wires_up_to(network, upto)
        &&& self.nets.spec_slot_count() <= upto
        &&& forall|n: u32| #[trigger]
            self.nets@.contains_key(n) <==> 1 <= n <= self.nets.spec_slot_count()
        &&& self.wire_net_map@.len() <= upto
        &&& forall|w: u32| #[trigger]
            self.net_of(w) != 0 <==> (network.wire_live(w) && w <= upto)
        &&& forall|w: u32| #[trigger]
            self.net_of(w) != 0 ==> self.nets@.contains_key(self.net_of(w))
                && self.nets@[self.net_of(w)].wires@ == seq![w] && self.net_of(w) == wires_up_to(
                network,
                w as int,
            )
        &&& forall|n: u32| #[trigger]
            self.nets@.contains_key(n) ==> {
                &&& self.nets@[n].wires@.len() == 1
                &&& self.net_of(self.nets@[n].wires@[0]) == n
                &&& self.nets@[n].terminals@ == Seq::<u64>::empty()
                &&& self.nets@[n].terminal_components@ == Seq::<u64>::empty()
            }
        &&& forall|n: u32| #[trigger] self.net_label(n) == 0
    }

    /// Puts each wire of a network into a net of its own.
    fn open_wires(&mut self, network: &Network)
        requires
            network.wf(),
            network.wire_slots() <= MAX_PACKED_ID,
            old(self).wires_opened(*network, 0),
        ensures
            final(self).wires_opened(*network, network.wire_slots()),
            final(self).wire_net_map@.len() == network.wire_slots(),
            final(self).islands == old(self).islands,
            final(self).device_chunks == old(self).device_chunks,
            final(self).invalidation == old(self).invalidation,
    {
        let count: usize = network.wire_count();
        let mut index: usize = 0;
        while index < count
            invariant
                network.wf(),
                count == network.wire_slots(),
                count <= MAX_PACKED_ID,
                index <= count,
                self.wires_opened(*network, index as int),
                self.islands == old(self).islands,
                self.device_chunks == old(self).device_chunks,
                self.invalidation == old(self).invalidation,
            decreases count - index,
        {
            broadcast use DenseIdStore::lemma_live;

            let wire: u32 = index as u32 + 1;
            let ghost before = *self;
            if network.has_wire(wire) {
                assert(self.net_of(wire) == 0);
                self.open_wire(wire);
                proof {
                    let id = self.nets.spec_slot_count() as u32;
                    assert(self.nets@[id].wires@[0] == wire);
                    assert forall|n: u32| #[trigger] self.net_label(n) == 0 by {
                        assert(before.net_label(n) == 0);
                    }
                    assert forall|n: u32| #[trigger] self.nets@.contains_key(n) implies {
                        &&& self.nets@[n].wires@.len() == 1
                        &&& self.net_of(self.nets@[n].wires@[0]) == n
                        &&& self.nets@[n].terminals@ == Seq::<u64>::empty()
                        &&& self.nets@[n].terminal_components@ == Seq::<u64>::empty()
                    } by {
                        if n != id {
                            assert(before.nets@.contains_key(n));
                            assert(before.net_of(before.nets@[n].wires@[0]) == n);
                        }
                    }
                    assert forall|w: u32| #[trigger] self.net_of(w) != 0 implies
                        self.nets@.contains_key(self.net_of(w))
                        && self.nets@[self.net_of(w)].wires@ == seq![w] && self.net_of(w)
                        == wires_up_to(*network, w as int) by {
                        if w != wire {
                            assert(before.net_of(w) != 0);
                        }
                    }
                }
            }
            index = index + 1;
        }
        while self.wire_net_map.len() < count
            invariant
                count == network.wire_slots(),
                self.wires_opened(*network, count as int),
                self.islands == old(self).islands,
                self.device_chunks == old(self).device_chunks,
                self.invalidation == old(self).invalidation,
            decreases count - self.wire_net_map@.len(),
        {
            let ghost before = *self;
            self.wire_net_map.push(0);
            proof {
                assert forall|w: u32| #[trigger] self.net_of(w) == before.net_of(w) by {}
                assert forall|n: u32| #[trigger] self.net_label(n) == 0 by {
                    assert(before.net_label(n) == 0);
                }
                assert forall|n: u32| #[trigger] self.nets@.contains_key(n) implies {
                    &&& self.nets@[n].wires@.len() == 1
                    &&& self.net_of(self.nets@[n].wires@[0]) == n
                    &&& self.nets@[n].terminals@ == Seq::<u64>::empty()
                    &&& self.nets@[n].terminal_components@ == Seq::<u64>::empty()
                } by {
                    assert(before.net_of(before.nets@[n].wires@[0]) == n);
                }
                assert forall|w: u32| #[trigger] self.net_of(w) != 0 implies
                    self.nets@.contains_key(self.net_of(w)) && self.nets@[self.net_of(w)].wires@
                    == seq![w] && self.net_of(w) == wires_up_to(*network, w as int) by {
                    assert(before.net_of(w) != 0);
                }
                assert forall|w: u32| #[trigger] self.net_of(w) != 0 <==> (network.wire_live(w) && w
                    <= count) by {
                    assert(before.net_of(w) != 0 <==> (network.wire_live(w) && w <= count));
                }
            }
        }
    }

    /// Whether the components of the first devices, by chunk and row, are each in an island of its
    /// own.
    pub(crate) open spec fn rows_added(
        self,
        network: Network,
        definitions: DefinitionRegistry,
        chunk: int,
        row: int,
    ) -> bool {
        &&& self.islands.wf()
        &&& self.islands.spec_slot_count() == components_before(network, definitions, chunk) + row
            * definitions.definition(
            network.arena().spec_chunk_definition(chunk).value(),
        ).spec_partition_count()
        &&& forall|i: u32| #[trigger]
            self.islands@.contains_key(i) <==> 1 <= i <= self.islands.spec_slot_count()
        &&& self.islands.dense_order() == listed_between(
            Seq::empty(),
            0,
            self.islands.spec_slot_count(),
        )
        &&& self.invalidation.wf()
        &&& self.invalidation.gone() == Seq::<u32>::empty()
        &&& self.device_chunks@.len() == chunk + if row > 0 {
            1int
        } else {
            0
        }
        &&& forall|c: int|
            0 <= c < self.device_chunks@.len() ==> {
                let held = #[trigger] self.device_chunks@[c];
                &&& held.wf()
                &&& held.rows() == if c < chunk {
                    network.arena().rows(c)
                } else {
                    row
                }
                &&& held.partitions() == definitions.definition(
                    network.arena().spec_chunk_definition(c).value(),
                ).spec_partition_count()
            }
        &&& forall|c: u64| #[trigger]
            is_component(network, definitions, c) && placed(network, c, chunk, row) ==> {
                let label = self.component_label(network, c);
                &&& label == component_rank(network, definitions, c) + 1
                &&& self.islands@.contains_key(label)
                &&& self.islands@[label].components@ == seq![c]
                &&& self.islands@[label].revision == 0
            }
        &&& forall|i: u32| #[trigger]
            self.islands@.contains_key(i) ==> {
                let held = self.islands@[i].components@;
                &&& held.len() == 1
                &&& is_component(network, definitions, held[0])
                &&& placed(network, held[0], chunk, row)
                &&& self.component_label(network, held[0]) == i
                &&& self.islands@[i].revision == 0
            }
    }

    /// Adds the row of a device of the network, in its place.
    fn add_device_at_location(
        &mut self,
        definitions: &DefinitionRegistry,
        network: &Network,
        device: DeviceId,
        definition: &DeviceDefinition,
    )
        requires
            network_ok(*network, *definitions),
            network.device_live(device.value()),
            *definition == definitions.definition(
                network.device_model(device.value()).definition.value(),
            ),
            old(self).rows_added(
                *network,
                *definitions,
                network.arena().chunk_of(device.value()),
                network.arena().row_of(device.value()),
            ),
            old(self).islands.spec_slot_count() + definition.spec_partition_count() <= u32::MAX,
        ensures
            final(self).rows_added(
                *network,
                *definitions,
                network.arena().chunk_of(device.value()),
                network.arena().row_of(device.value()) + 1,
            ),
            final(self).islands.spec_slot_count() == old(self).islands.spec_slot_count()
                + definition.spec_partition_count(),
            final(self).nets == old(self).nets,
            final(self).wire_net_map == old(self).wire_net_map,
            final(self).net_island_map == old(self).net_island_map,
    {
        broadcast use {lemma_component_word, DenseIdStore::lemma_live};

        let ghost d = device.value();
        let ghost k = network.arena().chunk_of(d);
        let ghost row = network.arena().row_of(d);
        proof {
            network.arena().lemma_wf();
            assert(network.arena().resident(d));
            network.arena().lemma_fits(*definitions, d);
            network.arena().lemma_shaped(*definitions, k);
            let id = network.device_model(d).definition.value();
            assert(definitions.spec_definitions()[id - 1].wf());
        }
        let location = network.device_location(device).unwrap();
        let chunk_index: usize = location.chunk_index() as usize;
        let ghost t0 = *self;
        if chunk_index == self.device_chunks.len() {
            self.device_chunks.push(DeviceTopologyChunk::new(definition.partition_count()));
        }
        let ghost ready = *self;
        proof {
            assert forall|c: int| 0 <= c < t0.device_chunks@.len() implies
                #[trigger] ready.device_chunks@[c] == t0.device_chunks@[c] by {}
            assert(ready.device_chunks@[k].wf());
            assert(ready.device_chunks@[k].rows() == row);
        }
        self.push_device_row(device, location);
        proof {
            lemma_row_added(t0, ready, *self, *network, *definitions, d);
        }
    }
}

/// Whether a component belongs to one of the first devices, by chunk and row.
pub open spec fn placed(network: Network, component: u64, chunk: int, row: int) -> bool {
    let device = component_device(component);
    network.arena().chunk_of(device) < chunk || (network.arena().chunk_of(device) == chunk
        && network.arena().row_of(device) < row)
}

/// One more row adds the components of one more device.
#[verifier::spinoff_prover]
#[verifier::rlimit(40)]
proof fn lemma_row_added(
    t0: DerivedTopology,
    ready: DerivedTopology,
    t1: DerivedTopology,
    network: Network,
    definitions: DefinitionRegistry,
    device: u32,
)
    requires
        network_ok(network, definitions),
        network.device_live(device),
        t0.rows_added(
            network,
            definitions,
            network.arena().chunk_of(device),
            network.arena().row_of(device),
        ),
        ready.islands == t0.islands,
        ready.invalidation == t0.invalidation,
        ready.device_chunks@.len() == network.arena().chunk_of(device) + 1,
        forall|c: int|
            0 <= c < t0.device_chunks@.len() ==> #[trigger] ready.device_chunks@[c]
                == t0.device_chunks@[c],
        ready.row_pushed(
            t1,
            device,
            network.arena().chunk_of(device),
            partition_count(network, definitions, device),
        ),
        ready.device_chunks@[network.arena().chunk_of(device)].rows() == network.arena().row_of(
            device,
        ),
        t1.islands.spec_slot_count() <= u32::MAX,
    ensures
        t1.rows_added(
            network,
            definitions,
            network.arena().chunk_of(device),
            network.arena().row_of(device) + 1,
        ),
{
    broadcast use {lemma_component_word, DenseIdStore::lemma_live};

    let k = network.arena().chunk_of(device);
    let row = network.arena().row_of(device);
    let base = t0.islands.spec_slot_count();
    let partitions = partition_count(network, definitions, device);
    network.arena().lemma_wf();
    assert(network.arena().resident(device));
    network.arena().lemma_fits(definitions, device);
    let id = network.device_model(device).definition.value();
    assert(definitions.spec_definitions()[id - 1].wf());
    assert(t0.islands@.contains_key(0) ==> base >= 0);
    network.arena().lemma_shaped(definitions, k);
    assert((row + 1) * partitions == row * partitions + partitions) by (nonlinear_arith);
    lemma_listed_between(Seq::empty(), 0, base, base + partitions);
    assert forall|c: u64| #[trigger]
        is_component(network, definitions, c) && placed(network, c, k, row) implies
        t1.component_label(network, c) == t0.component_label(network, c) by {
        let d = component_device(c);
        let place = network.arena().chunk_of(d);
        assert(network.arena().resident(d));
        network.arena().lemma_fits(definitions, d);
        network.arena().lemma_shaped(definitions, place);
        if place == k {
            assert(network.device_model(d).definition == network.device_model(device).definition);
            assert(t1.device_chunks@[k].island(
                network.arena().row_of(d),
                component_partition(c) as int,
            ) == ready.device_chunks@[k].island(
                network.arena().row_of(d),
                component_partition(c) as int,
            ));
        }
    }
    assert forall|c: u64| #[trigger]
        is_component(network, definitions, c) && component_device(c) == device implies
        t1.component_label(network, c) == base + 1 + component_partition(c) by {
        assert(t1.device_chunks@[k].island(row, component_partition(c) as int) == base + 1
            + component_partition(c));
    }
    assert forall|c: u64| #[trigger]
        is_component(network, definitions, c) && placed(network, c, k, row + 1) implies placed(
        network,
        c,
        k,
        row,
    ) || component_device(c) == device by {
        let d = component_device(c);
        assert(network.arena().resident(d));
        assert(network.arena().device_at(network.arena().chunk_of(d), network.arena().row_of(d))
            == d);
        assert(network.arena().device_at(k, row) == device);
    }
    assert forall|c: u64| #[trigger]
        is_component(network, definitions, c) && placed(network, c, k, row + 1) implies {
        let label = t1.component_label(network, c);
        &&& label == component_rank(network, definitions, c) + 1
        &&& t1.islands@.contains_key(label)
        &&& t1.islands@[label].components@ == seq![c]
        &&& t1.islands@[label].revision == 0
    } by {
        if component_device(c) == device {
            let label = t1.component_label(network, c);
            assert(t1.islands@[label].components@ == seq![
                component_word(device, component_partition(c)),
            ]);
        } else {
            assert(placed(network, c, k, row));
            let label = t0.component_label(network, c);
            assert(t0.islands@.contains_key(label));
            assert(t1.islands@[label] == t0.islands@[label]);
        }
    }
    assert forall|i: u32| #[trigger] t1.islands@.contains_key(i) implies {
        let held = t1.islands@[i].components@;
        &&& held.len() == 1
        &&& is_component(network, definitions, held[0])
        &&& placed(network, held[0], k, row + 1)
        &&& t1.component_label(network, held[0]) == i
        &&& t1.islands@[i].revision == 0
    } by {
        if t0.islands@.contains_key(i) {
            assert(t1.islands@[i] == t0.islands@[i]);
            let c = t0.islands@[i].components@[0];
            assert(is_component(network, definitions, c) && placed(network, c, k, row));
        } else {
            let p = (i - base - 1) as u16;
            assert(p == i - base - 1);
            let c = component_word(device, p);
            assert(t1.islands@[i].components@ == seq![c]);
            assert(is_component(network, definitions, c));
            assert(component_device(c) == device);
        }
    }
    assert forall|c: int| 0 <= c < t1.device_chunks@.len() implies {
        let held = #[trigger] t1.device_chunks@[c];
        &&& held.wf()
        &&& held.rows() == if c < k {
            network.arena().rows(c)
        } else {
            row + 1
        }
        &&& held.partitions() == definitions.definition(
            network.arena().spec_chunk_definition(c).value(),
        ).spec_partition_count()
    } by {
        if c < k {
            assert(t1.device_chunks@[c] == ready.device_chunks@[c]);
            assert(ready.device_chunks@[c] == t0.device_chunks@[c]);
            assert(t0.device_chunks@[c].wf());
        }
    }
}

/// A full chunk is one more chunk.
proof fn lemma_chunk_done(
    topology: DerivedTopology,
    network: Network,
    definitions: DefinitionRegistry,
    chunk: int,
)
    requires
        network_ok(network, definitions),
        0 <= chunk < network.arena().spec_chunk_count(),
        topology.rows_added(network, definitions, chunk, network.arena().rows(chunk)),
    ensures
        topology.rows_added(network, definitions, chunk + 1, 0),
{
    network.arena().lemma_wf();
    assert(network.arena().rows(chunk) > 0);
    assert forall|c: u64| #[trigger]
        is_component(network, definitions, c) implies (placed(network, c, chunk + 1, 0) == placed(
        network,
        c,
        chunk,
        network.arena().rows(chunk),
    )) by {
        assert(network.arena().resident(component_device(c)));
    }
    assert forall|i: u32| #[trigger] topology.islands@.contains_key(i) implies {
        let held = topology.islands@[i].components@;
        &&& held.len() == 1
        &&& is_component(network, definitions, held[0])
        &&& placed(network, held[0], chunk + 1, 0)
        &&& topology.component_label(network, held[0]) == i
        &&& topology.islands@[i].revision == 0
    } by {
        let c = topology.islands@[i].components@[0];
        assert(is_component(network, definitions, c));
    }
}

/// Wires and components, each alone, are the topology without connections.
proof fn lemma_unlinked(
    topology: DerivedTopology,
    network: Network,
    definitions: DefinitionRegistry,
    links: spec_fn(u64, u64) -> bool,
)
    requires
        network_ok(network, definitions),
        network.wire_slots() <= MAX_PACKED_ID,
        topology.wires_opened(network, network.wire_slots()),
        topology.wire_net_map@.len() == network.wire_slots(),
        topology.rows_added(network, definitions, network.arena().spec_chunk_count(), 0),
        forall|x: u64, y: u64| !#[trigger] links(x, y),
    ensures
        topology.joined(network, definitions, links),
{
    broadcast use DenseIdStore::lemma_live;

    network.arena().lemma_wf();
    let all = network.arena().spec_chunk_count();
    assert forall|c: u64| #[trigger] is_component(network, definitions, c) implies placed(
        network,
        c,
        all,
        0,
    ) by {
        assert(network.arena().resident(component_device(c)));
    }
    assert(topology.structure_ok(network, definitions));
    assert(topology.wires_ok(network)) by {
        assert forall|w: u32| #[trigger] network.wire_live(w) implies topology.nets@.contains_key(
            topology.net_of(w),
        ) && topology.nets@[topology.net_of(w)].wires@.contains(w) by {
            assert(1 <= w <= network.wire_slots());
            assert(topology.net_of(w) != 0);
            assert(topology.nets@[topology.net_of(w)].wires@[0] == w);
        }
        assert forall|w: u32| !network.wire_live(w) implies #[trigger] topology.net_of(w) == 0 by {}
        assert forall|n: u32| #[trigger] topology.nets@.contains_key(n) implies {
            &&& topology.nets@[n].wires@.len() > 0
            &&& topology.nets@[n].wires@.no_duplicates()
            &&& forall|w: u32| #[trigger]
                topology.nets@[n].wires@.contains(w) ==> network.wire_live(w) && topology.net_of(w)
                    == n
        } by {
            let w = topology.nets@[n].wires@[0];
            assert(topology.net_of(w) == n);
            assert(n != 0);
        }
    }
    assert(topology.nets_list_by(network, definitions, links)) by {
        assert forall|n: u32| #[trigger] topology.nets@.contains_key(n) implies
            topology.net_lists_by(network, definitions, links, n) by {}
    }
    assert(topology.net_labels_ok(Set::empty()));
    assert(topology.components_ok(network, definitions, Set::empty())) by {
        assert forall|c: u64| #[trigger] is_component(network, definitions, c) implies {
            let label = topology.component_label(network, c);
            topology.islands@.contains_key(label) && topology.islands@[label].components@.contains(c)
        } by {
            assert(placed(network, c, all, 0));
            assert(topology.islands@[topology.component_label(network, c)].components@[0] == c);
        }
    }
    assert(topology.nets_joined(network, links)) by {
        assert forall|a: u32, b: u32|
            #![trigger topology.net_of(a), topology.net_of(b)]
            network.wire_live(a) && network.wire_live(b) && topology.net_of(a) == topology.net_of(
                b,
            ) implies connected(wire_joint(links), a, b) by {
            assert(topology.net_of(a) != 0);
            assert(seq![a][0] == seq![b][0]);
            lemma_connected_self(wire_joint(links), a);
        }
    }
    assert(topology.islands_joined(network, definitions, links)) by {
        assert forall|a: u64, b: u64|
            #![trigger topology.component_label(network, a), topology.component_label(network, b)]
            is_component(network, definitions, a) && is_component(network, definitions, b)
                && topology.component_label(network, a) == topology.component_label(
                network,
                b,
            ) implies connected(
            joint(network, definitions, links),
            Vertex::Component(a),
            Vertex::Component(b),
        ) by {
            assert(placed(network, a, all, 0) && placed(network, b, all, 0));
            assert(seq![a][0] == seq![b][0]);
            lemma_connected_self(joint(network, definitions, links), Vertex::Component(a));
        }
    }
}

impl DerivedTopology {
    /// Puts each component of the devices of a network into an island of its own.
    fn add_devices(&mut self, definitions: &DefinitionRegistry, network: &Network)
        requires
            network_ok(*network, *definitions),
            old(self).rows_added(*network, *definitions, 0, 0),
            old(self).islands.spec_slot_count() == 0,
            components_before(*network, *definitions, network.arena().spec_chunk_count())
                <= u32::MAX,
        ensures
            final(self).rows_added(*network, *definitions, network.arena().spec_chunk_count(), 0),
            final(self).nets == old(self).nets,
            final(self).wire_net_map == old(self).wire_net_map,
            final(self).net_island_map == old(self).net_island_map,
    {
        let arena = network.device_arena();
        let count: usize = arena.chunk_count();
        let mut chunk: usize = 0;
        while chunk < count
            invariant
                network_ok(*network, *definitions),
                *arena == network.arena(),
                count == arena.spec_chunk_count(),
                chunk <= count,
                self.rows_added(*network, *definitions, chunk as int, 0),
                self.islands.spec_slot_count() == components_before(
                    *network,
                    *definitions,
                    chunk as int,
                ),
                components_before(*network, *definitions, count as int) <= u32::MAX,
                self.nets == old(self).nets,
                self.wire_net_map == old(self).wire_net_map,
                self.net_island_map == old(self).net_island_map,
            decreases count - chunk,
        {
            let rows: usize = arena.chunk_len(chunk);
            let ghost id = arena.spec_chunk_definition(chunk as int).value();
            let ghost partitions = definitions.definition(id).spec_partition_count();
            proof {
                arena.lemma_wf();
                arena.lemma_shaped(*definitions, chunk as int);
                assert(definitions.spec_definitions()[id - 1].wf());
                lemma_components_grow(*network, *definitions, chunk + 1, count as int);
            }
            let mut row: usize = 0;
            while row < rows
                invariant
                    network_ok(*network, *definitions),
                    *arena == network.arena(),
                    chunk < count == arena.spec_chunk_count(),
                    row <= rows == arena.rows(chunk as int),
                    rows <= 64,
                    id == arena.spec_chunk_definition(chunk as int).value(),
                    partitions == definitions.definition(id).spec_partition_count(),
                    0 <= partitions <= 0x1_0000,
                    definitions.knows(id),
                    self.rows_added(*network, *definitions, chunk as int, row as int),
                    self.islands.spec_slot_count() == components_before(
                        *network,
                        *definitions,
                        chunk as int,
                    ) + row * partitions,
                    components_before(*network, *definitions, chunk + 1) == components_before(
                        *network,
                        *definitions,
                        chunk as int,
                    ) + rows * partitions,
                    components_before(*network, *definitions, chunk + 1) <= u32::MAX,
                    self.nets == old(self).nets,
                    self.wire_net_map == old(self).wire_net_map,
                    self.net_island_map == old(self).net_island_map,
                decreases rows - row,
            {
                let device = arena.device_in(chunk, row);
                proof {
                    arena.lemma_wf();
                    assert(arena.device_at(chunk as int, row as int) == device.value());
                    assert(arena.resident(device.value()));
                    assert(network.device_live(device.value()));
                    assert((row + 1) * partitions == row * partitions + partitions)
                        by (nonlinear_arith);
                    assert((row + 1) * partitions <= rows * partitions) by (nonlinear_arith)
                        requires
                            row + 1 <= rows,
                            0 <= partitions,
                    ;
                }
                let definition = definitions.get(arena.chunk_definition(chunk)).unwrap();
                self.add_device_at_location(definitions, network, device, definition);
                row = row + 1;
            }
            proof {
                lemma_chunk_done(*self, *network, *definitions, chunk as int);
            }
            chunk = chunk + 1;
        }
    }

    /// Nets without connections to terminals are in no island.
    proof fn lemma_no_islands(
        self,
        network: Network,
        definitions: DefinitionRegistry,
        links: spec_fn(u64, u64) -> bool,
    )
        requires
            self.joined(network, definitions, links),
            forall|x: u64, y: u64| #[trigger] links(x, y) ==> !is_terminal_word(x),
        ensures
            forall|n: u32| #[trigger] self.net_label(n) == 0,
    {
        assert forall|n: u32| #[trigger] self.net_label(n) == 0 by {
            if self.net_label(n) != 0 {
                assert(self.nets@.contains_key(n));
                assert(self.net_lists_by(network, definitions, links, n));
                let x = self.nets@[n].terminals@[0];
                assert(self.nets@[n].terminals@.contains(x));
                assert(self.attached_by(links, x, n));
                let y = choose|y: u64| #[trigger]
                    links(x, y) && !is_terminal_word(y) && self.net_of(word_id(y)) == n;
            }
        }
    }
}

/// Whether these are connections between wires of the network, among them all whose lower wire is
/// below a number.
pub(crate) open spec fn wires_linked_below(
    network: Network,
    links: spec_fn(u64, u64) -> bool,
    limit: int,
) -> bool {
    &&& links_of(network, links)
    &&& forall|x: u64, y: u64| #[trigger]
        links(x, y) ==> !is_terminal_word(x) && !is_terminal_word(y)
    &&& forall|x: u64, y: u64| #[trigger]
        network.linked(x, y) && !is_terminal_word(x) && !is_terminal_word(y) && word_id(x)
            < word_id(y) && word_id(x) < limit ==> links(x, y)
}

/// One more connection of the network.
proof fn lemma_links_grow(network: Network, links: spec_fn(u64, u64) -> bool, a: u64, b: u64)
    requires
        network.wf(),
        links_of(network, links),
        network.linked(a, b),
    ensures
        links_of(network, with_link(links, a, b)),
{
    let more = with_link(links, a, b);
    assert forall|x: u64, y: u64| #[trigger] more(x, y) implies network.linked(x, y) && more(
        y,
        x,
    ) by {
        if links(x, y) {
            assert(links(y, x));
        } else {
            assert(network.linked(b, a));
        }
    }
}

impl DerivedTopology {
    /// Joins the nets of all wires that are connected.
    #[verifier::spinoff_prover]
    #[verifier::rlimit(40)]
    fn join_all_wires(
        &mut self,
        definitions: &DefinitionRegistry,
        network: &Network,
    ) -> (result: Ghost<spec_fn(u64, u64) -> bool>)
        requires
            network_ok(*network, *definitions),
            old(self).joined(*network, *definitions, |x: u64, y: u64| false),
            forall|i: u32| #[trigger]
                old(self).islands@.contains_key(i) ==> old(self).islands@[i].revision == 0,
        ensures
            final(self).joined(*network, *definitions, result@),
            wires_linked_below(*network, result@, network.wire_slots() + 1),
            final(self).islands == old(self).islands,
            old(self).wires_joined(*final(self), *network, network.wire_slots(), 0),
    {
        let count: usize = network.wire_count();
        let mut index: usize = 0;
        let ghost mut links: spec_fn(u64, u64) -> bool = |x: u64, y: u64| false;
        while index < count
            invariant
                network_ok(*network, *definitions),
                count == network.wire_slots(),
                count <= u32::MAX,
                index <= count,
                self.joined(*network, *definitions, links),
                wires_linked_below(*network, links, index + 1),
                self.islands == old(self).islands,
                old(self).wires_joined(*self, *network, index as int, 0),
                forall|i: u32| #[trigger]
                    self.islands@.contains_key(i) ==> self.islands@[i].revision == 0,
            decreases count - index,
        {
            broadcast use group_words;

            let wire: u32 = index as u32 + 1;
            let ghost a = wire_word(wire);
            if network.has_wire(wire) {
                let degree: usize = network.connection_count(wire);
                let mut at: usize = 0;
                while at < degree
                    invariant
                        network_ok(*network, *definitions),
                        network.wire_live(wire),
                        a == wire_word(wire),
                        degree == network.wire_words(wire).len(),
                        at <= degree,
                        wire == index + 1,
                        old(self).wires_joined(*self, *network, index as int, at as int),
                        self.joined(*network, *definitions, links),
                        wires_linked_below(*network, links, wire as int),
                        forall|k: int|
                            #![trigger network.wire_words(wire)[k]]
                            0 <= k < at && !is_terminal_word(network.wire_words(wire)[k]) && wire
                                < word_id(network.wire_words(wire)[k]) ==> links(
                                a,
                                network.wire_words(wire)[k],
                            ),
                        self.islands == old(self).islands,
                        forall|i: u32| #[trigger]
                            self.islands@.contains_key(i) ==> self.islands@[i].revision == 0,
                    decreases degree - at,
                {
                    broadcast use group_words;

                    let connection = network.connection(wire, at);
                    let ghost b = connection.word();
                    let packed: u64 = connection.to_word();
                    let ghost fewer = links;
                    let ghost before = *self;
                    if let Some(other) = connection.as_wire() {
                        if wire < other.get() {
                            proof {
                                self.lemma_no_islands(*network, *definitions, links);
                                assert(b == wire_word(other.value()));
                                lemma_links_grow(*network, links, a, b);
                            }
                            self.join_wires(
                                definitions,
                                network,
                                wire,
                                other.get(),
                                Ghost(links),
                            );
                            proof {
                                links = with_link(links, a, b);
                                assert(links(a, b));
                                assert(network.linked(b, a));
                                lemma_linked_live(*network, *definitions, b, a);
                                before.lemma_nets_united(
                                    *self,
                                    *network,
                                    *network,
                                    *definitions,
                                    wire,
                                    other.value(),
                                );
                            }
                        }
                    }
                    proof {
                        assert(before.wire_joined(*self, *network, wire, at as int));
                        old(self).lemma_one_more_joined(
                            before,
                            *self,
                            *network,
                            index as int,
                            at as int,
                        );
                        assert forall|k: int|
                            #![trigger network.wire_words(wire)[k]]
                            0 <= k < at + 1 && !is_terminal_word(network.wire_words(wire)[k])
                                && wire < word_id(network.wire_words(wire)[k]) implies links(
                            a,
                            network.wire_words(wire)[k],
                        ) by {
                            if k < at {
                                assert(fewer(a, network.wire_words(wire)[k]));
                            }
                        }
                        assert forall|x: u64, y: u64| #[trigger]
                            network.linked(x, y) && !is_terminal_word(x) && !is_terminal_word(y)
                                && word_id(x) < word_id(y) && word_id(x) < wire implies links(
                            x,
                            y,
                        ) by {
                            assert(fewer(x, y));
                        }
                    }
                    at = at + 1;
                }
            }
            proof {
                assert forall|x: u64, y: u64| #[trigger]
                    network.linked(x, y) && !is_terminal_word(x) && !is_terminal_word(y) && word_id(
                        x,
                    ) < word_id(y) && word_id(x) < index + 2 implies links(x, y) by {
                    if word_id(x) == wire {
                        assert(x == a);
                        assert(network.wire_words(wire).contains(y));
                        let k = choose|k: int|
                            0 <= k < network.wire_words(wire).len() && network.wire_words(wire)[k]
                                == y;
                        assert(network.wire_words(wire)[k] == y);
                    }
                }
            }
            index = index + 1;
        }
        Ghost(links)
    }
}

/// Whether a packed terminal belongs to the devices before one in a list, or to the terminals before
/// one of that device.
pub(crate) open spec fn passed(ids: Seq<DeviceId>, x: u64, index: int, terminal: int) -> bool {
    ||| exists|j: int| 0 <= j < index && (#[trigger] ids[j]).value() == word_id(x)
    ||| index < ids.len() && ids[index].value() == word_id(x) && word_terminal(x) < terminal
}

/// Whether one packed terminal comes before another.
pub open spec fn comes_before(x: u64, y: u64) -> bool {
    word_id(x) < word_id(y) || (word_id(x) == word_id(y) && word_terminal(x) < word_terminal(y))
}

/// Whether these are connections of the network: all between wires, and those of the terminals that
/// were passed.
pub(crate) open spec fn terminals_linked(
    network: Network,
    links: spec_fn(u64, u64) -> bool,
    ids: Seq<DeviceId>,
    index: int,
    terminal: int,
) -> bool {
    &&& links_of(network, links)
    &&& forall|x: u64, y: u64| #[trigger]
        network.linked(x, y) && !is_terminal_word(x) && !is_terminal_word(y) ==> links(x, y)
    &&& forall|x: u64, y: u64| #[trigger]
        links(x, y) && is_terminal_word(x) && !is_terminal_word(y) ==> passed(
            ids,
            x,
            index,
            terminal,
        )
    &&& forall|x: u64, y: u64| #[trigger]
        network.linked(x, y) && is_terminal_word(x) && passed(ids, x, index, terminal) && (
        !is_terminal_word(y) || comes_before(x, y)) ==> links(x, y)
}

/// The revisions of islands are bounded.
pub(crate) open spec fn revisions_within(topology: DerivedTopology, bound: int) -> bool {
    forall|i: u32| #[trigger]
        topology.islands@.contains_key(i) ==> topology.islands@[i].revision <= bound
}

/// Joining islands gives one of them the next revision.
proof fn lemma_revisions_joined(
    before: DerivedTopology,
    after: DerivedTopology,
    network: Network,
    definitions: DefinitionRegistry,
    a: u32,
    b: u32,
    bound: int,
)
    requires
        revisions_within(before, bound),
        before.islands_after_join(after, network, definitions, a, b),
        before.islands@.contains_key(a),
        before.islands@.contains_key(b),
    ensures
        revisions_within(after, bound + 1),
{
    assert forall|i: u32| #[trigger] after.islands@.contains_key(i) implies
        after.islands@[i].revision <= bound + 1 by {
        assert(after.islands@.dom().contains(i));
        assert(before.islands@.dom().contains(i));
        assert(before.islands@.contains_key(i));
    }
}

proof fn lemma_revisions_bumped(
    before: DerivedTopology,
    after: DerivedTopology,
    island: u32,
    bound: int,
)
    requires
        revisions_within(before, bound),
        before.bumped(after, island),
    ensures
        revisions_within(after, bound + 1),
{
    assert forall|i: u32| #[trigger] after.islands@.contains_key(i) implies
        after.islands@[i].revision <= bound + 1 by {
        assert(after.islands@.dom().contains(i));
        assert(before.islands@.dom().contains(i));
        assert(before.islands@.contains_key(i));
    }
}

impl DerivedTopology {
    /// Follows one connection of a terminal.
    #[verifier::spinoff_prover]
    #[verifier::rlimit(40)]
    fn join_connection(
        &mut self,
        definitions: &DefinitionRegistry,
        network: &Network,
        device: DeviceId,
        terminal: TerminalId,
        connection: crate::connection::ConnectionRef,
        Ghost(links): Ghost<spec_fn(u64, u64) -> bool>,
        Ghost(bound): Ghost<int>,
    ) -> (result: Ghost<spec_fn(u64, u64) -> bool>)
        requires
            network_ok(*network, *definitions),
            links_of(*network, links),
            old(self).joined(*network, *definitions, links),
            terminal.value() < 0x8000_0000,
            network.linked(
                terminal_word(device.value(), terminal.value()),
                connection.word(),
            ),
            !is_terminal_word(connection.word()) ==> forall|y: u64|
                !#[trigger] links(terminal_word(device.value(), terminal.value()), y),
            revisions_within(*old(self), bound),
            bound < u64::MAX,
        ensures
            final(self).joined(*network, *definitions, result@),
            ({
                let x = terminal_word(device.value(), terminal.value());
                let y = connection.word();
                result@ == if !is_terminal_word(y) {
                    with_link(links, y, x)
                } else if comes_before(x, y) {
                    with_link(links, x, y)
                } else {
                    links
                }
            }),
            revisions_within(*final(self), bound + 1),
            !is_terminal_word(connection.word()) ==> old(self).terminal_united(
                *final(self),
                *network,
                *definitions,
                word_id(connection.word()),
                terminal_word(device.value(), terminal.value()),
            ),
            is_terminal_word(connection.word()) ==> {
                let x = terminal_word(device.value(), terminal.value());
                let y = connection.word();
                if comes_before(x, y) {
                    old(self).components_united(
                        *final(self),
                        *network,
                        *definitions,
                        component_of(*network, *definitions, x),
                        component_of(*network, *definitions, y),
                    )
                } else {
                    *final(self) == *old(self)
                }
            },
    {
        broadcast use {group_words, lemma_component_word, DenseIdStore::lemma_live};

        let ghost t0 = *self;
        let ghost x = terminal_word(device.value(), terminal.value());
        let ghost y = connection.word();
        let packed: u64 = connection.to_word();
        let number: u32 = device.get();
        proof {
            assert(network.linked(y, x));
            lemma_linked_live(*network, *definitions, x, y);
            lemma_linked_live(*network, *definitions, y, x);
            let c = component_of(*network, *definitions, x);
            assert(t0.islands@.contains_key(t0.component_label(*network, c)));
        }
        if let Some(wire) = connection.as_wire() {
            self.join_terminal(definitions, network, wire.get(), device, terminal, Ghost(links));
            proof {
                let c = component_of(*network, *definitions, x);
                let net = t0.net_of(wire.value());
                let island = t0.component_label(*network, c);
                assert(network.wire_live(wire.value()));
                assert(t0.nets@.contains_key(net));
                t0.lemma_terminal_united(*self, *network, *definitions, wire.value(), x);
                if t0.net_label(net) == 0 || t0.net_label(net) == island {
                    lemma_revisions_bumped(t0, *self, island, bound);
                } else {
                    assert(t0.nets@.contains_key(net));
                    lemma_revisions_joined(
                        t0,
                        *self,
                        *network,
                        *definitions,
                        t0.net_label(net),
                        island,
                        bound,
                    );
                }
            }
            return Ghost(with_link(links, y, x));
        }
        let (other_device, other_terminal) = connection.as_terminal().unwrap();
        let other_number: u32 = other_device.get();
        if number < other_number || (number == other_number && terminal.id() < other_terminal.id()) {
            let component_a: u64 = terminal_component(
                definitions,
                network,
                device,
                terminal,
            ).to_word();
            let component_b: u64 = terminal_component(
                definitions,
                network,
                other_device,
                other_terminal,
            ).to_word();
            self.connect_components(
                definitions,
                network,
                component_a,
                component_b,
                Ghost(links),
                Ghost(x),
                Ghost(y),
            );
            proof {
                let a = t0.component_label(*network, component_a);
                let b = t0.component_label(*network, component_b);
                assert(t0.islands@.contains_key(a) && t0.islands@.contains_key(b));
                t0.lemma_component_island(*network, component_a);
                t0.lemma_component_island(*network, component_b);
                if a != b {
                    t0.lemma_islands_united(*self, *network, *definitions, a, b);
                    let (dst, src) = t0.merge_target(a, b);
                    t0.lemma_contents_moved(*self, *network, *definitions, src, dst);
                    t0.lemma_model();
                    self.lemma_model();
                    assert forall|w: u32| #[trigger] self.wire_net_spec(w) == t0.wire_net_spec(
                        w,
                    ) by {
                        t0.lemma_wire_net(w);
                        self.lemma_wire_net(w);
                    }
                    lemma_revisions_joined(t0, *self, *network, *definitions, a, b, bound);
                }
            }
            return Ghost(with_link(links, x, y));
        }
        Ghost(links)
    }

    /// Follows the connections of the terminals of one device.
    #[verifier::spinoff_prover]
    #[verifier::rlimit(60)]
    fn join_device(
        &mut self,
        definitions: &DefinitionRegistry,
        network: &Network,
        ids: &Vec<DeviceId>,
        index: usize,
        Ghost(links): Ghost<spec_fn(u64, u64) -> bool>,
        Ghost(start): Ghost<DerivedTopology>,
    ) -> (result: Ghost<spec_fn(u64, u64) -> bool>)
        requires
            network_ok(*network, *definitions),
            start.connections_followed(
                *old(self),
                *network,
                *definitions,
                ids@,
                index as int,
                0,
            ),
            old(self).joined(*network, *definitions, links),
            index < ids@.len() <= u32::MAX,
            network.device_live(ids@[index as int].value()),
            forall|i: int, j: int|
                0 <= i < j < ids@.len() ==> (#[trigger] ids@[i]).value() != (
                #[trigger] ids@[j]).value(),
            terminals_linked(*network, links, ids@, index as int, 0),
            revisions_within(*old(self), index * 0x8000_0000),
        ensures
            final(self).joined(*network, *definitions, result@),
            terminals_linked(*network, result@, ids@, index + 1, 0),
            revisions_within(*final(self), (index + 1) * 0x8000_0000),
            start.connections_followed(
                *final(self),
                *network,
                *definitions,
                ids@,
                index + 1,
                0,
            ),
    {
        broadcast use {group_words, lemma_component_word};

        let device = ids[index];
        let number: u32 = device.get();
        let ghost d = device.value();
        let view = network.device(device).unwrap();
        let terminals = view.terminals();
        let ghost mut current: spec_fn(u64, u64) -> bool = links;
        let mut at: usize = 0;
        while at < terminals.len()
            invariant
                network_ok(*network, *definitions),
                index < ids@.len() <= u32::MAX,
                ids@[index as int] == device,
                d == device.value(),
                d != 0,
                network.device_live(d),
                terminals@ == network.device_model(d).terminals,
                at <= terminals@.len(),
                forall|i: int, j: int|
                    0 <= i < j < ids@.len() ==> (#[trigger] ids@[i]).value() != (
                    #[trigger] ids@[j]).value(),
                self.joined(*network, *definitions, current),
                terminals_linked(*network, current, ids@, index as int, at as int),
                start.connections_followed(
                    *self,
                    *network,
                    *definitions,
                    ids@,
                    index as int,
                    at as int,
                ),
                revisions_within(
                    *self,
                    index * 0x8000_0000 + if at < 0x8000_0000 {
                        at as int
                    } else {
                        0x8000_0000
                    },
                ),
            decreases terminals@.len() - at,
        {
            broadcast use {group_words, lemma_component_word};

            let ghost fewer = current;
            let ghost before = *self;
            let ghost x = terminal_word(d, at as u32);
            if let Some(connection) = terminals[at] {
                let ghost y = connection.word();
                proof {
                    assert(network.arena().device_model(d).terminals[at as int] is Some);
                    assert(at < 0x8000_0000);
                    assert(network.linked(x, y));
                    assert(word_id(x) == d && word_terminal(x) == at);
                    assert(!passed(ids@, x, index as int, at as int));
                    if !is_terminal_word(y) {
                        assert forall|z: u64| !#[trigger] current(x, z) by {
                            if current(x, z) {
                                assert(network.linked(x, z));
                                assert(z == y);
                            }
                        }
                    }
                }
                let more = self.join_connection(
                    definitions,
                    network,
                    device,
                    TerminalId::new(at as u32),
                    connection,
                    Ghost(current),
                    Ghost(index * 0x8000_0000 + at),
                );
                proof {
                    assert(network.linked(y, x));
                    if !is_terminal_word(y) {
                        lemma_links_grow(*network, fewer, y, x);
                    } else {
                        lemma_links_grow(*network, fewer, x, y);
                    }
                    current = more@;
                }
            }
            proof {
                assert(before.connection_followed(
                    *self,
                    *network,
                    *definitions,
                    d,
                    at as int,
                ));
                start.lemma_one_more_followed(
                    before,
                    *self,
                    *network,
                    *definitions,
                    ids@,
                    index as int,
                    at as int,
                );
                assert forall|z: u64, v: u64| #[trigger] fewer(z, v) implies current(z, v) by {}
                assert forall|z: u64| passed(ids@, z, index as int, at as int) implies #[trigger]
                    passed(ids@, z, index as int, at + 1) by {}
                assert forall|z: u64, v: u64| #[trigger]
                    network.linked(z, v) && !is_terminal_word(z) && !is_terminal_word(
                        v,
                    ) implies current(z, v) by {
                    assert(fewer(z, v));
                }
                assert forall|z: u64, v: u64| #[trigger]
                    current(z, v) && is_terminal_word(z) && !is_terminal_word(v) implies passed(
                    ids@,
                    z,
                    index as int,
                    at + 1,
                ) by {
                    if fewer(z, v) {
                        assert(passed(ids@, z, index as int, at as int));
                    } else {
                        assert(z == x);
                    }
                }
                assert forall|z: u64, v: u64| #[trigger]
                    network.linked(z, v) && is_terminal_word(z) && passed(
                        ids@,
                        z,
                        index as int,
                        at + 1,
                    ) && (!is_terminal_word(v) || comes_before(z, v)) implies current(z, v) by {
                    if passed(ids@, z, index as int, at as int) {
                        assert(fewer(z, v));
                    } else {
                        assert(word_id(z) == d && word_terminal(z) == at);
                        lemma_linked_live(*network, *definitions, z, v);
                        assert(z == x);
                        assert(terminals@[at as int] is Some);
                    }
                }
            }
            at = at + 1;
        }
        proof {
            assert((index + 1) * 0x8000_0000 == index * 0x8000_0000 + 0x8000_0000);
            assert forall|z: u64, v: u64| #[trigger]
                current(z, v) && is_terminal_word(z) && !is_terminal_word(v) implies passed(
                ids@,
                z,
                index + 1,
                0,
            ) by {
                assert(passed(ids@, z, index as int, at as int));
                if ids@[index as int].value() == word_id(z) {
                    assert(ids@[index as int].value() == word_id(z));
                }
            }
            assert forall|z: u64, v: u64| #[trigger]
                network.linked(z, v) && is_terminal_word(z) && passed(ids@, z, index + 1, 0) && (
                !is_terminal_word(v) || comes_before(z, v)) implies current(z, v) by {
                lemma_linked_live(*network, *definitions, z, v);
                let j = choose|j: int|
                    0 <= j < index + 1 && (#[trigger] ids@[j]).value() == word_id(z);
                if j < index {
                    assert(passed(ids@, z, index as int, at as int));
                } else {
                    assert(word_terminal(z) < terminals@.len());
                    assert(passed(ids@, z, index as int, at as int));
                }
            }
        }
        Ghost(current)
    }

    /// Derives the topology of a network.
    pub fn from_network(network: &Network, definitions: &DefinitionRegistry) -> (result: Self)
        requires
            network_ok(*network, *definitions),
            network.wire_slots() <= MAX_PACKED_ID,
            components_before(*network, *definitions, network.arena().spec_chunk_count())
                <= u32::MAX,
        ensures
            result.consistent(*network, *definitions),
            result.all_marked(),
            result.attached_in_order(*network, *definitions),
    {
        broadcast use group_words;

        let mut topology = DerivedTopology::new();
        proof {
            topology.lemma_new();
            assert(topology.wires_opened(*network, 0));
            assert(topology.rows_added(*network, *definitions, 0, 0)) by {
                network.arena().lemma_wf();
                assert forall|c: u64| #[trigger] is_component(
                    *network,
                    *definitions,
                    c,
                ) implies !placed(*network, c, 0, 0) by {
                    assert(network.arena().resident(component_device(c)));
                }
            }
        }
        topology.open_wires(network);
        let ghost opened = topology;
        topology.add_devices(definitions, network);
        let ghost none = |x: u64, y: u64| false;
        proof {
            assert forall|w: u32| #[trigger] topology.net_of(w) == opened.net_of(w) by {}
            assert forall|n: u32| #[trigger] topology.net_label(n) == opened.net_label(n) by {}
            assert(topology.wires_opened(*network, network.wire_slots())) by {
                assert forall|n: u32| #[trigger] topology.nets@.contains_key(n) implies {
                    &&& topology.nets@[n].wires@.len() == 1
                    &&& topology.net_of(topology.nets@[n].wires@[0]) == n
                    &&& topology.nets@[n].terminals@ == Seq::<u64>::empty()
                    &&& topology.nets@[n].terminal_components@ == Seq::<u64>::empty()
                } by {
                    assert(opened.nets@.contains_key(n));
                    assert(opened.net_of(opened.nets@[n].wires@[0]) == n);
                }
                assert forall|w: u32| #[trigger] topology.net_of(w) != 0 <==> (network.wire_live(w)
                    && w <= network.wire_slots()) by {
                    assert(opened.net_of(w) != 0 <==> (network.wire_live(w) && w
                        <= network.wire_slots()));
                }
                assert forall|w: u32| #[trigger] topology.net_of(w) != 0 implies
                    topology.nets@.contains_key(topology.net_of(w))
                    && topology.nets@[topology.net_of(w)].wires@ == seq![w] && topology.net_of(w)
                    == wires_up_to(*network, w as int) by {
                    assert(opened.net_of(w) != 0);
                }
                assert forall|n: u32| #[trigger] topology.net_label(n) == 0 by {
                    assert(opened.net_label(n) == 0);
                }
            }
            lemma_unlinked(topology, *network, *definitions, none);
        }
        let ghost rows = topology;
        let linked = topology.join_all_wires(definitions, network);
        let ghost start = topology;
        let ids = network.iter_device_ids();
        let ghost mut links = linked@;
        proof {
            network.arena().lemma_wf();
            lemma_ids_bounded(*network, ids@);
            assert forall|x: u64, y: u64| #[trigger]
                network.linked(x, y) && !is_terminal_word(x) && !is_terminal_word(y) implies links(
                x,
                y,
            ) by {
                assert(network.linked(y, x));
                lemma_linked_live(*network, *definitions, x, y);
                lemma_linked_live(*network, *definitions, y, x);
                assert(x == wire_word(word_id(x)) && y == wire_word(word_id(y)));
                if word_id(y) < word_id(x) {
                    assert(links(y, x));
                }
            }
            assert forall|x: u64| !#[trigger] passed(ids@, x, 0, 0) by {}
            assert(terminals_linked(*network, links, ids@, 0, 0));
            start.lemma_no_islands(*network, *definitions, links);
            lemma_unattached_start(rows, start, *network, *definitions, links);
            lemma_unwired_start(rows, *network);
        }
        let mut index: usize = 0;
        while index < ids.len()
            invariant
                network_ok(*network, *definitions),
                index <= ids@.len() <= u32::MAX,
                topology.joined(*network, *definitions, links),
                terminals_linked(*network, links, ids@, index as int, 0),
                start.connections_followed(
                    topology,
                    *network,
                    *definitions,
                    ids@,
                    index as int,
                    0,
                ),
                revisions_within(topology, index * 0x8000_0000),
                forall|i: int|
                    0 <= i < ids@.len() ==> network.device_live((#[trigger] ids@[i]).value()),
                forall|i: int, j: int|
                    0 <= i < j < ids@.len() ==> (#[trigger] ids@[i]).value() != (
                    #[trigger] ids@[j]).value(),
            decreases ids@.len() - index,
        {
            let more = topology.join_device(
                definitions,
                network,
                &ids,
                index,
                Ghost(links),
                Ghost(start),
            );
            proof {
                links = more@;
            }
            index = index + 1;
        }
        proof {
            assert forall|x: u64, y: u64| #[trigger] links(x, y) == network_links(*network)(
                x,
                y,
            ) by {
                if network.linked(x, y) {
                    lemma_all_linked(*network, *definitions, links, ids@, x, y);
                }
            }
            assert(links =~= network_links(*network));
            lemma_joined_all(topology, *network, *definitions);
        }
        let ghost end = topology;
        topology.mark_all();
        proof {
            topology.lemma_consistent(*network, *definitions);
            end.lemma_model();
            topology.lemma_model();
            assert(end.same_but_for_marks(topology, *network)) by {
                assert forall|w: u32| #[trigger]
                    topology.wire_net_spec(w) == end.wire_net_spec(w) by {
                    end.lemma_wire_net(w);
                    topology.lemma_wire_net(w);
                }
                assert forall|n: u32| #[trigger]
                    topology.net_island_spec(n) == end.net_island_spec(n) by {
                    assert(topology.net_label(n) == end.net_label(n));
                }
                assert forall|c: u64| #[trigger]
                    topology.component_island_spec(*network, c) == end.component_island_spec(
                        *network,
                        c,
                    ) by {
                    end.lemma_component_island(*network, c);
                    topology.lemma_component_island(*network, c);
                }
            }
            assert(lists_devices(*network, ids@));
            assert(rows.wires_joined(start, *network, network.wire_slots(), 0));
            assert(start.connections_followed(
                end,
                *network,
                *definitions,
                ids@,
                ids@.len() as int,
                0,
            ));
        }
        topology
    }
}

/// Before connections are followed, each wire is in a net of its own.
proof fn lemma_unwired_start(rows: DerivedTopology, network: Network)
    requires
        network.wf(),
        rows.wires_opened(network, network.wire_slots()),
    ensures
        rows.is_unwired(network),
{
    rows.lemma_model();
    assert forall|w: u32| #[trigger]
        rows.wire_net_spec(w) == if network.wire_live(w) {
            wires_up_to(network, w as int)
        } else {
            0
        } by {
        rows.lemma_wire_net(w);
        assert(rows.net_of(w) != 0 <==> (network.wire_live(w) && w <= network.wire_slots()));
    }
    assert forall|w: u32| network.wire_live(w) implies {
        let net = rows.net_at(#[trigger] rows.wire_net_spec(w));
        net.spec_wires() == seq![w] && net.spec_components() == Seq::<u64>::empty()
    } by {
        rows.lemma_wire_net(w);
        assert(rows.net_of(w) != 0);
        assert(rows.nets@.contains_key(rows.net_of(w)));
        rows.nets@[rows.net_of(w)].lemma_lists();
    }
    assert forall|n: u32| #[trigger] rows.net_island_spec(n) == 0 by {
        assert(rows.net_label(n) == 0);
    }
}

/// Before terminals are followed, each component is in an island of its own.
proof fn lemma_unattached_start(
    rows: DerivedTopology,
    start: DerivedTopology,
    network: Network,
    definitions: DefinitionRegistry,
    links: spec_fn(u64, u64) -> bool,
)
    requires
        network_ok(network, definitions),
        start.islands == rows.islands,
        start.joined(network, definitions, links),
        rows.rows_added(network, definitions, network.arena().spec_chunk_count(), 0),
        forall|n: u32| #[trigger] start.net_label(n) == 0,
    ensures
        start.is_unattached(network, definitions),
{
    let all = network.arena().spec_chunk_count();
    start.lemma_model();
    start.lemma_island_slots();
    network.arena().lemma_wf();
    assert forall|c: u64| is_component(network, definitions, c) implies {
        let island = #[trigger] start.component_island_spec(network, c);
        &&& island == component_rank(network, definitions, c) + 1
        &&& start.has_island(island)
        &&& start.island_at(island).spec_components() == seq![c]
    } by {
        start.lemma_component_island(network, c);
        let island = start.component_label(network, c);
        assert(start.islands@.contains_key(island));
        assert(start.islands@[island].components@.contains(c));
        start.islands@[island].lemma_list();
        assert(rows.islands@[island].components@.len() == 1);
        assert(start.islands@[island].components@ =~= seq![c]);
        assert(rows.islands@[island].components@[0] == c);
        assert(rows.component_label(network, c) == island);
        assert(network.arena().resident(component_device(c)));
        assert(placed(network, c, all, 0));
    }
    assert forall|i: u32| #[trigger] start.has_island(i) implies {
        &&& start.island_at(i).spec_components().len() == 1
        &&& start.island_at(i).spec_revision() == 0
    } by {
        assert(rows.islands@.contains_key(i));
        start.islands@[i].lemma_list();
    }
    assert forall|i: u32| #[trigger] start.has_island(i) <==> 1 <= i
        <= start.spec_island_slots() by {
        assert(rows.islands@.contains_key(i) == start.has_island(i));
    }
    assert forall|n: u32| #[trigger] start.net_island_spec(n) == 0 by {
        assert(start.net_label(n) == 0);
    }
}

/// A list of different devices is no longer than the directory.
proof fn lemma_ids_bounded(network: Network, ids: Seq<DeviceId>)
    requires
        network.wf(),
        forall|d: u32| #[trigger]
            network.device_live(d) <==> exists|i: int|
                0 <= i < ids.len() && (#[trigger] ids[i]).value() == d,
        forall|i: int, j: int|
            0 <= i < j < ids.len() ==> (#[trigger] ids[i]).value() != (#[trigger] ids[j]).value(),
    ensures
        ids.len() <= u32::MAX,
        forall|i: int| 0 <= i < ids.len() ==> network.device_live((#[trigger] ids[i]).value()),
{
    network.arena().lemma_wf();
    assert forall|i: int| 0 <= i < ids.len() implies network.device_live(
        (#[trigger] ids[i]).value(),
    ) by {
        assert(ids[i].value() == ids[i].value());
    }
    let numbers = Seq::new(ids.len(), |i: int| ids[i].value());
    assert(numbers.no_duplicates()) by {
        assert forall|i: int, j: int|
            0 <= i < numbers.len() && 0 <= j < numbers.len() && i != j implies numbers[i]
            != numbers[j] by {
            if i < j {
                assert(ids[i].value() != ids[j].value());
            } else {
                assert(ids[j].value() != ids[i].value());
            }
        }
    }
    assert forall|i: int| 0 <= i < numbers.len() implies 1 <= #[trigger] numbers[i]
        <= network.arena().spec_directory_len() by {
        assert(network.device_live(ids[i].value()));
        assert(network.arena().resident(ids[i].value()));
    }
    crate::traversal::lemma_numbers_bounded(
        numbers,
        network.arena().spec_directory_len() as nat,
    );
}

/// Once all devices are passed, all connections are there.
proof fn lemma_all_linked(
    network: Network,
    definitions: DefinitionRegistry,
    links: spec_fn(u64, u64) -> bool,
    ids: Seq<DeviceId>,
    x: u64,
    y: u64,
)
    requires
        network_ok(network, definitions),
        terminals_linked(network, links, ids, ids.len() as int, 0),
        forall|d: u32| #[trigger]
            network.device_live(d) <==> exists|i: int|
                0 <= i < ids.len() && (#[trigger] ids[i]).value() == d,
        network.linked(x, y),
    ensures
        links(x, y),
{
    broadcast use group_words;

    assert(network.linked(y, x));
    lemma_linked_live(network, definitions, x, y);
    lemma_linked_live(network, definitions, y, x);
    if is_terminal_word(x) {
        assert(network.device_live(word_id(x)));
        assert(passed(ids, x, ids.len() as int, 0));
        if is_terminal_word(y) && !comes_before(x, y) {
            assert(network.device_live(word_id(y)));
            assert(passed(ids, y, ids.len() as int, 0));
            assert(comes_before(y, x));
            assert(links(y, x));
        }
    } else if is_terminal_word(y) {
        assert(network.device_live(word_id(y)));
        assert(passed(ids, y, ids.len() as int, 0));
        assert(links(y, x));
    }
}

/// What deriving the topology of a network gives. Two wires share a net exactly if they are connected
/// by wires. Two components share an island exactly if they are connected. The net of a wire is in
/// no island exactly if no component is connected to it. Every island is marked for its topology,
/// once, and nothing is marked otherwise.
pub proof fn law_deriving_finds_what_is_connected(
    topology: DerivedTopology,
    network: Network,
    definitions: DefinitionRegistry,
)
    requires
        network_ok(network, definitions),
        topology.consistent(network, definitions),
        topology.all_marked(),
    ensures
        forall|a: u32, b: u32|
            #![trigger topology.wire_net_spec(a), topology.wire_net_spec(b)]
            network.wire_live(a) && network.wire_live(b) ==> (topology.wire_net_spec(a)
                == topology.wire_net_spec(b) <==> connected(wire_edge(network), a, b)),
        forall|a: u64, b: u64|
            #![trigger is_component(network, definitions, a), is_component(network, definitions, b)]
            is_component(network, definitions, a) && is_component(network, definitions, b) ==> (
            topology.component_island_spec(network, a) == topology.component_island_spec(network, b)
                <==> connected(
                vertex_edge(network, definitions),
                Vertex::Component(a),
                Vertex::Component(b),
            )),
        forall|w: u32| #[trigger]
            network.wire_live(w) ==> (topology.net_island_spec(topology.wire_net_spec(w)) == 0
                <==> !exists|c: u64| #[trigger]
                is_component(network, definitions, c) && connected(
                    vertex_edge(network, definitions),
                    Vertex::Wire(w),
                    Vertex::Component(c),
                )),
        forall|i: u32| #[trigger]
            topology.spec_invalidation().topology().contains(i) <==> topology.has_island(i),
        topology.spec_invalidation().topology().no_duplicates(),
        topology.spec_invalidation().numerical().len() == 0,
        topology.spec_invalidation().binding().len() == 0,
        topology.spec_invalidation().gone().len() == 0,
{
    assert forall|a: u32, b: u32|
        #![trigger topology.wire_net_spec(a), topology.wire_net_spec(b)]
        network.wire_live(a) && network.wire_live(b) implies (topology.wire_net_spec(a)
        == topology.wire_net_spec(b) <==> connected(wire_edge(network), a, b)) by {
        law_nets_are_connected_wires(topology, network, definitions, a, b);
    }
    assert forall|a: u64, b: u64|
        #![trigger is_component(network, definitions, a), is_component(network, definitions, b)]
        is_component(network, definitions, a) && is_component(network, definitions, b) implies (
    topology.component_island_spec(network, a) == topology.component_island_spec(network, b)
        <==> connected(
        vertex_edge(network, definitions),
        Vertex::Component(a),
        Vertex::Component(b),
    )) by {
        law_islands_are_connected_components(topology, network, definitions, a, b);
    }
    assert forall|w: u32| #[trigger] network.wire_live(w) implies (topology.net_island_spec(
        topology.wire_net_spec(w),
    ) == 0 <==> !exists|c: u64| #[trigger]
        is_component(network, definitions, c) && connected(
            vertex_edge(network, definitions),
            Vertex::Wire(w),
            Vertex::Component(c),
        )) by {
        law_wire_islands(topology, network, definitions, w);
    }
}

} // verus!
