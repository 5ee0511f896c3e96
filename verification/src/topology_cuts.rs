//! What the derived topology does when something is taken out of the network.

use crate::connection::{
    component_device, component_word, group_words, is_terminal_word, lemma_component_word,
    terminal_word, wire_word, word_id,
};
use crate::dense_store::DenseIdStore;
use crate::graph::{connected, lemma_connected_within};
use crate::ids::{DeviceId, TerminalId, WireId};
use crate::island_traversal::{covers_bare_nets, lemma_linked_live};
use crate::network::Network;
use crate::registry::DefinitionRegistry;
use crate::scratch::TraversalScratch;
use crate::small_list::{dropped, lemma_dropped_at, lemma_swap_removed, swap_removed, IdList};
use crate::topology::{
    component_of, is_component, network_ok, terminal_component, terminal_partition, vertex_edge,
    vertex_of, wire_edge, DerivedTopology, Net, Vertex,
};
use vstd::prelude::*;

verus! {

/// Whether one network is another with the same wires and devices, but with fewer connections.
pub open spec fn links_cut(before: Network, after: Network) -> bool {
    forall|x: u64, y: u64| #[trigger] after.linked(x, y) ==> before.linked(x, y)
}

/// Whether the components that are left are those of before, in the same islands.
pub(crate) open spec fn components_kept(
    t0: DerivedTopology,
    t1: DerivedTopology,
    before: Network,
    after: Network,
    definitions: DefinitionRegistry,
) -> bool {
    &&& forall|c: u64| #[trigger]
        is_component(after, definitions, c) ==> is_component(before, definitions, c)
            && t1.component_label(after, c) == t0.component_label(before, c)
    &&& forall|x: u64|
        is_terminal_word(x) && after.device_live(word_id(x)) ==> #[trigger] component_of(
            after,
            definitions,
            x,
        ) == component_of(before, definitions, x)
}

/// Changing connections changes neither components nor where their islands are kept.
pub(crate) proof fn lemma_same_shape(
    topology: DerivedTopology,
    before: Network,
    after: Network,
    definitions: DefinitionRegistry,
)
    requires
        network_ok(before, definitions),
        network_ok(after, definitions),
        before.same_devices(after),
    ensures
        components_kept(topology, topology, before, after, definitions),
        components_kept(topology, topology, after, before, definitions),
        after.wire_slots() == before.wire_slots() && topology.structure_ok(before, definitions)
            ==> topology.structure_ok(after, definitions),
{
    assert forall|d: u32| #[trigger] before.device_live(d) == after.device_live(d) by {
        assert(after.arena().resident(d) == before.arena().resident(d));
    }
    assert forall|c: u64| #[trigger]
        is_component(after, definitions, c) == is_component(before, definitions, c) by {
        let d = component_device(c);
        assert(before.device_live(d) == after.device_live(d));
    }
    assert forall|c: u64| is_component(before, definitions, c) implies #[trigger]
        topology.component_label(after, c) == topology.component_label(before, c) by {
        let d = component_device(c);
        assert(after.arena().chunk_of(d) == before.arena().chunk_of(d));
        assert(after.arena().row_of(d) == before.arena().row_of(d));
    }
    assert forall|c: u64| #[trigger]
        is_component(after, definitions, c) implies topology.component_label(after, c)
        == topology.component_label(before, c) by {
        assert(is_component(before, definitions, c));
    }
    assert forall|x: u64|
        is_terminal_word(x) && after.device_live(word_id(x)) implies #[trigger] component_of(
        after,
        definitions,
        x,
    ) == component_of(before, definitions, x) by {
        assert(before.device_live(word_id(x)));
    }
    if after.wire_slots() == before.wire_slots() && topology.structure_ok(before, definitions) {
        assert forall|c: int| 0 <= c < topology.device_chunks@.len() implies {
            let chunk = #[trigger] topology.device_chunks@[c];
            &&& chunk.wf()
            &&& chunk.rows() == after.arena().rows(c)
            &&& chunk.partitions() == definitions.definition(
                after.arena().spec_chunk_definition(c).value(),
            ).spec_partition_count()
        } by {
            assert(after.arena().rows(c) == before.arena().rows(c));
            assert(after.arena().spec_chunk_definition(c) == before.arena().spec_chunk_definition(
                c,
            ));
        }
    }
}

/// Islands from which no connection was taken are still connected.
pub(crate) proof fn lemma_cut_islands(
    t0: DerivedTopology,
    t1: DerivedTopology,
    before: Network,
    after: Network,
    definitions: DefinitionRegistry,
    broken: Set<u32>,
)
    requires
        network_ok(before, definitions),
        network_ok(after, definitions),
        t0.closed_ok(before, definitions),
        t0.islands_connected(before, definitions, Set::empty()),
        forall|c: u64| #[trigger]
            is_component(before, definitions, c) ==> t0.component_label(before, c) != 0,
        links_cut(before, after),
        components_kept(t0, t1, before, after, definitions),
        forall|x: u64, y: u64| #[trigger]
            before.linked(x, y) && !after.linked(x, y) ==> t0.label(before, definitions, x) == 0
                || broken.contains(t0.label(before, definitions, x)),
    ensures
        t1.islands_connected(after, definitions, broken),
{
    let old_edge = vertex_edge(before, definitions);
    let new_edge = vertex_edge(after, definitions);
    assert forall|a: u64, b: u64|
        #![trigger t1.component_label(after, a), t1.component_label(after, b)]
        is_component(after, definitions, a) && is_component(after, definitions, b)
            && t1.component_label(after, a) == t1.component_label(after, b) && !broken.contains(
            t1.component_label(after, a),
        ) implies connected(new_edge, Vertex::Component(a), Vertex::Component(b)) by {
        let island = t1.component_label(after, a);
        assert(is_component(before, definitions, a) && is_component(before, definitions, b));
        assert(t0.component_label(before, a) == t0.component_label(before, b));
        assert(connected(old_edge, Vertex::Component(a), Vertex::Component(b)));
        let within = |v: Vertex|
            match v {
                Vertex::Wire(w) => t0.net_label(t0.net_of(w)) == island,
                Vertex::Component(c) => t0.component_label(before, c) == island,
            };
        assert forall|u: Vertex, v: Vertex| within(u) && #[trigger] old_edge(u, v) implies within(v)
            && new_edge(u, v) by {
            let (x, y) = choose|x: u64, y: u64| #[trigger]
                before.linked(x, y) && vertex_of(before, definitions, x) == u && vertex_of(
                    before,
                    definitions,
                    y,
                ) == v;
            assert(t0.label(before, definitions, x) == island);
            assert(t0.label(before, definitions, y) == island);
            assert(after.linked(x, y));
            assert(after.linked(y, x));
            lemma_linked_live(after, definitions, x, y);
            lemma_linked_live(after, definitions, y, x);
            assert(vertex_of(after, definitions, x) == u);
            assert(vertex_of(after, definitions, y) == v);
        }
        lemma_connected_within(
            old_edge,
            new_edge,
            within,
            Vertex::Component(a),
            Vertex::Component(b),
        );
    }
}

/// Nets from which no connection was taken are still connected.
pub(crate) proof fn lemma_cut_nets(
    t0: DerivedTopology,
    t1: DerivedTopology,
    before: Network,
    after: Network,
    definitions: DefinitionRegistry,
    broken: u32,
)
    requires
        t0.closed_ok(before, definitions),
        t0.nets_connected(before),
        forall|w: u32| #[trigger] after.wire_live(w) ==> before.wire_live(w),
        forall|w: u32| after.wire_live(w) ==> #[trigger] t1.net_of(w) == t0.net_of(w),
        forall|a: u32, b: u32| #[trigger]
            before.linked(wire_word(a), wire_word(b)) && !after.linked(wire_word(a), wire_word(b))
                ==> t0.net_of(a) == broken,
    ensures
        forall|a: u32, b: u32|
            #![trigger t1.net_of(a), t1.net_of(b)]
            after.wire_live(a) && after.wire_live(b) && t1.net_of(a) == t1.net_of(b) && t1.net_of(a)
                != broken ==> connected(wire_edge(after), a, b),
{
    broadcast use group_words;

    assert forall|a: u32, b: u32|
        #![trigger t1.net_of(a), t1.net_of(b)]
        after.wire_live(a) && after.wire_live(b) && t1.net_of(a) == t1.net_of(b) && t1.net_of(a)
            != broken implies connected(wire_edge(after), a, b) by {
        let net = t0.net_of(a);
        assert(t0.net_of(b) == net);
        assert(connected(wire_edge(before), a, b));
        let within = |w: u32| t0.net_of(w) == net;
        assert forall|u: u32, v: u32| within(u) && #[trigger] wire_edge(before)(u, v) implies within(
            v,
        ) && wire_edge(after)(u, v) by {
            assert(before.linked(wire_word(u), wire_word(v)));
        }
        lemma_connected_within(wire_edge(before), wire_edge(after), within, a, b);
    }
}

/// What was connected before has one net and one island still.
pub(crate) proof fn lemma_cut_closed(
    t0: DerivedTopology,
    t1: DerivedTopology,
    before: Network,
    after: Network,
    definitions: DefinitionRegistry,
)
    requires
        network_ok(before, definitions),
        network_ok(after, definitions),
        t0.closed_ok(before, definitions),
        links_cut(before, after),
        components_kept(t0, t1, before, after, definitions),
        forall|w: u32|
            after.wire_live(w) ==> #[trigger] t1.net_of(w) == t0.net_of(w) && t1.net_label(
                t1.net_of(w),
            ) == t0.net_label(t0.net_of(w)),
    ensures
        t1.closed_ok(after, definitions),
{
    assert forall|x: u64, y: u64| #[trigger] after.linked(x, y) implies {
        &&& t1.label(after, definitions, x) == t1.label(after, definitions, y)
        &&& !is_terminal_word(x) && !is_terminal_word(y) ==> t1.net_of(word_id(x)) == t1.net_of(
            word_id(y),
        )
    } by {
        assert(before.linked(x, y));
        assert(after.linked(y, x));
        lemma_linked_live(after, definitions, x, y);
        lemma_linked_live(after, definitions, y, x);
        assert(t1.label(after, definitions, x) == t0.label(before, definitions, x));
        assert(t1.label(after, definitions, y) == t0.label(before, definitions, y));
    }
}

impl Net {
    /// Takes a terminal off the list: one entry of its component goes.
    fn remove_terminal(&mut self, component: u64, Ghost(terminal): Ghost<u64>)
        requires
            old(self).terminals@.no_duplicates(),
            old(self).terminals@.len() == old(self).terminal_components@.len(),
            exists|j: int|
                0 <= j < old(self).terminals@.len() && #[trigger] old(self).terminals@[j]
                    == terminal && old(self).terminal_components@[j] == component,
        ensures
            final(self).wires == old(self).wires,
            final(self).terminals@.no_duplicates(),
            final(self).terminals@.len() == final(self).terminal_components@.len(),
            final(self).terminals@.len() == old(self).terminals@.len() - 1,
            final(self).terminal_components@ == dropped(
                old(self).terminal_components@,
                component,
            ),
            forall|x: u64| #[trigger]
                final(self).terminals@.contains(x) <==> (old(self).terminals@.contains(x) && x
                    != terminal),
            forall|i: int|
                0 <= i < final(self).terminals@.len() ==> exists|j: int|
                    0 <= j < old(self).terminals@.len() && old(self).terminals@[j]
                        == #[trigger] final(self).terminals@[i] && #[trigger] old(
                        self,
                    ).terminal_components@[j] == final(self).terminal_components@[i],
    {
        let ghost j = choose|j: int|
            0 <= j < old(self).terminals@.len() && #[trigger] old(self).terminals@[j] == terminal
                && old(self).terminal_components@[j] == component;
        assert(old(self).terminal_components@.contains(component)) by {
            assert(old(self).terminal_components@[j] == component);
        }
        let position: usize = self.terminal_components.position(component).unwrap();
        self.terminal_components.swap_remove(position);
        let ghost old_terminals = old(self).terminals@;
        let ghost swapped = old_terminals.update(j, old_terminals[position as int]).update(
            position as int,
            old_terminals[j],
        );
        self.terminals = Ghost(swap_removed(swapped, position as int));
        proof {
            lemma_dropped_at(old(self).terminal_components@, component, position as int);
            assert(swapped.no_duplicates());
            assert forall|x: u64| #[trigger] swapped.contains(x) == old_terminals.contains(x) by {
                if swapped.contains(x) {
                    let i = choose|i: int| 0 <= i < swapped.len() && swapped[i] == x;
                    let from = if i == position {
                        j
                    } else if i == j {
                        position as int
                    } else {
                        i
                    };
                    assert(old_terminals[from] == x);
                }
                if old_terminals.contains(x) {
                    let i = choose|i: int| 0 <= i < old_terminals.len() && old_terminals[i] == x;
                    let to = if i == position {
                        j
                    } else if i == j {
                        position as int
                    } else {
                        i
                    };
                    assert(swapped[to] == x);
                }
            }
            lemma_swap_removed(swapped, position as int);
            assert forall|i: int| 0 <= i < self.terminals@.len() implies exists|l: int|
                0 <= l < old(self).terminals@.len() && old(self).terminals@[l]
                    == #[trigger] self.terminals@[i] && #[trigger] old(
                    self,
                ).terminal_components@[l] == self.terminal_components@[i] by {
                let last = old_terminals.len() - 1;
                let at = if i == position {
                    last
                } else {
                    i
                };
                let l = if at == j {
                    position as int
                } else {
                    at
                };
                assert(old(self).terminals@[l] == self.terminals@[i]);
                assert(old(self).terminal_components@[l] == self.terminal_components@[i]);
            }
        }
    }
}

impl DerivedTopology {
    /// Whether the topology is that of an earlier network, and the network has changed since.
    pub open spec fn behind(
        self,
        network: Network,
        definitions: DefinitionRegistry,
        change: spec_fn(Network, Network) -> bool,
    ) -> bool {
        exists|before: Network| #[trigger]
            self.consistent(before, definitions) && network_ok(before, definitions) && change(
                before,
                network,
            )
    }
}

impl DerivedTopology {
    /// Whether `after` has the same nets, and the same islands but for one, which was split where it
    /// had fallen apart.
    pub closed spec fn resplit(
        self,
        after: Self,
        network: Network,
        definitions: DefinitionRegistry,
        island: u32,
    ) -> bool {
        &&& after.wire_net_map == self.wire_net_map
        &&& forall|i: u32|
            #![trigger after.islands@[i]]
            #![trigger after.islands@.contains_key(i)]
            i != island && self.islands@.contains_key(i) ==> after.islands@.contains_key(i)
                && after.islands@[i] == self.islands@[i]
        &&& forall|n: u32|
            self.net_label(n) != island ==> #[trigger] after.net_label(n) == self.net_label(n)
        &&& forall|c: u64|
            is_component(network, definitions, c) && self.component_label(network, c) != island
                ==> #[trigger] after.component_label(network, c) == self.component_label(network, c)
        &&& self.island_repaired(after, island)
    }

    /// The net of a wire that exists.
    pub(crate) fn wire_net_raw(&self, wire: u32) -> (result: u32)
        requires
            1 <= wire <= self.wire_net_map@.len(),
        ensures
            result == self.net_of(wire),
    {
        self.wire_net_map[(wire - 1) as usize]
    }

    /// Follows the network when a terminal has been detached from a wire.
    pub fn detach_terminal(
        &mut self,
        definitions: &DefinitionRegistry,
        network: &Network,
        scratch: &mut TraversalScratch,
        wire: WireId,
        device: DeviceId,
        terminal: TerminalId,
    )
        requires
            network_ok(*network, *definitions),
            old(self).behind(
                *network,
                *definitions,
                |before: Network, after: Network|
                    before.link_removed(
                        after,
                        wire_word(wire.value()),
                        terminal_word(device.value(), terminal.value()),
                    ),
            ),
            terminal.value() < 0x8000_0000,
            old(self).has_room(),
            old(scratch).wf(),
        ensures
            final(scratch).wf(),
            final(self).consistent(*network, *definitions),
            old(self).terminal_dropped(
                *final(self),
                old(self).wire_net_spec(wire.value()),
                component_word(
                    device.value(),
                    terminal_partition(
                        *network,
                        *definitions,
                        device.value(),
                        terminal.value() as int,
                    ),
                ),
            ),
            old(self).resplit(
                *final(self),
                *network,
                *definitions,
                old(self).component_island_spec(
                    *network,
                    component_word(
                        device.value(),
                        terminal_partition(
                            *network,
                            *definitions,
                            device.value(),
                            terminal.value() as int,
                        ),
                    ),
                ),
            ),
    {
        broadcast use {group_words, DenseIdStore::lemma_live, lemma_component_word};

        let ghost a = wire_word(wire.value());
        let ghost x = terminal_word(device.value(), terminal.value());
        let ghost before = choose|before: Network| #[trigger]
            self.consistent(before, *definitions) && network_ok(before, *definitions)
                && before.link_removed(*network, a, x);
        let ghost t0 = *self;
        let wire_number: u32 = wire.get();
        let device_number: u32 = device.get();
        proof {
            self.lemma_consistent(before, *definitions);
            self.lemma_room();
            lemma_same_shape(*self, before, *network, *definitions);
            assert(before.linked(a, x));
            assert(before.linked(x, a));
            lemma_linked_live(before, *definitions, a, x);
            lemma_linked_live(before, *definitions, x, a);
            assert(before.wire_live(wire.value()));
            assert(before.device_live(device.value()));
            assert(network.device_live(device.value()));
        }
        let net_id: u32 = self.wire_net_raw(wire.get());
        let component: u64 = terminal_component(definitions, network, device, terminal).to_word();
        let island_id: u32 = self.component_island_raw(definitions, network, component);
        proof {
            assert(component == component_of(*network, *definitions, x));
            assert(component == component_of(before, *definitions, x));
            assert(is_component(before, *definitions, component));
            assert(self.label(before, *definitions, x) == island_id);
            assert(self.label(before, *definitions, a) == island_id);
            assert(self.net_label(net_id) == island_id);
            assert(self.nets@.contains_key(net_id));
            assert(self.net_lists(before, *definitions, net_id));
            assert(self.attached(before, x, net_id)) by {
                assert(before.linked(x, a));
            }
            let listed = self.nets@[net_id].terminals@;
            assert(listed.contains(x));
            let j = choose|j: int| 0 <= j < listed.len() && listed[j] == x;
            assert(self.nets@[net_id].terminal_components@[j] == component);
        }
        self.nets.get_mut(net_id).remove_terminal(component, Ghost(x));
        let ghost broken = set![island_id];
        proof {
            lemma_terminal_detached(t0, *self, before, *network, *definitions, net_id, a, x);
            assert(self.islands@.contains_key(island_id));
            assert(self.room_to_split(island_id));
        }
        let mut affected = IdList::new();
        affected.push(net_id);
        proof {
            assert(affected@ =~= seq![net_id]);
            assert(affected@[0] == net_id);
            assert(covers_bare_nets(*self, island_id, affected@));
        }
        let ghost mid = *self;
        self.repair_island(definitions, network, scratch, island_id, &affected, Ghost(broken));
        proof {
            assert(broken.remove(island_id) =~= Set::empty());
            self.lemma_consistent(*network, *definitions);
            t0.lemma_consistent(*network, *definitions);
            assert forall|n: u32| #[trigger] mid.net_label(n) == t0.net_label(n) by {}
            assert forall|c: u64| #[trigger]
                mid.component_label(*network, c) == t0.component_label(*network, c) by {}
            assert(t0.island_repaired(*self, island_id));
            assert forall|n: u32| t0.net_label(n) != island_id implies #[trigger] self.net_label(n)
                == t0.net_label(n) by {
                assert(mid.net_label(n) == t0.net_label(n));
            }
            assert forall|c: u64|
                is_component(*network, *definitions, c) && t0.component_label(*network, c)
                    != island_id implies #[trigger] self.component_label(*network, c)
                == t0.component_label(*network, c) by {
                assert(mid.component_label(*network, c) == t0.component_label(*network, c));
            }
            t0.lemma_model();
            self.lemma_model();
            t0.lemma_wire_net(wire_number);
            t0.nets@[net_id].lemma_lists();
            self.nets@[net_id].lemma_lists();
            assert forall|w: u32| #[trigger] self.wire_net_spec(w) == t0.wire_net_spec(w) by {
                t0.lemma_wire_net(w);
                self.lemma_wire_net(w);
            }
        }
    }
}

/// Once a terminal is off its net's list, at most the island is left to be repaired.
proof fn lemma_terminal_detached(
    t0: DerivedTopology,
    t1: DerivedTopology,
    before: Network,
    after: Network,
    definitions: DefinitionRegistry,
    net: u32,
    a: u64,
    x: u64,
)
    requires
        network_ok(before, definitions),
        network_ok(after, definitions),
        before.link_removed(after, a, x),
        is_terminal_word(x),
        !is_terminal_word(a),
        t0.net_of(word_id(a)) == net,
        t0.consistent_except(before, definitions, Set::empty()),
        t1.nets.wf(),
        t1.nets.spec_slot_count() == t0.nets.spec_slot_count(),
        t0.nets@.contains_key(net),
        t1.nets@ == t0.nets@.insert(net, t1.nets@[net]),
        t1.nets@[net].wires == t0.nets@[net].wires,
        t1.nets@[net].terminals@.no_duplicates(),
        t1.nets@[net].terminals@.len() == t1.nets@[net].terminal_components@.len(),
        forall|y: u64| #[trigger]
            t1.nets@[net].terminals@.contains(y) <==> (t0.nets@[net].terminals@.contains(y) && y
                != x),
        forall|i: int|
            0 <= i < t1.nets@[net].terminals@.len() ==> exists|j: int|
                0 <= j < t0.nets@[net].terminals@.len() && t0.nets@[net].terminals@[j]
                    == #[trigger] t1.nets@[net].terminals@[i]
                    && #[trigger] t0.nets@[net].terminal_components@[j]
                    == t1.nets@[net].terminal_components@[i],
        t1.wire_net_map == t0.wire_net_map,
        t1.net_island_map == t0.net_island_map,
        t1.islands == t0.islands,
        t1.device_chunks == t0.device_chunks,
        t1.invalidation == t0.invalidation,
    ensures
        t1.consistent_except(after, definitions, set![t0.net_label(net)]),
        forall|n: u32| #[trigger]
            t1.nets@.contains_key(n) && n != net && t1.net_label(n) == t0.net_label(net)
                ==> t1.nets@[n].terminals@.len() > 0,
{
    broadcast use {group_words, DenseIdStore::lemma_live};

    let island = t0.net_label(net);
    let broken = set![island];
    lemma_same_shape(t0, before, after, definitions);
    lemma_same_shape(t1, before, after, definitions);
    assert(before.linked(a, x) && before.linked(x, a));
    lemma_linked_live(before, definitions, a, x);
    lemma_linked_live(before, definitions, x, a);
    assert forall|c: u64| #[trigger]
        t1.component_label(after, c) == t0.component_label(after, c) by {}
    assert forall|w: u32| #[trigger] t1.net_of(w) == t0.net_of(w) by {}
    assert forall|n: u32| #[trigger] t1.net_label(n) == t0.net_label(n) by {}
    assert forall|n: u32| #[trigger] t1.nets@.contains_key(n) == t0.nets@.contains_key(n) by {}
    assert(t1.structure_ok(before, definitions));
    assert(t1.wires_ok(after)) by {
        assert forall|w: u32| #[trigger] after.wire_live(w) implies t1.nets@.contains_key(
            t1.net_of(w),
        ) && t1.nets@[t1.net_of(w)].wires@.contains(w) by {
            assert(before.wire_live(w));
        }
        assert forall|w: u32| !after.wire_live(w) implies #[trigger] t1.net_of(w) == 0 by {
            assert(!before.wire_live(w));
            assert(t0.net_of(w) == 0);
        }
        assert forall|n: u32| #[trigger] t1.nets@.contains_key(n) implies {
            &&& t1.nets@[n].wires@.len() > 0
            &&& t1.nets@[n].wires@.no_duplicates()
            &&& forall|w: u32| #[trigger]
                t1.nets@[n].wires@.contains(w) ==> after.wire_live(w) && t1.net_of(w) == n
        } by {
            assert(t0.nets@.contains_key(n));
            assert forall|w: u32| #[trigger] t1.nets@[n].wires@.contains(w) implies after.wire_live(
                w,
            ) && t1.net_of(w) == n by {
                assert(t0.nets@[n].wires@.contains(w));
                assert(before.wire_live(w));
            }
        }
    }
    assert forall|y: u64, n: u32| #[trigger]
        t1.attached(after, y, n) <==> (t0.attached(before, y, n) && y != x) by {
        if t1.attached(after, y, n) {
            let b = choose|b: u64| #[trigger]
                after.linked(y, b) && !is_terminal_word(b) && t1.net_of(word_id(b)) == n;
            assert(before.linked(y, b));
            assert(t0.net_of(word_id(b)) == n);
            if y == x {
                assert(b == a);
            }
        }
        if t0.attached(before, y, n) && y != x {
            let b = choose|b: u64| #[trigger]
                before.linked(y, b) && !is_terminal_word(b) && t0.net_of(word_id(b)) == n;
            assert(after.linked(y, b));
            assert(t1.net_of(word_id(b)) == n);
        }
    }
    assert forall|n: u32| #[trigger] t1.nets@.contains_key(n) implies t1.net_lists(
        after,
        definitions,
        n,
    ) by {
        assert(t0.net_lists(before, definitions, n));
        assert forall|y: u64| #[trigger] t1.nets@[n].terminals@.contains(y) <==> t1.attached(
            after,
            y,
            n,
        ) by {
            assert(t0.nets@[n].terminals@.contains(y) <==> t0.attached(before, y, n));
            if n != net && y == x && t0.attached(before, y, n) {
                let b = choose|b: u64| #[trigger]
                    before.linked(y, b) && !is_terminal_word(b) && t0.net_of(word_id(b)) == n;
                assert(b == a);
            }
        }
        assert forall|i: int|
            0 <= i < t1.nets@[n].terminals@.len() implies #[trigger] t1.nets@[n].terminal_components@[i]
            == component_of(after, definitions, t1.nets@[n].terminals@[i]) by {
            let y = t1.nets@[n].terminals@[i];
            assert(t1.nets@[n].terminals@.contains(y));
            assert(t1.attached(after, y, n));
            let b = choose|b: u64| #[trigger]
                after.linked(y, b) && !is_terminal_word(b) && t1.net_of(word_id(b)) == n;
            lemma_linked_live(after, definitions, y, b);
            assert(component_of(after, definitions, y) == component_of(before, definitions, y));
            if n == net {
                let j = choose|j: int|
                    0 <= j < t0.nets@[net].terminals@.len() && t0.nets@[net].terminals@[j]
                        == t1.nets@[net].terminals@[i]
                        && #[trigger] t0.nets@[net].terminal_components@[j]
                        == t1.nets@[net].terminal_components@[i];
            }
        }
    }
    assert(t1.net_labels_ok(broken)) by {
        assert forall|n: u32| #[trigger] t1.nets@.contains_key(n) implies {
            &&& t1.net_label(n) != 0 ==> t1.islands@.contains_key(t1.net_label(n))
            &&& t1.net_label(n) == 0 ==> t1.nets@[n].terminals@.len() == 0
            &&& t1.net_label(n) != 0 && !broken.contains(t1.net_label(n))
                ==> t1.nets@[n].terminals@.len() > 0
        } by {
            assert(t0.nets@.contains_key(n));
            if n == net {
                assert(t0.net_lists(before, definitions, n));
                assert(t0.attached(before, x, net)) by {
                    assert(before.linked(x, a));
                }
                assert(t0.nets@[n].terminals@.contains(x));
                assert(t0.net_label(n) != 0);
            }
        }
        assert forall|n: u32| !t1.nets@.contains_key(n) implies #[trigger] t1.net_label(n) == 0 by {
            assert(t0.net_label(n) == 0);
        }
    }
    assert(t1.components_ok(after, definitions, broken)) by {
        assert forall|c: u64| #[trigger] is_component(after, definitions, c) implies {
            let label = t1.component_label(after, c);
            t1.islands@.contains_key(label) && t1.islands@[label].components@.contains(c)
        } by {
            assert(is_component(before, definitions, c));
        }
        assert forall|i: u32| #[trigger] t1.islands@.contains_key(i) implies {
            &&& !broken.contains(i) ==> t1.islands@[i].components@.len() > 0
            &&& t1.islands@[i].components@.no_duplicates()
            &&& forall|c: u64| #[trigger]
                t1.islands@[i].components@.contains(c) ==> is_component(after, definitions, c)
                    && t1.component_label(after, c) == i
        } by {
            assert(t0.islands@.contains_key(i));
            assert forall|c: u64| #[trigger] t1.islands@[i].components@.contains(c) implies
                is_component(after, definitions, c) && t1.component_label(after, c) == i by {
                assert(t0.islands@[i].components@.contains(c));
                assert(is_component(before, definitions, c));
            }
        }
    }
    lemma_cut_closed(t0, t1, before, after, definitions);
    lemma_cut_nets(t0, t1, before, after, definitions, 0);
    assert(t1.nets_connected(after)) by {
        assert forall|u: u32, v: u32|
            #![trigger t1.net_of(u), t1.net_of(v)]
            after.wire_live(u) && after.wire_live(v) && t1.net_of(u) == t1.net_of(
                v,
            ) implies connected(wire_edge(after), u, v) by {
            assert(before.wire_live(u));
            assert(t0.nets@.contains_key(t0.net_of(u)));
        }
    }
    assert(components_kept(t0, t1, before, after, definitions));
    assert forall|u: u64, v: u64| #[trigger]
        before.linked(u, v) && !after.linked(u, v) implies t0.label(before, definitions, u) == 0
        || broken.contains(t0.label(before, definitions, u)) by {
        assert(t0.label(before, definitions, a) == island);
        assert(t0.label(before, definitions, x) == island);
    }
    lemma_cut_islands(t0, t1, before, after, definitions, broken);
}

/// Splitting an island leaves all nets and all other islands as they are. The parts that get new
/// identifiers, which no island had before, start at revision zero; the part that keeps the old one
/// gets a new revision.
pub proof fn law_splitting_an_island_leaves_the_rest_alone(
    topology: DerivedTopology,
    after: DerivedTopology,
    network: Network,
    definitions: DefinitionRegistry,
    island: u32,
)
    requires
        topology.has_island(island),
        topology.resplit(after, network, definitions, island),
    ensures
        forall|w: u32| #[trigger] after.wire_net_spec(w) == topology.wire_net_spec(w),
        forall|i: u32|
            topology.has_island(i) && i != island ==> #[trigger] after.has_island(i)
                && after.island_at(i) == topology.island_at(i),
        after.has_island(island) <==> topology.island_at(island).spec_components().len() > 0,
        after.has_island(island) ==> after.island_at(island).spec_revision() == topology.island_at(
            island,
        ).spec_revision() + 1,
        forall|i: u32| #[trigger]
            after.has_island(i) && !topology.has_island(i) ==> i > topology.spec_island_slots()
                && after.island_at(i).spec_revision() == 0,
        forall|c: u64|
            is_component(network, definitions, c) && topology.component_island_spec(network, c)
                != island ==> #[trigger] after.component_island_spec(network, c)
                == topology.component_island_spec(network, c),
{
    topology.lemma_model();
    after.lemma_model();
    topology.lemma_island_slots();
    assert forall|w: u32| #[trigger] after.wire_net_spec(w) == topology.wire_net_spec(w) by {
        topology.lemma_wire_net(w);
        after.lemma_wire_net(w);
    }
    assert forall|i: u32|
        topology.has_island(i) && i != island implies #[trigger] after.has_island(i)
        && after.island_at(i) == topology.island_at(i) by {
        assert(after.islands@.contains_key(i));
    }
    topology.islands@[island].lemma_list();
    after.islands@[island].lemma_list();
    assert forall|i: u32| #[trigger] after.has_island(i) && !topology.has_island(i) implies i
        > topology.spec_island_slots() && after.island_at(i).spec_revision() == 0 by {
        after.islands@[i].lemma_list();
        assert(after.islands@.contains_key(i));
    }
    assert forall|c: u64|
        is_component(network, definitions, c) && topology.component_island_spec(network, c)
            != island implies #[trigger] after.component_island_spec(network, c)
        == topology.component_island_spec(network, c) by {
        topology.lemma_component_island(network, c);
        after.lemma_component_island(network, c);
        assert(after.component_label(network, c) == topology.component_label(network, c));
    }
}

/// Which part of an island that has fallen apart survives when a terminal is detached, and what is
/// marked.
pub proof fn law_detaching_splits_an_island(
    topology: DerivedTopology,
    after: DerivedTopology,
    network: Network,
    definitions: DefinitionRegistry,
    island: u32,
)
    requires
        topology.has_island(island),
        topology.resplit(after, network, definitions, island),
    ensures
        topology.island_split(after, island),
{
    topology.lemma_model();
    topology.lemma_island_split(topology, after, island);
}

} // verus!
