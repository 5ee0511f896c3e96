//! Following the network when wires and devices are added to it.

use crate::connection::{group_words, is_terminal_word, terminal_word, wire_word, word_id};
use crate::dense_store::DenseIdStore;
use crate::graph::{connected, lemma_connected_self};
use crate::ids::{DeviceId, TerminalId, WireId, MAX_PACKED_ID};
use crate::island_traversal::lemma_linked_live;
use crate::network::Network;
use crate::registry::DefinitionRegistry;
use crate::small_list::{IdList, WordList};
use crate::topology::{
    component_of, is_component, network_ok, vertex_edge, vertex_of, wire_edge, DerivedTopology, Net,
    Vertex,
};
use crate::topology_links::{
    lemma_joined_all, lemma_joined_before, links_of, network_links, with_link,
};
use vstd::prelude::*;

verus! {

impl DerivedTopology {
    /// What following a connection between two wires does to nets and islands: nothing where the
    /// wires were in one net; else one net takes in the other, and so do their islands.
    pub closed spec fn wires_followed(
        self,
        after: Self,
        network: Network,
        definitions: DefinitionRegistry,
        wire_a: u32,
        wire_b: u32,
    ) -> bool {
        self.wires_connected(
            after,
            network,
            definitions,
            self.net_of(wire_a),
            self.net_of(wire_b),
        )
    }

    /// Follows the network when two wires have been connected.
    pub fn connect_wires(
        &mut self,
        definitions: &DefinitionRegistry,
        network: &Network,
        wire_a: WireId,
        wire_b: WireId,
    )
        requires
            network_ok(*network, *definitions),
            old(self).behind(
                *network,
                *definitions,
                |before: Network, after: Network|
                    before.link_added(
                        after,
                        wire_word(wire_a.value()),
                        wire_word(wire_b.value()),
                    ),
            ),
            old(self).revisions_left(),
        ensures
            final(self).consistent(*network, *definitions),
            old(self).wires_followed(
                *final(self),
                *network,
                *definitions,
                wire_a.value(),
                wire_b.value(),
            ),
    {
        let ghost a = wire_word(wire_a.value());
        let ghost b = wire_word(wire_b.value());
        let ghost before = choose|before: Network| #[trigger]
            self.consistent(before, *definitions) && network_ok(before, *definitions)
                && before.link_added(*network, a, b);
        let ghost links = network_links(before);
        proof {
            self.lemma_consistent(before, *definitions);
            self.lemma_revisions();
            lemma_joined_before(*self, before, *network, *definitions);
            assert(links_of(*network, links)) by {
                assert forall|x: u64, y: u64| #[trigger] links(x, y) implies network.linked(x, y)
                    && links(y, x) by {
                    assert(before.linked(x, y) && before.linked(y, x));
                }
            }
            assert(network.linked(a, b));
        }
        self.join_wires(definitions, network, wire_a.get(), wire_b.get(), Ghost(links));
        proof {
            assert(with_link(links, a, b) =~= network_links(*network)) by {
                assert forall|x: u64, y: u64| #[trigger]
                    with_link(links, a, b)(x, y) == network_links(*network)(x, y) by {
                    assert(network.linked(x, y) == (before.linked(x, y) || (x == a && y == b) || (x
                        == b && y == a)));
                }
            }
            lemma_joined_all(*self, *network, *definitions);
            self.lemma_consistent(*network, *definitions);
        }
    }

    /// What following an attached terminal does to islands: an island takes the net in or gets a
    /// new revision, or two islands are joined.
    pub closed spec fn terminal_followed(
        self,
        after: Self,
        network: Network,
        definitions: DefinitionRegistry,
        wire: u32,
        terminal: u64,
    ) -> bool {
        &&& after.wire_net_map == self.wire_net_map
        &&& self.islands_after_attach(
            after,
            network,
            definitions,
            self.net_of(wire),
            component_of(network, definitions, terminal),
        )
    }

    /// Follows the network when a terminal has been attached to a wire.
    pub fn attach_terminal(
        &mut self,
        definitions: &DefinitionRegistry,
        network: &Network,
        wire: WireId,
        device: DeviceId,
        terminal: TerminalId,
    )
        requires
            network_ok(*network, *definitions),
            terminal.value() < 0x8000_0000,
            old(self).behind(
                *network,
                *definitions,
                |before: Network, after: Network|
                    before.link_added(
                        after,
                        wire_word(wire.value()),
                        terminal_word(device.value(), terminal.value()),
                    ),
            ),
            old(self).revisions_left(),
        ensures
            final(self).consistent(*network, *definitions),
            old(self).terminal_followed(
                *final(self),
                *network,
                *definitions,
                wire.value(),
                terminal_word(device.value(), terminal.value()),
            ),
    {
        broadcast use group_words;

        let ghost a = wire_word(wire.value());
        let ghost x = terminal_word(device.value(), terminal.value());
        let ghost before = choose|before: Network| #[trigger]
            self.consistent(before, *definitions) && network_ok(before, *definitions)
                && before.link_added(*network, a, x);
        let ghost links = network_links(before);
        let number: u32 = device.get();
        proof {
            self.lemma_consistent(before, *definitions);
            self.lemma_revisions();
            lemma_joined_before(*self, before, *network, *definitions);
            assert(links_of(*network, links)) by {
                assert forall|u: u64, v: u64| #[trigger] links(u, v) implies network.linked(u, v)
                    && links(v, u) by {
                    assert(before.linked(u, v) && before.linked(v, u));
                }
            }
            assert(network.linked(a, x));
            assert(network.linked(x, a));
            assert forall|y: u64| !#[trigger] links(x, y) by {
                if links(x, y) {
                    assert(network.linked(x, y));
                    assert(y == a);
                    assert(before.linked(x, a));
                    assert(before.linked(a, x));
                }
            }
        }
        self.join_terminal(definitions, network, wire.get(), device, terminal, Ghost(links));
        proof {
            assert(with_link(links, a, x) =~= network_links(*network)) by {
                assert forall|u: u64, v: u64| #[trigger]
                    with_link(links, a, x)(u, v) == network_links(*network)(u, v) by {
                    assert(network.linked(u, v) == (before.linked(u, v) || (u == a && v == x) || (u
                        == x && v == a)));
                }
            }
            lemma_joined_all(*self, *network, *definitions);
            self.lemma_consistent(*network, *definitions);
        }
    }

    /// Puts a wire into a net of its own.
    pub(crate) fn open_wire(&mut self, wire: u32)
        requires
            wire != 0,
            old(self).net_of(wire) == 0,
            old(self).nets.wf(),
            old(self).nets.spec_slot_count() < MAX_PACKED_ID,
            old(self).net_island_map@.len() == old(self).nets.spec_slot_count(),
        ensures
            final(self).nets.wf(),
            final(self).nets.spec_slot_count() == old(self).nets.spec_slot_count() + 1,
            ({
                let id = final(self).nets.spec_slot_count() as u32;
                &&& !old(self).nets@.contains_key(id)
                &&& final(self).nets@ == old(self).nets@.insert(id, final(self).nets@[id])
                &&& final(self).nets@[id].wires@ == seq![wire]
                &&& final(self).nets@[id].terminals@ == Seq::<u64>::empty()
                &&& final(self).nets@[id].terminal_components@ == Seq::<u64>::empty()
                &&& forall|w: u32| #[trigger]
                    final(self).net_of(w) == if w == wire {
                        id
                    } else {
                        old(self).net_of(w)
                    }
            }),
            final(self).net_island_map@ == old(self).net_island_map@.push(0),
            final(self).wire_net_map@.len() == if wire > old(self).wire_net_map@.len() {
                wire as int
            } else {
                old(self).wire_net_map@.len() as int
            },
            final(self).islands == old(self).islands,
            final(self).device_chunks == old(self).device_chunks,
            final(self).invalidation == old(self).invalidation,
    {
        while self.wire_net_map.len() < wire as usize
            invariant
                self.nets == old(self).nets,
                self.net_island_map == old(self).net_island_map,
                self.islands == old(self).islands,
                self.device_chunks == old(self).device_chunks,
                self.invalidation == old(self).invalidation,
                old(self).wire_net_map@.len() <= self.wire_net_map@.len(),
                self.wire_net_map@.len() <= old(self).wire_net_map@.len()
                    || self.wire_net_map@.len() <= wire,
                forall|w: u32| #[trigger] self.net_of(w) == old(self).net_of(w),
            decreases wire - self.wire_net_map@.len(),
        {
            let ghost before = *self;
            self.wire_net_map.push(0);
            assert forall|w: u32| #[trigger] self.net_of(w) == old(self).net_of(w) by {
                assert(self.net_of(w) == before.net_of(w));
            }
        }
        let mut wires = IdList::new();
        wires.push(wire);
        assert(wires@ =~= seq![wire]);
        assert(wires@[0] == wire);
        let net = Net {
            wires,
            terminal_components: WordList::new(),
            terminals: Ghost(Seq::empty()),
        };
        assert forall|w: u32| #[trigger] net.wires@.contains(w) <==> w == wire by {}
        self.insert_net(net, 0);
    }
}

/// A new wire in a net of its own gives the topology of the network with the wire.
proof fn lemma_wire_opened(
    t0: DerivedTopology,
    t1: DerivedTopology,
    before: Network,
    after: Network,
    definitions: DefinitionRegistry,
    wire: u32,
    net: u32,
)
    requires
        network_ok(before, definitions),
        network_ok(after, definitions),
        before.wire_added(after, wire),
        t0.consistent_except(before, definitions, Set::empty()),
        t1.nets.wf(),
        t1.nets.spec_slot_count() == t0.nets.spec_slot_count() + 1,
        net == t1.nets.spec_slot_count(),
        net <= MAX_PACKED_ID,
        t1.nets@ == t0.nets@.insert(net, t1.nets@[net]),
        t1.nets@[net].wires@ == seq![wire],
        t1.nets@[net].terminals@ == Seq::<u64>::empty(),
        t1.nets@[net].terminal_components@ == Seq::<u64>::empty(),
        forall|w: u32| #[trigger]
            t1.net_of(w) == if w == wire {
                net
            } else {
                t0.net_of(w)
            },
        t1.net_island_map@ == t0.net_island_map@.push(0),
        t1.wire_net_map@.len() == after.wire_slots(),
        t1.islands == t0.islands,
        t1.device_chunks == t0.device_chunks,
        t1.invalidation == t0.invalidation,
    ensures
        t1.consistent_except(after, definitions, Set::empty()),
{
    broadcast use {group_words, DenseIdStore::lemma_live};

    assert(t1.nets@[net].wires@[0] == wire);
    assert forall|n: u32| #[trigger] t1.net_label(n) == t0.net_label(n) by {}
    assert forall|c: u64| #[trigger]
        is_component(after, definitions, c) == is_component(before, definitions, c) by {}
    assert forall|c: u64| #[trigger]
        t1.component_label(after, c) == t0.component_label(before, c) by {}
    assert forall|x: u64| #[trigger]
        component_of(after, definitions, x) == component_of(before, definitions, x) by {}
    assert(t1.structure_ok(after, definitions));
    assert(t1.wires_ok(after)) by {
        assert forall|w: u32| #[trigger] after.wire_live(w) implies t1.nets@.contains_key(
            t1.net_of(w),
        ) && t1.nets@[t1.net_of(w)].wires@.contains(w) by {
            if w != wire {
                assert(before.wire_live(w));
                assert(t0.nets@.contains_key(t0.net_of(w)));
            }
        }
        assert forall|w: u32| !after.wire_live(w) implies #[trigger] t1.net_of(w) == 0 by {
            assert(after.wire_live(wire));
            assert(!before.wire_live(w));
            assert(t0.net_of(w) == 0);
        }
        assert forall|n: u32| #[trigger] t1.nets@.contains_key(n) implies {
            &&& t1.nets@[n].wires@.len() > 0
            &&& t1.nets@[n].wires@.no_duplicates()
            &&& forall|w: u32| #[trigger]
                t1.nets@[n].wires@.contains(w) ==> after.wire_live(w) && t1.net_of(w) == n
        } by {
            assert(after.wire_live(wire));
            if n != net {
                assert(t0.nets@.contains_key(n));
                assert forall|w: u32| #[trigger] t1.nets@[n].wires@.contains(w) implies
                    after.wire_live(w) && t1.net_of(w) == n by {
                    assert(t0.nets@[n].wires@.contains(w));
                    assert(before.wire_live(w));
                }
            }
        }
    }
    assert forall|x: u64, n: u32| #[trigger]
        t1.attached(after, x, n) == (n != net && t0.attached(before, x, n)) by {
        if t1.attached(after, x, n) {
            let y = choose|y: u64| #[trigger]
                after.linked(x, y) && !is_terminal_word(y) && t1.net_of(word_id(y)) == n;
            assert(before.linked(x, y));
            assert(before.linked(y, x));
            lemma_linked_live(before, definitions, y, x);
            assert(t0.nets@.contains_key(t0.net_of(word_id(y))));
            assert(t0.net_of(word_id(y)) == n);
        }
        if n != net && t0.attached(before, x, n) {
            let y = choose|y: u64| #[trigger]
                before.linked(x, y) && !is_terminal_word(y) && t0.net_of(word_id(y)) == n;
            assert(before.linked(y, x));
            lemma_linked_live(before, definitions, y, x);
            assert(after.linked(x, y));
            assert(t1.net_of(word_id(y)) == n);
        }
    }
    assert(t1.nets_list(after, definitions)) by {
        assert forall|n: u32| #[trigger] t1.nets@.contains_key(n) implies t1.net_lists(
            after,
            definitions,
            n,
        ) by {
            if n != net {
                assert(t0.nets@.contains_key(n));
                assert(t0.net_lists(before, definitions, n));
                assert forall|x: u64| #[trigger] t1.nets@[n].terminals@.contains(x)
                    <==> t1.attached(after, x, n) by {
                    assert(t0.nets@[n].terminals@.contains(x) <==> t0.attached(before, x, n));
                }
            }
        }
    }
    assert(t1.net_labels_ok(Set::empty())) by {
        assert forall|n: u32| !t1.nets@.contains_key(n) implies #[trigger] t1.net_label(n) == 0 by {
            assert(t0.net_label(n) == 0);
        }
        assert forall|n: u32| #[trigger] t1.nets@.contains_key(n) implies {
            &&& t1.net_label(n) != 0 ==> t1.islands@.contains_key(t1.net_label(n))
            &&& t1.net_label(n) == 0 ==> t1.nets@[n].terminals@.len() == 0
            &&& t1.net_label(n) != 0 ==> t1.nets@[n].terminals@.len() > 0
        } by {
            if n != net {
                assert(t0.nets@.contains_key(n));
            } else {
                assert(!t0.nets@.contains_key(n));
                assert(t0.net_label(n) == 0);
            }
        }
    }
    assert(t1.components_ok(after, definitions, Set::empty())) by {
        assert forall|c: u64| #[trigger] is_component(after, definitions, c) implies {
            let label = t1.component_label(after, c);
            t1.islands@.contains_key(label) && t1.islands@[label].components@.contains(c)
        } by {
            assert(is_component(before, definitions, c));
        }
    }
    assert forall|x: u64, y: u64| #[trigger] after.linked(x, y) implies {
        &&& t1.label(after, definitions, x) == t1.label(after, definitions, y)
        &&& !is_terminal_word(x) && !is_terminal_word(y) ==> t1.net_of(word_id(x)) == t1.net_of(
            word_id(y),
        )
    } by {
        assert(before.linked(x, y) && before.linked(y, x));
        lemma_linked_live(before, definitions, x, y);
        lemma_linked_live(before, definitions, y, x);
        assert(t0.label(before, definitions, x) == t0.label(before, definitions, y));
    }
    lemma_same_graphs(before, after, definitions);
    assert(t1.nets_connected(after)) by {
        assert forall|a: u32, b: u32|
            #![trigger t1.net_of(a), t1.net_of(b)]
            after.wire_live(a) && after.wire_live(b) && t1.net_of(a) == t1.net_of(
                b,
            ) implies connected(wire_edge(after), a, b) by {
            if a == b {
                lemma_connected_self(wire_edge(after), a);
            } else if a != wire && b != wire {
                assert(before.wire_live(a) && before.wire_live(b));
                assert(t0.net_of(a) == t0.net_of(b));
            } else {
                let other = if a == wire {
                    b
                } else {
                    a
                };
                assert(before.wire_live(other));
                assert(t0.nets@.contains_key(t0.net_of(other)));
            }
        }
    }
    assert(t1.islands_connected(after, definitions, Set::empty())) by {
        assert forall|a: u64, b: u64|
            #![trigger t1.component_label(after, a), t1.component_label(after, b)]
            is_component(after, definitions, a) && is_component(after, definitions, b)
                && t1.component_label(after, a) == t1.component_label(
                after,
                b,
            ) implies connected(
            vertex_edge(after, definitions),
            Vertex::Component(a),
            Vertex::Component(b),
        ) by {
            assert(t0.component_label(before, a) == t0.component_label(before, b));
        }
    }
}

/// Networks with the same connections have the same graphs, as far as the devices agree.
pub(crate) proof fn lemma_same_graphs(before: Network, after: Network, definitions: DefinitionRegistry)
    requires
        network_ok(before, definitions),
        before.same_links(after),
        forall|x: u64|
            is_terminal_word(x) && before.device_live(word_id(x)) ==> #[trigger] component_of(
                after,
                definitions,
                x,
            ) == component_of(before, definitions, x),
    ensures
        wire_edge(after) == wire_edge(before),
        vertex_edge(after, definitions) == vertex_edge(before, definitions),
{
    assert(wire_edge(after) =~= wire_edge(before)) by {
        assert forall|a: u32, b: u32| #[trigger] wire_edge(after)(a, b) == wire_edge(before)(
            a,
            b,
        ) by {
            assert(after.linked(wire_word(a), wire_word(b)) == before.linked(
                wire_word(a),
                wire_word(b),
            ));
        }
    }
    assert forall|x: u64, y: u64| #[trigger] before.linked(x, y) implies vertex_of(
        after,
        definitions,
        x,
    ) == vertex_of(before, definitions, x) && vertex_of(after, definitions, y) == vertex_of(
        before,
        definitions,
        y,
    ) by {
        assert(before.linked(y, x));
        lemma_linked_live(before, definitions, x, y);
        lemma_linked_live(before, definitions, y, x);
    }
    assert(vertex_edge(after, definitions) =~= vertex_edge(before, definitions)) by {
        assert forall|a: Vertex, b: Vertex| #[trigger]
            vertex_edge(after, definitions)(a, b) == vertex_edge(before, definitions)(a, b) by {
            if vertex_edge(after, definitions)(a, b) {
                let (x, y) = choose|x: u64, y: u64| #[trigger]
                    after.linked(x, y) && vertex_of(after, definitions, x) == a && vertex_of(
                        after,
                        definitions,
                        y,
                    ) == b;
                assert(before.linked(x, y));
            }
            if vertex_edge(before, definitions)(a, b) {
                let (x, y) = choose|x: u64, y: u64| #[trigger]
                    before.linked(x, y) && vertex_of(before, definitions, x) == a && vertex_of(
                        before,
                        definitions,
                        y,
                    ) == b;
                assert(after.linked(x, y));
            }
        }
    }
}

/// Whether a network is another with one more wire, and the topology is that of the other.
pub open spec fn wire_step(
    topology: DerivedTopology,
    before: Network,
    after: Network,
    definitions: DefinitionRegistry,
    wire: u32,
) -> bool {
    &&& topology.consistent(before, definitions)
    &&& network_ok(before, definitions)
    &&& network_ok(after, definitions)
    &&& before.wire_added(after, wire)
}

impl DerivedTopology {
    /// The number of net identifiers that have been given out.
    pub closed spec fn spec_net_slots(self) -> int {
        self.nets.spec_slot_count()
    }

    pub(crate) proof fn lemma_net_slots(self)
        ensures
            self.spec_net_slots() == self.nets.spec_slot_count(),
    {
    }

    /// Whether an identifier is left for the net of one more wire.
    pub fn has_room_for_wire(&self) -> (result: bool)
        ensures
            result == (self.spec_net_slots() < MAX_PACKED_ID),
    {
        self.nets.slot_count() < MAX_PACKED_ID as usize
    }

    /// Follows the network when a wire has been added: the wire is in a net of its own.
    pub fn add_wire(&mut self, wire: WireId)
        requires
            exists|before: Network, after: Network, definitions: DefinitionRegistry| #[trigger]
                wire_step(*old(self), before, after, definitions, wire.value()),
            old(self).spec_net_slots() < MAX_PACKED_ID,
        ensures
            forall|before: Network, after: Network, definitions: DefinitionRegistry| #[trigger]
                wire_step(*old(self), before, after, definitions, wire.value())
                    ==> final(self).consistent(after, definitions),
            final(self).wire_net_spec(wire.value()) == old(self).spec_net_slots() + 1,
            final(self).spec_net_slots() == old(self).spec_net_slots() + 1,
            forall|w: u32|
                w != wire.value() ==> #[trigger] final(self).wire_net_spec(w) == old(
                    self,
                ).wire_net_spec(w),
            forall|n: u32| #[trigger]
                final(self).has_net(n) <==> old(self).has_net(n) || n == old(self).spec_net_slots()
                    + 1,
            forall|n: u32|
                old(self).has_net(n) ==> #[trigger] final(self).net_at(n) == old(self).net_at(n),
            forall|n: u32| #[trigger]
                final(self).net_island_spec(n) == old(self).net_island_spec(n),
            forall|i: u32| #[trigger] final(self).has_island(i) == old(self).has_island(i),
            forall|i: u32| #[trigger] final(self).island_at(i) == old(self).island_at(i),
            final(self).island_order() == old(self).island_order(),
            final(self).spec_invalidation() == old(self).spec_invalidation(),
    {
        let ghost t0 = *self;
        let number: u32 = wire.get();
        proof {
            let (before, after, definitions) = choose|
                before: Network,
                after: Network,
                definitions: DefinitionRegistry,
            | #[trigger]
                wire_step(*self, before, after, definitions, wire.value());
            self.lemma_consistent(before, definitions);
            assert(self.net_of(number) == 0);
        }
        self.open_wire(number);
        proof {
            let net = self.nets.spec_slot_count() as u32;
            assert forall|before: Network, after: Network, definitions: DefinitionRegistry| #[trigger]
                wire_step(t0, before, after, definitions, wire.value()) implies self.consistent(
                after,
                definitions,
            ) by {
                t0.lemma_consistent(before, definitions);
                lemma_wire_opened(t0, *self, before, after, definitions, number, net);
                self.lemma_consistent(after, definitions);
            }
            self.lemma_wire_net(number);
            t0.lemma_model();
            self.lemma_model();
            assert forall|w: u32| w != number implies #[trigger] self.wire_net_spec(w)
                == t0.wire_net_spec(w) by {
                t0.lemma_wire_net(w);
                self.lemma_wire_net(w);
            }
        }
    }
}

/// Connecting two wires leaves all other nets and islands as they are: the wires of other nets stay
/// in their nets, and other islands keep their components and revisions.
pub proof fn law_connecting_leaves_the_rest_alone(
    topology: DerivedTopology,
    after: DerivedTopology,
    before: Network,
    network: Network,
    definitions: DefinitionRegistry,
    wire_a: u32,
    wire_b: u32,
)
    requires
        topology.consistent(before, definitions),
        before.wire_live(wire_a),
        before.wire_live(wire_b),
        topology.wires_followed(after, network, definitions, wire_a, wire_b),
    ensures
        forall|w: u32|
            topology.wire_net_spec(w) != topology.wire_net_spec(wire_a) && topology.wire_net_spec(w)
                != topology.wire_net_spec(wire_b) ==> #[trigger] after.wire_net_spec(w)
                == topology.wire_net_spec(w),
        forall|i: u32|
            topology.has_island(i) && i != topology.net_island_spec(topology.wire_net_spec(wire_a))
                && i != topology.net_island_spec(topology.wire_net_spec(wire_b))
                ==> #[trigger] after.has_island(i) && after.island_at(i).spec_components()
                == topology.island_at(i).spec_components() && after.island_at(i).spec_revision()
                == topology.island_at(i).spec_revision(),
{
    topology.lemma_consistent(before, definitions);
    topology.lemma_model();
    after.lemma_model();
    topology.lemma_wire_net(wire_a);
    topology.lemma_wire_net(wire_b);
    let net_a = topology.net_of(wire_a);
    let net_b = topology.net_of(wire_b);
    assert forall|w: u32|
        topology.wire_net_spec(w) != topology.wire_net_spec(wire_a) && topology.wire_net_spec(w)
            != topology.wire_net_spec(wire_b) implies #[trigger] after.wire_net_spec(w)
        == topology.wire_net_spec(w) by {
        topology.lemma_wire_net(w);
        after.lemma_wire_net(w);
        if net_a != net_b {
            let (dst, src) = topology.join_target(net_a, net_b);
            assert(topology.nets@.contains_key(src));
            if topology.nets@[src].wires@.contains(w) {
                assert(topology.net_of(w) == src);
            }
        }
    }
    assert forall|i: u32|
        topology.has_island(i) && i != topology.net_island_spec(topology.wire_net_spec(wire_a)) && i
            != topology.net_island_spec(topology.wire_net_spec(wire_b)) implies #[trigger]
    after.has_island(i) && after.island_at(i).spec_components() == topology.island_at(
        i,
    ).spec_components() && after.island_at(i).spec_revision() == topology.island_at(
        i,
    ).spec_revision() by {
        topology.islands@[i].lemma_list();
        after.islands@[i].lemma_list();
        assert(topology.islands@.contains_key(i));
        assert(after.islands@[i].components@ == topology.islands@[i].components@);
    }
}

/// Connecting two nets of one island gives the island a new revision.
pub proof fn law_joining_nets_of_an_island_revises_it(
    topology: DerivedTopology,
    after: DerivedTopology,
    before: Network,
    network: Network,
    definitions: DefinitionRegistry,
    wire_a: u32,
    wire_b: u32,
)
    requires
        topology.consistent(before, definitions),
        before.wire_live(wire_a),
        before.wire_live(wire_b),
        topology.wires_followed(after, network, definitions, wire_a, wire_b),
        topology.wire_net_spec(wire_a) != topology.wire_net_spec(wire_b),
        topology.net_island_spec(topology.wire_net_spec(wire_a)) == topology.net_island_spec(
            topology.wire_net_spec(wire_b),
        ),
        topology.net_island_spec(topology.wire_net_spec(wire_a)) != 0,
    ensures
        ({
            let island = topology.net_island_spec(topology.wire_net_spec(wire_a));
            &&& after.has_island(island)
            &&& after.island_at(island).spec_revision() == topology.island_at(
                island,
            ).spec_revision() + 1
        }),
{
    topology.lemma_consistent(before, definitions);
    topology.lemma_model();
    after.lemma_model();
    topology.lemma_wire_net(wire_a);
    topology.lemma_wire_net(wire_b);
    let island = topology.net_label(topology.net_of(wire_a));
    topology.islands@[island].lemma_list();
    after.islands@[island].lemma_list();
    assert(topology.nets@.contains_key(topology.net_of(wire_a)));
    assert(topology.islands@.contains_key(island));
}

/// Attaching a terminal leaves all wires in their nets, and all islands as they are but for that of
/// the net and that of the component: other islands keep their components and revisions.
pub proof fn law_attaching_leaves_the_rest_alone(
    topology: DerivedTopology,
    after: DerivedTopology,
    network: Network,
    definitions: DefinitionRegistry,
    wire: u32,
    terminal: u64,
)
    requires
        topology.terminal_followed(after, network, definitions, wire, terminal),
    ensures
        forall|w: u32| #[trigger] after.wire_net_spec(w) == topology.wire_net_spec(w),
        forall|i: u32|
            topology.has_island(i) && i != topology.net_island_spec(topology.wire_net_spec(wire))
                && i != topology.component_island_spec(
                network,
                component_of(network, definitions, terminal),
            ) ==> #[trigger] after.has_island(i) && after.island_at(i).spec_components()
                == topology.island_at(i).spec_components() && after.island_at(i).spec_revision()
                == topology.island_at(i).spec_revision(),
{
    topology.lemma_model();
    after.lemma_model();
    topology.lemma_wire_net(wire);
    topology.lemma_component_island(network, component_of(network, definitions, terminal));
    assert forall|w: u32| #[trigger] after.wire_net_spec(w) == topology.wire_net_spec(w) by {
        topology.lemma_wire_net(w);
        after.lemma_wire_net(w);
    }
    assert forall|i: u32|
        topology.has_island(i) && i != topology.net_island_spec(topology.wire_net_spec(wire)) && i
            != topology.component_island_spec(
            network,
            component_of(network, definitions, terminal),
        ) implies #[trigger] after.has_island(i) && after.island_at(i).spec_components()
        == topology.island_at(i).spec_components() && after.island_at(i).spec_revision()
        == topology.island_at(i).spec_revision() by {
        topology.islands@[i].lemma_list();
        after.islands@[i].lemma_list();
        assert(topology.islands@.contains_key(i));
        assert(after.islands@[i].components@ == topology.islands@[i].components@);
    }
}

/// Which net and which island survive when two wires are connected, and what is marked.
pub proof fn law_connecting_unites_nets_and_islands(
    topology: DerivedTopology,
    after: DerivedTopology,
    before: Network,
    network: Network,
    definitions: DefinitionRegistry,
    wire_a: u32,
    wire_b: u32,
)
    requires
        topology.consistent(before, definitions),
        before.wire_live(wire_a),
        before.wire_live(wire_b),
        topology.wires_followed(after, network, definitions, wire_a, wire_b),
    ensures
        topology.nets_united(
            after,
            topology.wire_net_spec(wire_a),
            topology.wire_net_spec(wire_b),
        ),
{
    topology.lemma_consistent(before, definitions);
    topology.lemma_nets_united(after, before, network, definitions, wire_a, wire_b);
}

/// Which island survives when a terminal is attached to a wire, and what is marked.
pub proof fn law_attaching_unites_islands(
    topology: DerivedTopology,
    after: DerivedTopology,
    before: Network,
    network: Network,
    definitions: DefinitionRegistry,
    wire: u32,
    terminal: u64,
)
    requires
        network_ok(network, definitions),
        topology.consistent(before, definitions),
        network_ok(before, definitions),
        before.wire_live(wire),
        before.link_added(network, wire_word(wire), terminal),
        is_terminal_word(terminal),
        topology.terminal_followed(after, network, definitions, wire, terminal),
    ensures
        topology.terminal_united(after, network, definitions, wire, terminal),
{
    broadcast use {group_words, DenseIdStore::lemma_live};

    let component = component_of(network, definitions, terminal);
    topology.lemma_consistent(before, definitions);
    topology.lemma_model();
    after.lemma_model();
    topology.lemma_wire_net(wire);
    topology.lemma_component_island(network, component);
    lemma_joined_before(topology, before, network, definitions);
    assert(network.linked(terminal, wire_word(wire)));
    lemma_linked_live(network, definitions, terminal, wire_word(wire));
    assert(topology.nets@.contains_key(topology.net_of(wire)));
    topology.lemma_terminal_united(after, network, definitions, wire, terminal);
}

} // verus!
