//! What the derived topology does when a wire or a connection between wires is taken out.

use crate::connection::{group_words, is_terminal_word, wire_word, word_id};
use crate::dense_store::DenseIdStore;
use crate::graph::{connected, lemma_connected_edge, lemma_connected_replaced};
use crate::ids::WireId;
use crate::island_traversal::{lemma_linked_live, lemma_wires_connected};
use crate::network::Network;
use crate::registry::DefinitionRegistry;
use crate::scratch::TraversalScratch;
use crate::topology::{
    component_of, is_component, network_ok, vertex_edge, vertex_of, wire_edge, DerivedTopology,
    Vertex,
};
use crate::topology_cuts::{
    components_kept, lemma_cut_closed, lemma_cut_islands, lemma_cut_nets, lemma_same_shape,
    links_cut,
};
use crate::topology_steps::{found_before, parts_numbered};
use vstd::prelude::*;

verus! {

/// Whether connections of one net only were taken out of a network, and wires of this net only.
pub(crate) open spec fn net_cut(
    t0: DerivedTopology,
    before: Network,
    after: Network,
    net: u32,
) -> bool {
    &&& before.same_devices(after)
    &&& after.wire_slots() == before.wire_slots()
    &&& links_cut(before, after)
    &&& forall|w: u32| #[trigger] after.wire_live(w) ==> before.wire_live(w)
    &&& forall|w: u32| #[trigger]
        before.wire_live(w) && !after.wire_live(w) ==> t0.net_of(w) == net
    &&& forall|x: u64, y: u64| #[trigger]
        before.linked(x, y) && !after.linked(x, y) ==> (!is_terminal_word(x) && t0.net_of(
            word_id(x),
        ) == net) || (!is_terminal_word(y) && t0.net_of(word_id(y)) == net)
}

/// A net from which something was taken waits for its repair.
proof fn lemma_net_breaking(
    t0: DerivedTopology,
    t1: DerivedTopology,
    before: Network,
    after: Network,
    definitions: DefinitionRegistry,
    net: u32,
)
    requires
        network_ok(before, definitions),
        network_ok(after, definitions),
        t0.consistent_except(before, definitions, Set::empty()),
        net_cut(t0, before, after, net),
        t0.nets@.contains_key(net),
        t1.nets == t0.nets,
        t1.wire_net_map@.len() == t0.wire_net_map@.len(),
        forall|w: u32| #[trigger]
            t1.net_of(w) == if after.wire_live(w) {
                t0.net_of(w)
            } else {
                0
            },
        t1.net_island_map == t0.net_island_map,
        t1.islands == t0.islands,
        t1.device_chunks == t0.device_chunks,
        t1.invalidation == t0.invalidation,
    ensures
        t1.net_breaking(after, definitions, net),
        t1.net_label(net) == t0.net_label(net),
{
    broadcast use {group_words, DenseIdStore::lemma_live};

    lemma_same_shape(t0, before, after, definitions);
    assert forall|c: u64| #[trigger]
        t1.component_label(after, c) == t0.component_label(after, c) by {}
    assert forall|n: u32| #[trigger] t1.net_label(n) == t0.net_label(n) by {}
    assert(components_kept(t0, t1, before, after, definitions));
    assert(t1.structure_ok(after, definitions));
    assert forall|w: u32| #[trigger] after.wire_live(w) implies t1.nets@.contains_key(t1.net_of(w))
        && t1.nets@[t1.net_of(w)].wires@.contains(w) && 1 <= w <= after.wire_slots() by {
        assert(before.wire_live(w));
    }
    assert forall|a: u32, b: u32| #[trigger]
        after.linked(wire_word(a), wire_word(b)) && t1.net_of(a) == net implies t1.net_of(b)
        == net by {
        assert(after.linked(wire_word(b), wire_word(a)));
        lemma_linked_live(after, definitions, wire_word(a), wire_word(b));
        lemma_linked_live(after, definitions, wire_word(b), wire_word(a));
        assert(before.linked(wire_word(a), wire_word(b)));
    }
    assert(forall|w: u32| #[trigger]
        t1.nets@[net].wires@.contains(w) ==> 1 <= w <= after.wire_slots()) by {
        assert forall|w: u32| #[trigger] t1.nets@[net].wires@.contains(w) implies 1 <= w
            <= after.wire_slots() by {
            assert(t0.nets@[net].wires@.contains(w));
            assert(before.wire_live(w));
        }
    }
    assert forall|x: u64, n: u32| n != net && n != 0 implies (#[trigger] t1.attached(after, x, n)
        <==> t0.attached(before, x, n)) by {
        if t1.attached(after, x, n) {
            let y = choose|y: u64| #[trigger]
                after.linked(x, y) && !is_terminal_word(y) && t1.net_of(word_id(y)) == n;
            assert(before.linked(x, y));
            assert(t0.net_of(word_id(y)) == n);
        }
        if t0.attached(before, x, n) {
            let y = choose|y: u64| #[trigger]
                before.linked(x, y) && !is_terminal_word(y) && t0.net_of(word_id(y)) == n;
            assert(after.linked(x, y));
            assert(after.linked(y, x));
            lemma_linked_live(after, definitions, y, x);
            assert(t1.net_of(word_id(y)) == n);
        }
    }
    assert forall|n: u32| #[trigger] t1.nets@.contains_key(n) && n != net implies {
        &&& t1.nets@[n].wires@.len() > 0
        &&& t1.nets@[n].wires@.no_duplicates()
        &&& forall|w: u32| #[trigger]
            t1.nets@[n].wires@.contains(w) ==> after.wire_live(w) && t1.net_of(w) == n
        &&& t1.net_lists(after, definitions, n)
        &&& t1.net_label(n) != 0 ==> t1.islands@.contains_key(t1.net_label(n))
        &&& t1.net_label(n) == 0 <==> t1.nets@[n].terminals@.len() == 0
    } by {
        assert(t0.nets@.contains_key(n));
        assert forall|w: u32| #[trigger] t1.nets@[n].wires@.contains(w) implies after.wire_live(w)
            && t1.net_of(w) == n by {
            assert(t0.nets@[n].wires@.contains(w));
            assert(before.wire_live(w) && t0.net_of(w) == n);
        }
        assert(t0.net_lists(before, definitions, n));
        assert forall|i: int|
            0 <= i < t1.nets@[n].terminals@.len() implies #[trigger] t1.nets@[n].terminal_components@[i]
            == component_of(after, definitions, t1.nets@[n].terminals@[i]) by {
            let y = t1.nets@[n].terminals@[i];
            assert(t0.nets@[n].terminals@.contains(y));
            assert(t0.attached(before, y, n));
            assert(t1.attached(after, y, n));
            let b = choose|b: u64| #[trigger]
                after.linked(y, b) && !is_terminal_word(b) && t1.net_of(word_id(b)) == n;
            lemma_linked_live(after, definitions, y, b);
            assert(component_of(after, definitions, y) == component_of(before, definitions, y));
        }
        assert forall|x: u64| #[trigger] t1.nets@[n].terminals@.contains(x) <==> t1.attached(
            after,
            x,
            n,
        ) by {
            assert(t0.nets@[n].terminals@.contains(x) <==> t0.attached(before, x, n));
        }
    }
    if t1.net_label(net) == 0 {
        assert forall|x: u64| !#[trigger] t1.attached(after, x, net) by {
            if t1.attached(after, x, net) {
                let y = choose|y: u64| #[trigger]
                    after.linked(x, y) && !is_terminal_word(y) && t1.net_of(word_id(y)) == net;
                assert(before.linked(x, y));
                assert(t0.net_of(word_id(y)) == net);
                assert(t0.attached(before, x, net));
                assert(t0.net_lists(before, definitions, net));
                assert(t0.nets@[net].terminals@.contains(x));
            }
        }
    }
    assert forall|n: u32| !t1.nets@.contains_key(n) implies #[trigger] t1.net_label(n) == 0 by {
        assert(t0.net_label(n) == 0);
    }
    assert(t1.components_ok(after, definitions, Set::empty())) by {
        assert forall|c: u64| #[trigger] is_component(after, definitions, c) implies {
            let label = t1.component_label(after, c);
            t1.islands@.contains_key(label) && t1.islands@[label].components@.contains(c)
        } by {
            assert(is_component(before, definitions, c));
        }
        assert forall|i: u32| #[trigger] t1.islands@.contains_key(i) implies {
            &&& t1.islands@[i].components@.len() > 0
            &&& t1.islands@[i].components@.no_duplicates()
            &&& forall|c: u64| #[trigger]
                t1.islands@[i].components@.contains(c) ==> is_component(after, definitions, c)
                    && t1.component_label(after, c) == i
        } by {
            assert(t0.islands@.contains_key(i));
            assert forall|c: u64| #[trigger] t1.islands@[i].components@.contains(c) implies
                is_component(after, definitions, c) && t1.component_label(after, c) == i by {
                assert(t0.islands@[i].components@.contains(c));
                assert(is_component(before, definitions, c));
                assert(is_component(after, definitions, c));
            }
        }
    }
    lemma_cut_closed(t0, t1, before, after, definitions);
    assert forall|a: u32, b: u32| #[trigger]
        before.linked(wire_word(a), wire_word(b)) && !after.linked(
            wire_word(a),
            wire_word(b),
        ) implies t0.net_of(a) == net by {
        assert(t0.net_of(word_id(wire_word(a))) == t0.net_of(word_id(wire_word(b))));
    }
    lemma_cut_nets(t0, t1, before, after, definitions, net);
    let broken = t1.broken_island(net);
    assert forall|x: u64, y: u64| #[trigger]
        before.linked(x, y) && !after.linked(x, y) implies t0.label(before, definitions, x) == 0
        || broken.contains(t0.label(before, definitions, x)) by {
        assert(t0.label(before, definitions, x) == t0.label(before, definitions, y));
    }
    lemma_cut_islands(t0, t1, before, after, definitions, broken);
}

/// Where a net stayed in one piece after a connection between two of its wires was taken out, its
/// island did too.
proof fn lemma_still_whole(
    t0: DerivedTopology,
    t1: DerivedTopology,
    before: Network,
    after: Network,
    definitions: DefinitionRegistry,
    net: u32,
    a: u32,
    b: u32,
)
    requires
        network_ok(before, definitions),
        network_ok(after, definitions),
        t0.consistent_except(before, definitions, Set::empty()),
        before.link_removed(after, wire_word(a), wire_word(b)),
        t0.net_of(a) == net,
        t0.net_repaired(t1, net, seq![net]),
        t1.consistent_except(after, definitions, t0.broken_island(net)),
    ensures
        t1.consistent_except(after, definitions, Set::empty()),
{
    broadcast use {group_words, DenseIdStore::lemma_live};

    let none = Set::<u32>::empty();
    let listed = seq![net];
    assert(listed[0] == net);
    lemma_same_shape(t0, before, after, definitions);
    assert(before.linked(wire_word(a), wire_word(b)));
    assert(before.linked(wire_word(b), wire_word(a)));
    lemma_linked_live(before, definitions, wire_word(a), wire_word(b));
    lemma_linked_live(before, definitions, wire_word(b), wire_word(a));
    assert forall|c: u64| #[trigger]
        t1.component_label(after, c) == t0.component_label(after, c) by {}
    assert forall|n: u32| #[trigger] t1.nets@.contains_key(n) == t0.nets@.contains_key(n) by {
        assert(listed.contains(n) == (n == net)) by {
            if listed.contains(n) {
                let i = choose|i: int| 0 <= i < listed.len() && listed[i] == n;
            }
            if n == net {
                assert(listed[0] == n);
            }
        }
    }
    assert forall|w: u32| #[trigger] after.wire_live(w) implies t1.net_of(w) == t0.net_of(w) by {
        assert(before.wire_live(w));
        if t0.net_of(w) == net && t1.net_of(w) != net {
            let n = t1.net_of(w);
            assert(t1.nets@.contains_key(n) && t1.nets@[n].wires@.contains(w));
            assert(t1.nets@[n] == t0.nets@[n]);
            assert(t0.nets@[n].wires@.contains(w));
        }
    }
    assert(after.wire_live(a) && after.wire_live(b));
    assert(t0.net_of(b) == net);
    assert(connected(wire_edge(after), a, b));
    assert(connected(wire_edge(after), b, a));
    lemma_wires_connected(after, definitions, a, b);
    lemma_wires_connected(after, definitions, b, a);
    assert(t1.net_labels_ok(none)) by {
        assert forall|n: u32| #[trigger] t1.nets@.contains_key(n) implies {
            &&& t1.net_label(n) != 0 ==> t1.islands@.contains_key(t1.net_label(n))
            &&& t1.net_label(n) == 0 ==> t1.nets@[n].terminals@.len() == 0
            &&& t1.net_label(n) != 0 && !none.contains(t1.net_label(n))
                ==> t1.nets@[n].terminals@.len() > 0
        } by {
            assert(t0.nets@.contains_key(n));
            if n == net {
                assert(listed.contains(net));
                assert(t1.net_label(net) == t0.net_label(net));
                if t0.net_label(net) != 0 {
                    assert(t0.net_lists(before, definitions, net));
                    let x = t0.nets@[net].terminals@[0];
                    assert(t0.nets@[net].terminals@.contains(x));
                    assert(t0.attached(before, x, net));
                    let y = choose|y: u64| #[trigger]
                        before.linked(x, y) && !is_terminal_word(y) && t0.net_of(word_id(y)) == net;
                    assert(after.linked(x, y));
                    assert(after.linked(y, x));
                    lemma_linked_live(after, definitions, y, x);
                    assert(t1.net_of(word_id(y)) == net);
                    assert(t1.attached(after, x, net));
                    assert(t1.net_lists(after, definitions, net));
                    assert(t1.nets@[net].terminals@.contains(x));
                }
            } else {
                assert(t1.nets@[n] == t0.nets@[n]);
            }
        }
    }
    assert(t1.components_ok(after, definitions, none)) by {
        assert forall|i: u32| #[trigger] t1.islands@.contains_key(i) implies {
            &&& t1.islands@[i].components@.len() > 0
            &&& t1.islands@[i].components@.no_duplicates()
            &&& forall|c: u64| #[trigger]
                t1.islands@[i].components@.contains(c) ==> is_component(after, definitions, c)
                    && t1.component_label(after, c) == i
        } by {
            assert(t0.islands@.contains_key(i));
        }
    }
    assert(t1.islands_connected(after, definitions, none)) by {
        let old_edge = vertex_edge(before, definitions);
        let new_edge = vertex_edge(after, definitions);
        let within = |v: Vertex| true;
        assert forall|u: Vertex, v: Vertex| within(u) && #[trigger] old_edge(u, v) implies within(v)
            && connected(new_edge, u, v) by {
            let (x, y) = choose|x: u64, y: u64| #[trigger]
                before.linked(x, y) && vertex_of(before, definitions, x) == u && vertex_of(
                    before,
                    definitions,
                    y,
                ) == v;
            if after.linked(x, y) {
                assert(after.linked(y, x));
                lemma_linked_live(after, definitions, x, y);
                lemma_linked_live(after, definitions, y, x);
                assert(vertex_of(after, definitions, x) == u);
                assert(vertex_of(after, definitions, y) == v);
                assert(new_edge(u, v));
                lemma_connected_edge(new_edge, u, v);
            }
        }
        assert forall|c: u64, d: u64|
            #![trigger t1.component_label(after, c), t1.component_label(after, d)]
            is_component(after, definitions, c) && is_component(after, definitions, d)
                && t1.component_label(after, c) == t1.component_label(after, d) && !none.contains(
                t1.component_label(after, c),
            ) implies connected(new_edge, Vertex::Component(c), Vertex::Component(d)) by {
            assert(is_component(before, definitions, c) && is_component(before, definitions, d));
            assert(t0.component_label(before, c) == t0.component_label(before, d));
            lemma_connected_replaced(
                old_edge,
                new_edge,
                within,
                Vertex::Component(c),
                Vertex::Component(d),
            );
        }
    }
}

impl DerivedTopology {
    /// Whether `after` has a net split where it had fallen apart, and its island after it. Where
    /// only a connection was taken out of a net that stayed whole, the island is left alone.
    pub closed spec fn net_resplit(
        self,
        after: Self,
        network: Network,
        definitions: DefinitionRegistry,
        net: u32,
        wire_gone: bool,
    ) -> bool {
        exists|mid: Self, listed: Seq<u32>|
            {
                let island = self.net_label(net);
                &&& #[trigger] self.net_repaired(mid, net, listed)
                &&& if island != 0 && (wire_gone || listed.len() > 1) {
                    &&& mid.repaired_elsewhere(after, network, definitions, island)
                    &&& mid.island_repaired(after, island)
                } else {
                    after == mid
                }
            }
    }

    /// The net of a wire, or zero.
    pub closed spec fn wire_net_spec(self, wire: u32) -> u32 {
        self.net_of(wire)
    }

    pub(crate) proof fn lemma_wire_net(self, wire: u32)
        ensures
            self.wire_net_spec(wire) == self.net_of(wire),
    {
    }

    /// Whether `other` is this topology with a wire in no net, though it is still on the list of its
    /// net.
    pub open spec fn without_wire(self, wire: u32, other: Self) -> bool {
        &&& forall|w: u32| #[trigger]
            other.wire_net_spec(w) == if w == wire {
                0
            } else {
                self.wire_net_spec(w)
            }
        &&& forall|n: u32| #[trigger] other.has_net(n) == self.has_net(n)
        &&& forall|n: u32| #[trigger] other.net_at(n) == self.net_at(n)
        &&& forall|n: u32| #[trigger] other.net_island_spec(n) == self.net_island_spec(n)
        &&& other.islands_kept(self)
        &&& other.spec_net_slots() == self.spec_net_slots()
        &&& other.spec_island_slots() == self.spec_island_slots()
    }

    proof fn lemma_without_wire(self, wire: u32, other: Self)
        requires
            1 <= wire <= self.wire_net_map@.len(),
            other.nets == self.nets,
            other.wire_net_map@ == self.wire_net_map@.update(wire - 1, 0),
            other.net_island_map == self.net_island_map,
            other.islands == self.islands,
            other.invalidation == self.invalidation,
        ensures
            self.without_wire(wire, other),
    {
        self.lemma_model();
        other.lemma_model();
        self.lemma_net_slots();
        other.lemma_net_slots();
        self.lemma_island_slots();
        other.lemma_island_slots();
        assert forall|w: u32| #[trigger]
            other.wire_net_spec(w) == if w == wire {
                0
            } else {
                self.wire_net_spec(w)
            } by {}
        assert forall|n: u32| #[trigger] other.net_island_spec(n) == self.net_island_spec(n) by {
            assert(other.net_label(n) == self.net_label(n));
        }
    }

    /// Follows the network when a connection between two wires has been taken out.
    pub fn disconnect_wires(
        &mut self,
        definitions: &DefinitionRegistry,
        network: &Network,
        scratch: &mut TraversalScratch,
        wire_a: WireId,
        wire_b: WireId,
    )
        requires
            network_ok(*network, *definitions),
            old(self).behind(
                *network,
                *definitions,
                |before: Network, after: Network|
                    before.link_removed(
                        after,
                        wire_word(wire_a.value()),
                        wire_word(wire_b.value()),
                    ),
            ),
            old(self).has_room(),
            old(scratch).wf(),
        ensures
            final(scratch).wf(),
            final(self).consistent(*network, *definitions),
            old(self).net_resplit(
                *final(self),
                *network,
                *definitions,
                old(self).wire_net_spec(wire_a.value()),
                false,
            ),
    {
        broadcast use {group_words, DenseIdStore::lemma_live};

        let ghost a = wire_a.value();
        let ghost b = wire_b.value();
        let ghost before = choose|before: Network| #[trigger]
            self.consistent(before, *definitions) && network_ok(before, *definitions)
                && before.link_removed(*network, wire_word(a), wire_word(b));
        let ghost t0 = *self;
        let number: u32 = wire_a.get();
        let other: u32 = wire_b.get();
        proof {
            self.lemma_consistent(before, *definitions);
            self.lemma_room();
            assert(before.linked(wire_word(a), wire_word(b)));
            assert(before.linked(wire_word(b), wire_word(a)));
            lemma_linked_live(before, *definitions, wire_word(a), wire_word(b));
            lemma_linked_live(before, *definitions, wire_word(b), wire_word(a));
            assert(before.wire_live(a));
            let net = self.net_of(a);
            assert(self.net_of(b) == net);
            assert(net_cut(t0, before, *network, net));
            assert forall|w: u32| #[trigger] self.net_of(w) == if network.wire_live(w) {
                t0.net_of(w)
            } else {
                0
            } by {
                assert(before.wire_live(w) == network.wire_live(w));
            }
            lemma_net_breaking(t0, *self, before, *network, *definitions, net);
        }
        let net_id: u32 = self.wire_net_raw(number);
        let island_id: u32 = self.net_island_map[(net_id - 1) as usize];
        let affected = self.repair_net(definitions, network, scratch, net_id);
        let ghost mid = *self;
        if affected.len() > 1 && island_id != 0 && self.islands.has(island_id) {
            let ghost broken = set![island_id];
            assert(self.room_to_split(island_id));
            self.repair_island(definitions, network, scratch, island_id, &affected, Ghost(broken));
            proof {
                assert(broken.remove(island_id) =~= Set::empty());
                self.lemma_consistent(*network, *definitions);
                assert(t0.net_repaired(mid, net_id, affected@));
            }
        } else {
            proof {
                assert(t0.net_of(a) == net_id);
                if island_id != 0 {
                    assert(affected@ =~= seq![net_id]);
                    lemma_still_whole(t0, *self, before, *network, *definitions, net_id, a, b);
                }
                self.lemma_consistent(*network, *definitions);
                assert(t0.net_repaired(mid, net_id, affected@));
            }
        }
    }

    /// Follows the network when a wire has been taken out with its connections.
    pub fn remove_wire(
        &mut self,
        definitions: &DefinitionRegistry,
        network: &Network,
        scratch: &mut TraversalScratch,
        wire: WireId,
    )
        requires
            network_ok(*network, *definitions),
            old(self).behind(
                *network,
                *definitions,
                |before: Network, after: Network| before.wire_removed(after, wire.value()),
            ),
            old(self).has_room(),
            old(scratch).wf(),
        ensures
            final(scratch).wf(),
            final(self).consistent(*network, *definitions),
            exists|cut: Self| #[trigger]
                old(self).without_wire(wire.value(), cut) && cut.net_resplit(
                    *final(self),
                    *network,
                    *definitions,
                    old(self).wire_net_spec(wire.value()),
                    true,
                ),
    {
        broadcast use {group_words, DenseIdStore::lemma_live};

        let ghost w0 = wire.value();
        let ghost before = choose|before: Network| #[trigger]
            self.consistent(before, *definitions) && network_ok(before, *definitions)
                && before.wire_removed(*network, w0);
        let ghost t0 = *self;
        let number: u32 = wire.get();
        proof {
            self.lemma_consistent(before, *definitions);
            self.lemma_room();
            assert(before.wire_live(w0));
        }
        let net_id: u32 = self.wire_net_raw(number);
        let island_id: u32 = self.net_island_map[(net_id - 1) as usize];
        self.wire_net_map.set((number - 1) as usize, 0);
        let ghost cut = *self;
        proof {
            t0.lemma_without_wire(w0, cut);
            assert forall|x: u64, y: u64| #[trigger]
                before.linked(x, y) && !network.linked(x, y) implies (!is_terminal_word(x)
                && t0.net_of(word_id(x)) == net_id) || (!is_terminal_word(y) && t0.net_of(
                word_id(y),
            ) == net_id) by {}
            assert(net_cut(t0, before, *network, net_id));
            assert forall|w: u32| #[trigger] self.net_of(w) == if network.wire_live(w) {
                t0.net_of(w)
            } else {
                0
            } by {
                if w != w0 && !network.wire_live(w) {
                    assert(!before.wire_live(w));
                    assert(t0.net_of(w) == 0);
                }
            }
            lemma_net_breaking(t0, *self, before, *network, *definitions, net_id);
        }
        let affected = self.repair_net(definitions, network, scratch, net_id);
        let ghost mid = *self;
        if island_id != 0 && self.islands.has(island_id) {
            let ghost broken = set![island_id];
            assert(self.room_to_split(island_id));
            self.repair_island(definitions, network, scratch, island_id, &affected, Ghost(broken));
            proof {
                assert(broken.remove(island_id) =~= Set::empty());
            }
        }
        proof {
            self.lemma_consistent(*network, *definitions);
            assert(cut.net_repaired(mid, net_id, affected@));
        }
    }
}

/// Splitting a net leaves all other nets and islands as they are. The parts that get new identifiers,
/// which no net had before, have no more wires than the part that keeps the old one.
pub proof fn law_splitting_a_net_leaves_the_rest_alone(
    topology: DerivedTopology,
    after: DerivedTopology,
    network: Network,
    definitions: DefinitionRegistry,
    net: u32,
    wire_gone: bool,
)
    requires
        topology.has_net(net),
        topology.net_resplit(after, network, definitions, net, wire_gone),
    ensures
        forall|w: u32|
            topology.wire_net_spec(w) != net ==> #[trigger] after.wire_net_spec(w)
                == topology.wire_net_spec(w),
        forall|n: u32|
            topology.has_net(n) && n != net ==> #[trigger] after.has_net(n) && after.net_at(n)
                == topology.net_at(n),
        forall|n: u32| #[trigger]
            after.has_net(n) && !topology.has_net(n) ==> {
                &&& topology.spec_net_slots() < n <= after.spec_net_slots()
                &&& after.has_net(net)
                &&& after.net_at(n).spec_wires().len() <= after.net_at(net).spec_wires().len()
            },
        forall|n: u32|
            topology.spec_net_slots() < n <= after.spec_net_slots() ==> #[trigger] after.has_net(n),
        forall|i: u32|
            topology.has_island(i) && i != topology.net_island_spec(net)
                ==> #[trigger] after.has_island(i) && after.island_at(i) == topology.island_at(i),
        forall|i: u32| #[trigger]
            after.has_island(i) && !topology.has_island(i) ==> i > topology.spec_island_slots(),
{
    topology.lemma_model();
    after.lemma_model();
    topology.lemma_net_slots();
    after.lemma_net_slots();
    topology.lemma_island_slots();
    let island = topology.net_label(net);
    let (mid, listed) = choose|mid: DerivedTopology, listed: Seq<u32>|
        {
            &&& #[trigger] topology.net_repaired(mid, net, listed)
            &&& if island != 0 && (wire_gone || listed.len() > 1) {
                &&& mid.repaired_elsewhere(after, network, definitions, island)
                &&& mid.island_repaired(after, island)
            } else {
                after == mid
            }
        };
    assert(after.nets == mid.nets && after.wire_net_map == mid.wire_net_map);
    assert forall|w: u32| topology.wire_net_spec(w) != net implies #[trigger] after.wire_net_spec(w)
        == topology.wire_net_spec(w) by {
        topology.lemma_wire_net(w);
        after.lemma_wire_net(w);
        assert(mid.net_of(w) == topology.net_of(w));
    }
    assert forall|n: u32|
        topology.has_net(n) && n != net implies #[trigger] after.has_net(n) && after.net_at(n)
        == topology.net_at(n) by {
        assert(mid.nets@.contains_key(n));
        assert(mid.nets@[n] == topology.nets@[n]);
    }
    assert forall|n: u32|
        topology.spec_net_slots() < n <= after.spec_net_slots() implies #[trigger] after.has_net(
        n,
    ) by {
        assert(listed.contains(n));
        assert(mid.nets@.contains_key(n));
    }
    assert forall|n: u32| #[trigger]
        after.has_net(n) && !topology.has_net(n) implies topology.spec_net_slots() < n
        <= after.spec_net_slots() && after.has_net(net) && after.net_at(n).spec_wires().len()
        <= after.net_at(net).spec_wires().len() by {
        assert(mid.nets@.contains_key(n));
        assert(listed.contains(n));
        assert(listed.contains(listed[0]));
        after.nets@[n].lemma_lists();
        after.nets@[net].lemma_lists();
    }
    assert forall|i: u32|
        topology.has_island(i) && i != topology.net_island_spec(
            net,
        ) implies #[trigger] after.has_island(i) && after.island_at(i) == topology.island_at(i) by {
        assert(mid.islands@.contains_key(i));
        assert(after.islands@.contains_key(i));
    }
    assert forall|i: u32| #[trigger] after.has_island(i) && !topology.has_island(i) implies i
        > topology.spec_island_slots() by {
        assert(after.islands@.contains_key(i) && !mid.islands@.contains_key(i));
    }
}

/// Which part of a net that has fallen apart survives, which part of its island, and what is marked:
/// the net is gone where no wire is left in it. Else the last of the parts with the most wires keeps
/// the identifier, and the others get new ones in order. Its island is split where the net was split or lost
/// a wire, and else left alone.
pub proof fn law_cutting_wires_splits_a_net_and_its_island(
    topology: DerivedTopology,
    after: DerivedTopology,
    network: Network,
    definitions: DefinitionRegistry,
    net: u32,
    wire_gone: bool,
)
    requires
        topology.has_net(net),
        topology.net_island_spec(net) != 0 ==> topology.has_island(topology.net_island_spec(net)),
        topology.net_resplit(after, network, definitions, net, wire_gone),
    ensures
        after.has_net(net) <==> exists|w: u32| #[trigger] topology.wire_net_spec(w) == net,
        after.has_net(net) ==> exists|parts: Seq<u32>, keep: int| #[trigger]
            parts_numbered(parts, keep, net, topology.spec_net_slots()) && topology.net_parts(
                after,
                net,
                parts,
                keep,
            ),
        ({
            let island = topology.net_island_spec(net);
            let split = exists|n: u32| #[trigger] after.has_net(n) && !topology.has_net(n);
            if island != 0 && (wire_gone || split) {
                topology.island_split(after, island)
            } else {
                topology.islands_kept(after)
            }
        }),
{
    broadcast use DenseIdStore::lemma_live;

    topology.lemma_model();
    after.lemma_model();
    let island = topology.net_label(net);
    let (mid, listed) = choose|mid: DerivedTopology, listed: Seq<u32>|
        {
            &&& #[trigger] topology.net_repaired(mid, net, listed)
            &&& if island != 0 && (wire_gone || listed.len() > 1) {
                &&& mid.repaired_elsewhere(after, network, definitions, island)
                &&& mid.island_repaired(after, island)
            } else {
                after == mid
            }
        };
    assert(after.nets == mid.nets);
    assert(after.has_net(net) <==> listed.len() > 0) by {
        assert(mid.nets@.contains_key(net) == after.has_net(net));
        if listed.len() > 0 {
            assert(listed.contains(listed[0]));
        }
        if listed.contains(net) {
            assert(listed.len() > 0);
        }
    }
    assert(listed.len() > 0 <==> exists|w: u32| #[trigger] topology.wire_net_spec(w) == net) by {
        assert forall|w: u32| #[trigger] topology.wire_net_spec(w) == topology.net_of(w) by {
            topology.lemma_wire_net(w);
        }
        if listed.len() > 0 {
            let w = choose|w: u32| #[trigger] topology.net_of(w) == net;
            assert(topology.wire_net_spec(w) == net);
        }
        if exists|w: u32| #[trigger] topology.wire_net_spec(w) == net {
            let w = choose|w: u32| #[trigger] topology.wire_net_spec(w) == net;
            assert(topology.net_of(w) == net);
        }
    }
    let split = exists|n: u32| #[trigger] after.has_net(n) && !topology.has_net(n);
    assert(listed.len() > 1 <==> split) by {
        if listed.len() > 1 {
            let n = listed[1];
            assert(listed.contains(n));
            assert(n != listed[0]);
            assert(mid.nets@.contains_key(n));
            assert(after.has_net(n) && !topology.has_net(n));
        }
        if split {
            let n = choose|n: u32| #[trigger] after.has_net(n) && !topology.has_net(n);
            assert(mid.nets@.contains_key(n));
            assert(listed.contains(n));
            let k = choose|k: int| 0 <= k < listed.len() && listed[k] == n;
            if k == 0 {
                assert(n == net);
            }
        }
    }
    if island != 0 && (wire_gone || split) {
        topology.lemma_island_split(mid, after, island);
    }
    if after.has_net(net) {
        topology.lemma_net_slots();
        after.lemma_net_slots();
        let (parts, keep) = choose|parts: Seq<u32>, keep: int| #[trigger]
            parts_numbered(parts, keep, net, topology.nets.spec_slot_count()) && parts.len()
                == listed.len() && topology.net_parts_ordered(mid, net, parts, keep);
        topology.nets@[net].lemma_lists();
        assert forall|n: u32| #[trigger] after.net_at(n).spec_wires() == mid.nets@[n].wires@ by {
            after.nets@[n].lemma_lists();
        }
        assert forall|k: int, l: int| 0 <= k < l < parts.len() implies found_before(
            topology.net_at(net).spec_wires(),
            after.net_at(#[trigger] parts[k]).spec_wires(),
            after.net_at(#[trigger] parts[l]).spec_wires(),
        ) by {
            assert(found_before(
                topology.nets@[net].wires@,
                mid.nets@[parts[k]].wires@,
                mid.nets@[parts[l]].wires@,
            ));
        }
        assert(topology.net_parts(after, net, parts, keep));
        assert(parts_numbered(parts, keep, net, topology.spec_net_slots()));
    }
}

} // verus!
