//! What the derived topology does when connections are added to the network.

use crate::connection::{group_words, is_terminal_word, wire_word, word_id};
use crate::dense_store::DenseIdStore;
use crate::graph::{
    connected, lemma_connected_edge, lemma_connected_map, lemma_connected_sym,
    lemma_connected_trans,
};
use crate::ids::IslandId;
use crate::island_traversal::lemma_linked_live;
use crate::network::Network;
use crate::registry::DefinitionRegistry;
use crate::small_list::dropped;
use crate::topology::{component_of, is_component, network_ok, vertex_of, DerivedTopology, Vertex};
use crate::topology_joins::{append_ids, append_words, lemma_concat_contains, moved};
use crate::topology_links::{
    joint, lemma_islands_joined, lemma_joint_more, lemma_joint_sym, links_of, wire_joint, with_link,
};
use crate::traversal::lemma_push_contains;
use vstd::prelude::*;

verus! {

/// In a topology that connections give, each net of an island has a terminal of it.
pub(crate) proof fn lemma_touched(
    topology: DerivedTopology,
    network: Network,
    definitions: DefinitionRegistry,
    links: spec_fn(u64, u64) -> bool,
    island: u32,
)
    requires
        network_ok(network, definitions),
        links_of(network, links),
        topology.joined(network, definitions, links),
        island != 0,
    ensures
        topology.nets_touched(network, definitions, island),
{
    assert forall|n: u32| #[trigger] topology.net_label(n) == island implies topology.net_touched(
        network,
        definitions,
        island,
        n,
    ) by {
        lemma_net_terminal(topology, network, definitions, links, n);
        let (x, y) = choose|x: u64, y: u64| #[trigger]
            links(x, y) && is_terminal_word(x) && !is_terminal_word(y) && topology.net_of(
                word_id(y),
            ) == n && topology.component_label(network, component_of(network, definitions, x))
                == island;
        assert(network.linked(x, y));
    }
}

/// A net that is in an island has a terminal of one of its components.
proof fn lemma_net_terminal(
    topology: DerivedTopology,
    network: Network,
    definitions: DefinitionRegistry,
    links: spec_fn(u64, u64) -> bool,
    net: u32,
)
    requires
        topology.joined(network, definitions, links),
        topology.net_label(net) != 0,
    ensures
        exists|x: u64, y: u64| #[trigger]
            links(x, y) && is_terminal_word(x) && !is_terminal_word(y) && topology.net_of(
                word_id(y),
            ) == net && topology.component_label(network, component_of(network, definitions, x))
                == topology.net_label(net),
{
    assert(topology.nets@.contains_key(net));
    assert(topology.net_lists_by(network, definitions, links, net));
    let x = topology.nets@[net].terminals@[0];
    assert(topology.nets@[net].terminals@.contains(x));
    assert(topology.attached_by(links, x, net));
    let y = choose|y: u64| #[trigger]
        links(x, y) && !is_terminal_word(y) && topology.net_of(word_id(y)) == net;
    assert(links(x, y));
    assert(topology.label(network, definitions, x) == topology.label(network, definitions, y));
}

/// Wires that connections between wires join are joined.
proof fn lemma_wire_joint(
    network: Network,
    definitions: DefinitionRegistry,
    links: spec_fn(u64, u64) -> bool,
    a: u32,
    b: u32,
)
    requires
        connected(wire_joint(links), a, b),
    ensures
        connected(joint(network, definitions, links), Vertex::Wire(a), Vertex::Wire(b)),
{
    broadcast use group_words;

    let map = |w: u32| Vertex::Wire(w);
    assert forall|x: u32, y: u32| #[trigger] wire_joint(links)(x, y) implies joint(
        network,
        definitions,
        links,
    )(map(x), map(y)) by {
        assert(links(wire_word(x), wire_word(y)));
        assert(vertex_of(network, definitions, wire_word(x)) == Vertex::Wire(x));
        assert(vertex_of(network, definitions, wire_word(y)) == Vertex::Wire(y));
    }
    lemma_connected_map(wire_joint(links), joint(network, definitions, links), map, a, b);
}

/// A component of an island is joined with each wire of each of its nets.
proof fn lemma_component_to_wire(
    topology: DerivedTopology,
    network: Network,
    definitions: DefinitionRegistry,
    links: spec_fn(u64, u64) -> bool,
    wire: u32,
) -> (component: u64)
    requires
        network_ok(network, definitions),
        links_of(network, links),
        topology.joined(network, definitions, links),
        network.wire_live(wire),
        topology.net_label(topology.net_of(wire)) != 0,
    ensures
        is_component(network, definitions, component),
        topology.component_label(network, component) == topology.net_label(topology.net_of(wire)),
        connected(
            joint(network, definitions, links),
            Vertex::Component(component),
            Vertex::Wire(wire),
        ),
{
    let net = topology.net_of(wire);
    lemma_net_terminal(topology, network, definitions, links, net);
    let (x, y) = choose|x: u64, y: u64| #[trigger]
        links(x, y) && is_terminal_word(x) && !is_terminal_word(y) && topology.net_of(word_id(y))
            == net && topology.component_label(network, component_of(network, definitions, x))
            == topology.net_label(net);
    assert(links(x, y) && links(y, x));
    assert(network.linked(x, y) && network.linked(y, x));
    lemma_linked_live(network, definitions, x, y);
    lemma_linked_live(network, definitions, y, x);
    let component = component_of(network, definitions, x);
    let w = word_id(y);
    let edge = joint(network, definitions, links);
    assert(vertex_of(network, definitions, x) == Vertex::Component(component));
    assert(vertex_of(network, definitions, y) == Vertex::Wire(w));
    assert(edge(Vertex::Component(component), Vertex::Wire(w)));
    lemma_connected_edge(edge, Vertex::Component(component), Vertex::Wire(w));
    assert(topology.net_of(w) == topology.net_of(wire));
    assert(connected(wire_joint(links), w, wire));
    lemma_wire_joint(network, definitions, links, w, wire);
    lemma_connected_trans(
        edge,
        Vertex::Component(component),
        Vertex::Wire(w),
        Vertex::Wire(wire),
    );
    component
}

impl DerivedTopology {
    /// Whether `after` has one net in place of two: `dst` holds what `src` held.
    pub(crate) open spec fn net_absorbed(self, after: Self, src: u32, dst: u32) -> bool {
        let a = self.nets@[dst];
        let b = self.nets@[src];
        let c = after.nets@[dst];
        &&& after.nets.wf()
        &&& after.nets.spec_slot_count() == self.nets.spec_slot_count()
        &&& forall|n: u32| #[trigger]
            after.nets@.contains_key(n) <==> (self.nets@.contains_key(n) && n != src)
        &&& forall|n: u32|
            self.nets@.contains_key(n) && n != src && n != dst ==> #[trigger] after.nets@[n]
                == self.nets@[n]
        &&& c.wires@ == a.wires@ + b.wires@
        &&& c.terminal_components@ == a.terminal_components@ + b.terminal_components@
        &&& c.terminals@ == a.terminals@ + b.terminals@
        &&& after.wire_net_map@.len() == self.wire_net_map@.len()
        &&& forall|w: u32| #[trigger]
            after.net_of(w) == if b.wires@.contains(w) {
                dst
            } else {
                self.net_of(w)
            }
    }

    /// Lets one net take in another.
    fn absorb_net(&mut self, src: u32, dst: u32, label: u32)
        requires
            old(self).nets.wf(),
            old(self).nets@.contains_key(src),
            old(self).nets@.contains_key(dst),
            src != dst,
            old(self).net_island_map@.len() == old(self).nets.spec_slot_count(),
            forall|w: u32| #[trigger]
                old(self).nets@[src].wires@.contains(w) ==> 1 <= w <= old(self).wire_net_map@.len(),
        ensures
            old(self).net_absorbed(*final(self), src, dst),
            final(self).net_island_map@ == old(self).net_island_map@.update(src - 1, 0).update(
                dst - 1,
                label,
            ),
            final(self).islands == old(self).islands,
            final(self).device_chunks == old(self).device_chunks,
            final(self).invalidation == old(self).invalidation,
    {
        broadcast use DenseIdStore::lemma_live;

        let src_net = self.nets.remove(src).unwrap();
        self.net_island_map.set((src - 1) as usize, 0);
        self.net_island_map.set((dst - 1) as usize, label);
        let ghost list = src_net.wires@;
        let mut index: usize = 0;
        let ghost removed = *self;
        while index < src_net.wires.len()
            invariant
                src_net.wires@ == list,
                index <= list.len(),
                forall|w: u32| #[trigger]
                    list.contains(w) ==> 1 <= w <= self.wire_net_map@.len(),
                self.nets == removed.nets,
                self.net_island_map == removed.net_island_map,
                self.islands == removed.islands,
                self.device_chunks == removed.device_chunks,
                self.invalidation == removed.invalidation,
                self.wire_net_map@.len() == removed.wire_net_map@.len(),
                forall|w: u32| #[trigger]
                    self.net_of(w) == if list.take(index as int).contains(w) {
                        dst
                    } else {
                        removed.net_of(w)
                    },
            decreases list.len() - index,
        {
            let wire: u32 = src_net.wires.get(index);
            let ghost before = *self;
            assert(list.contains(wire));
            self.wire_net_map.set((wire - 1) as usize, dst);
            proof {
                let taken = list.take(index as int);
                assert(list.take(index + 1) =~= taken.push(wire));
                lemma_push_contains(taken, wire);
                assert forall|w: u32| #[trigger] self.net_of(w) == if list.take(index + 1).contains(
                    w,
                ) {
                    dst
                } else {
                    removed.net_of(w)
                } by {
                    assert(before.net_of(w) == if taken.contains(w) {
                        dst
                    } else {
                        removed.net_of(w)
                    });
                }
            }
            index = index + 1;
        }
        assert(list.take(list.len() as int) =~= list);
        let ghost pointed = *self;
        assert(self.nets@.contains_key(dst));
        let ghost terminals = self.nets@[dst].terminals@ + src_net.terminals@;
        let dst_net = self.nets.get_mut(dst);
        append_ids(&mut dst_net.wires, &src_net.wires);
        append_words(&mut dst_net.terminal_components, &src_net.terminal_components);
        dst_net.terminals = Ghost(terminals);
        proof {
            assert forall|w: u32| #[trigger] self.net_of(w) == if list.contains(w) {
                dst
            } else {
                old(self).net_of(w)
            } by {
                assert(self.net_of(w) == pointed.net_of(w));
                assert(removed.net_of(w) == old(self).net_of(w));
            }
        }
    }
}

/// Once two nets that a connection joins are one, and their islands are too, the topology is that
/// with the connection.
#[verifier::spinoff_prover]
#[verifier::rlimit(60)]
proof fn lemma_wires_joined(
    t0: DerivedTopology,
    t1: DerivedTopology,
    network: Network,
    definitions: DefinitionRegistry,
    links: spec_fn(u64, u64) -> bool,
    a: u32,
    b: u32,
    src: u32,
    dst: u32,
    from: u32,
    to: u32,
    label: u32,
)
    requires
        network_ok(network, definitions),
        links_of(network, links),
        t0.joined(network, definitions, links),
        network.linked(wire_word(a), wire_word(b)),
        network.wire_live(a),
        network.wire_live(b),
        src != dst,
        (t0.net_of(a) == src && t0.net_of(b) == dst) || (t0.net_of(b) == src && t0.net_of(a)
            == dst),
        t0.net_absorbed(t1, src, dst),
        t1.structure_ok(network, definitions),
        t1.components_ok(network, definitions, Set::empty()),
        forall|n: u32| #[trigger]
            t1.net_label(n) == if n == src {
                0
            } else if n == dst {
                label
            } else {
                moved(t0.net_label(n), from, to)
            },
        forall|c: u64|
            is_component(network, definitions, c) ==> #[trigger] t1.component_label(network, c)
                == moved(t0.component_label(network, c), from, to),
        forall|i: u32| #[trigger]
            t0.islands@.contains_key(i) ==> t1.islands@.contains_key(moved(i, from, to)),
        t0.net_label(src) != 0 ==> label == moved(t0.net_label(src), from, to),
        t0.net_label(dst) != 0 ==> label == moved(t0.net_label(dst), from, to),
        t0.net_label(src) == 0 && t0.net_label(dst) == 0 ==> label == 0,
        to != 0,
        from != 0,
        from != to ==> (t0.net_label(src) == from && t0.net_label(dst) == to) || (t0.net_label(src)
            == to && t0.net_label(dst) == from),
    ensures
        t1.joined(network, definitions, with_link(links, wire_word(a), wire_word(b))),
{
    broadcast use {group_words, DenseIdStore::lemma_live};

    let wa = wire_word(a);
    let wb = wire_word(b);
    let more = with_link(links, wa, wb);
    let net_a = t0.nets@[dst];
    let net_b = t0.nets@[src];
    let net_c = t1.nets@[dst];
    assert(t0.nets@.contains_key(src) && t0.nets@.contains_key(dst));
    lemma_concat_contains(net_a.wires@, net_b.wires@);
    lemma_concat_contains(net_a.terminals@, net_b.terminals@);
    assert forall|w: u32| #[trigger] t1.net_of(w) == if t0.net_of(w) == src {
        dst
    } else {
        t0.net_of(w)
    } by {
        if net_b.wires@.contains(w) {
            assert(t0.net_of(w) == src);
        }
        if t0.net_of(w) == src {
            assert(network.wire_live(w)) by {
                if !network.wire_live(w) {
                    assert(t0.net_of(w) == 0);
                }
            }
        }
    }
    assert(t1.wires_ok(network)) by {
        assert forall|w: u32| #[trigger] network.wire_live(w) implies t1.nets@.contains_key(
            t1.net_of(w),
        ) && t1.nets@[t1.net_of(w)].wires@.contains(w) by {
            assert(t0.nets@[t0.net_of(w)].wires@.contains(w));
        }
        assert forall|w: u32| !network.wire_live(w) implies #[trigger] t1.net_of(w) == 0 by {
            assert(t0.net_of(w) == 0);
        }
        assert forall|n: u32| #[trigger] t1.nets@.contains_key(n) implies {
            &&& t1.nets@[n].wires@.len() > 0
            &&& t1.nets@[n].wires@.no_duplicates()
            &&& forall|w: u32| #[trigger]
                t1.nets@[n].wires@.contains(w) ==> network.wire_live(w) && t1.net_of(w) == n
        } by {
            assert(t0.nets@.contains_key(n));
            if n == dst {
                assert forall|i: int, j: int|
                    0 <= i < net_c.wires@.len() && 0 <= j < net_c.wires@.len() && i
                        != j implies net_c.wires@[i] != net_c.wires@[j] by {
                    let lo = if i < j {
                        i
                    } else {
                        j
                    };
                    let hi = if i < j {
                        j
                    } else {
                        i
                    };
                    if lo < net_a.wires@.len() && hi >= net_a.wires@.len() {
                        assert(net_a.wires@.contains(net_a.wires@[lo]));
                        assert(net_b.wires@.contains(net_b.wires@[hi - net_a.wires@.len()]));
                        assert(t0.net_of(net_a.wires@[lo]) == dst);
                        assert(t0.net_of(net_b.wires@[hi - net_a.wires@.len()]) == src);
                    }
                }
                assert forall|w: u32| #[trigger] t1.nets@[n].wires@.contains(w) implies
                    network.wire_live(w) && t1.net_of(w) == n by {
                    assert(net_a.wires@.contains(w) || net_b.wires@.contains(w));
                }
            } else {
                assert forall|w: u32| #[trigger] t1.nets@[n].wires@.contains(w) implies
                    network.wire_live(w) && t1.net_of(w) == n by {
                    assert(t0.nets@[n].wires@.contains(w));
                }
            }
        }
    }
    assert forall|x: u64, n: u32| #[trigger] t1.attached_by(more, x, n) <==> (if n == dst {
        t0.attached_by(links, x, dst) || t0.attached_by(links, x, src)
    } else {
        n != src && t0.attached_by(links, x, n)
    }) by {
        if t1.attached_by(more, x, n) {
            let y = choose|y: u64| #[trigger]
                more(x, y) && !is_terminal_word(y) && t1.net_of(word_id(y)) == n;
            assert(links(x, y));
            assert(t0.attached_by(links, x, t0.net_of(word_id(y))));
        }
        if t0.attached_by(links, x, n) && n != src {
            let y = choose|y: u64| #[trigger]
                links(x, y) && !is_terminal_word(y) && t0.net_of(word_id(y)) == n;
            assert(more(x, y));
            assert(t1.net_of(word_id(y)) == n);
        }
        if t0.attached_by(links, x, src) && n == dst {
            let y = choose|y: u64| #[trigger]
                links(x, y) && !is_terminal_word(y) && t0.net_of(word_id(y)) == src;
            assert(more(x, y));
            assert(t1.net_of(word_id(y)) == n);
        }
    }
    assert(t1.nets_list_by(network, definitions, more)) by {
        assert forall|n: u32| #[trigger] t1.nets@.contains_key(n) implies t1.net_lists_by(
            network,
            definitions,
            more,
            n,
        ) by {
            assert(t0.nets@.contains_key(n));
            assert(t0.net_lists_by(network, definitions, links, n));
            assert(t0.net_lists_by(network, definitions, links, src));
            if n == dst {
                assert forall|i: int, j: int|
                    0 <= i < net_c.terminals@.len() && 0 <= j < net_c.terminals@.len() && i
                        != j implies net_c.terminals@[i] != net_c.terminals@[j] by {
                    let lo = if i < j {
                        i
                    } else {
                        j
                    };
                    let hi = if i < j {
                        j
                    } else {
                        i
                    };
                    if lo < net_a.terminals@.len() && hi >= net_a.terminals@.len() {
                        let x = net_a.terminals@[lo];
                        let z = net_b.terminals@[hi - net_a.terminals@.len()];
                        assert(net_a.terminals@.contains(x));
                        assert(net_b.terminals@.contains(z));
                        assert(t0.attached_by(links, x, dst));
                        assert(t0.attached_by(links, z, src));
                        let y = choose|y: u64| #[trigger]
                            links(x, y) && !is_terminal_word(y) && t0.net_of(word_id(y)) == dst;
                        let v = choose|v: u64| #[trigger]
                            links(z, v) && !is_terminal_word(v) && t0.net_of(word_id(v)) == src;
                        assert(network.linked(x, y) && network.linked(z, v));
                    }
                }
                assert forall|x: u64| #[trigger] t1.nets@[n].terminals@.contains(x)
                    <==> t1.attached_by(more, x, n) by {
                    assert(net_a.terminals@.contains(x) <==> t0.attached_by(links, x, dst));
                    assert(net_b.terminals@.contains(x) <==> t0.attached_by(links, x, src));
                }
            } else {
                assert forall|x: u64| #[trigger] t1.nets@[n].terminals@.contains(x)
                    <==> t1.attached_by(more, x, n) by {
                    assert(t0.nets@[n].terminals@.contains(x) <==> t0.attached_by(links, x, n));
                }
            }
        }
    }
    assert(t1.net_labels_ok(Set::empty())) by {
        assert forall|n: u32| #[trigger] t1.nets@.contains_key(n) implies {
            &&& t1.net_label(n) != 0 ==> t1.islands@.contains_key(t1.net_label(n))
            &&& t1.net_label(n) == 0 ==> t1.nets@[n].terminals@.len() == 0
            &&& t1.net_label(n) != 0 ==> t1.nets@[n].terminals@.len() > 0
        } by {
            assert(t0.nets@.contains_key(n));
            assert(t0.islands@.contains_key(t0.net_label(n)) || t0.net_label(n) == 0);
            assert(t0.islands@.contains_key(t0.net_label(src)) || t0.net_label(src) == 0);
        }
        assert forall|n: u32| !t1.nets@.contains_key(n) implies #[trigger] t1.net_label(n) == 0 by {
            if n != src {
                assert(t0.net_label(n) == 0);
            }
        }
    }
    assert forall|x: u64, y: u64| #[trigger] links(x, y) implies {
        &&& t1.label(network, definitions, x) == t1.label(network, definitions, y)
        &&& !is_terminal_word(x) && !is_terminal_word(y) ==> t1.net_of(word_id(x)) == t1.net_of(
            word_id(y),
        )
    } by {
        assert(network.linked(x, y) && links(y, x));
        assert(network.linked(y, x));
        lemma_linked_live(network, definitions, x, y);
        lemma_linked_live(network, definitions, y, x);
        let l = t0.label(network, definitions, x);
        assert(l == t0.label(network, definitions, y));
        if is_terminal_word(x) || is_terminal_word(y) {
            let z = if is_terminal_word(x) {
                x
            } else {
                y
            };
            let c = component_of(network, definitions, z);
            assert(t0.islands@.contains_key(t0.component_label(network, c)));
            assert(l != 0);
        }
        assert(t1.label(network, definitions, x) == moved(l, from, to) || (!is_terminal_word(x) && l
            == 0));
        assert(t1.label(network, definitions, y) == moved(l, from, to) || (!is_terminal_word(y) && l
            == 0));
    }
    assert(t1.closed_by(network, definitions, more)) by {
        assert forall|x: u64, y: u64| #[trigger] more(x, y) implies {
            &&& t1.label(network, definitions, x) == t1.label(network, definitions, y)
            &&& !is_terminal_word(x) && !is_terminal_word(y) ==> t1.net_of(word_id(x)) == t1.net_of(
                word_id(y),
            )
        } by {
            if !links(x, y) {
                assert(t1.net_of(a) == dst && t1.net_of(b) == dst);
            }
        }
    }
    assert forall|x: u64, y: u64| #[trigger] more(x, y) implies more(y, x) by {
        if links(x, y) {
            assert(links(y, x));
        }
    }
    lemma_joint_more(network, definitions, links, more);
    lemma_joint_sym(network, definitions, more);
    assert(wire_joint(more)(a, b)) by {
        assert(more(wa, wb));
    }
    lemma_connected_edge(wire_joint(more), a, b);
    lemma_connected_sym(wire_joint(more), a, b);
    assert(t1.nets_joined(network, more)) by {
        assert forall|u: u32, v: u32|
            #![trigger t1.net_of(u), t1.net_of(v)]
            network.wire_live(u) && network.wire_live(v) && t1.net_of(u) == t1.net_of(
                v,
            ) implies connected(wire_joint(more), u, v) by {
            if t0.net_of(u) == t0.net_of(v) {
                assert(connected(wire_joint(links), u, v));
            } else {
                let (p, q) = if t0.net_of(u) == t0.net_of(a) {
                    (a, b)
                } else {
                    (b, a)
                };
                assert(t0.net_of(u) == t0.net_of(p) && t0.net_of(q) == t0.net_of(v));
                assert(connected(wire_joint(links), u, p));
                assert(connected(wire_joint(links), q, v));
                lemma_connected_trans(wire_joint(more), u, p, q);
                lemma_connected_trans(wire_joint(more), u, q, v);
            }
        }
    }
    if from == to {
        assert(t1.islands_joined(network, definitions, more)) by {
            assert forall|c: u64, d: u64|
                #![trigger t1.component_label(network, c), t1.component_label(network, d)]
                is_component(network, definitions, c) && is_component(network, definitions, d)
                    && t1.component_label(network, c) == t1.component_label(
                    network,
                    d,
                ) implies connected(
                joint(network, definitions, more),
                Vertex::Component(c),
                Vertex::Component(d),
            ) by {
                assert(t0.component_label(network, c) == t0.component_label(network, d));
                assert(connected(
                    joint(network, definitions, links),
                    Vertex::Component(c),
                    Vertex::Component(d),
                ));
            }
        }
    } else {
        let edge = joint(network, definitions, more);
        let (p, q) = if t0.net_label(t0.net_of(a)) == from {
            (a, b)
        } else {
            (b, a)
        };
        assert(t0.net_label(t0.net_of(p)) == from && t0.net_label(t0.net_of(q)) == to);
        let c_from = lemma_component_to_wire(t0, network, definitions, links, p);
        let c_to = lemma_component_to_wire(t0, network, definitions, links, q);
        lemma_wire_joint(network, definitions, more, p, q);
        lemma_connected_sym(edge, Vertex::Component(c_to), Vertex::Wire(q));
        lemma_connected_trans(
            edge,
            Vertex::Component(c_from),
            Vertex::Wire(p),
            Vertex::Wire(q),
        );
        lemma_connected_trans(
            edge,
            Vertex::Component(c_from),
            Vertex::Wire(q),
            Vertex::Component(c_to),
        );
        lemma_islands_joined(
            t0,
            t1,
            network,
            definitions,
            links,
            more,
            from,
            to,
            c_from,
            c_to,
        );
    }
}

impl DerivedTopology {
    /// Whether `after` has a new revision of one island, marked so.
    pub(crate) open spec fn bumped(self, after: Self, island: u32) -> bool {
        &&& after.islands.wf()
        &&& after.islands.spec_slot_count() == self.islands.spec_slot_count()
        &&& after.islands@.dom() == self.islands@.dom()
        &&& forall|i: u32| #[trigger]
            self.islands@.contains_key(i) ==> after.islands@[i].components
                == self.islands@[i].components && after.islands@[i].revision
                == self.islands@[i].revision + if i == island {
                1int
            } else {
                0
            }
        &&& after.invalidation.wf()
        &&& after.invalidation.gone() == self.invalidation.gone()
        &&& after.islands.dense_order() == self.islands.dense_order()
        &&& self.invalidation.marked_more(after.invalidation, set![island], Set::empty())
        &&& after.invalidation.marks() == self.invalidation.marks().dirtied(island)
    }

    /// Gives an island a new revision and marks it.
    pub(crate) fn bump_island(&mut self, island: u32)
        requires
            old(self).islands.wf(),
            old(self).invalidation.wf(),
            old(self).islands@.contains_key(island),
            old(self).islands@[island].revision < u64::MAX,
            !old(self).invalidation.gone().contains(island),
        ensures
            old(self).bumped(*final(self), island),
            final(self).nets == old(self).nets,
            final(self).wire_net_map == old(self).wire_net_map,
            final(self).net_island_map == old(self).net_island_map,
            final(self).device_chunks == old(self).device_chunks,
    {
        broadcast use DenseIdStore::lemma_live;

        let entry = self.islands.get_mut(island);
        entry.revision = entry.revision + 1;
        self.invalidation.mark_topology_dirty(IslandId::new(island));
        assert(self.islands@.dom() =~= old(self).islands@.dom());
    }

    /// Which of two nets that are joined takes in the other: the one with an island, else the one
    /// with more wires, else the first.
    pub(crate) open spec fn join_target(self, net_a: u32, net_b: u32) -> (u32, u32) {
        let in_a = self.net_label(net_a) != 0;
        let in_b = self.net_label(net_b) != 0;
        if in_a && !in_b {
            (net_a, net_b)
        } else if in_b && !in_a {
            (net_b, net_a)
        } else if self.nets@[net_a].wires@.len() >= self.nets@[net_b].wires@.len() {
            (net_a, net_b)
        } else {
            (net_b, net_a)
        }
    }

    /// Which of two islands that are joined takes in the other.
    pub(crate) open spec fn merge_target(self, island_a: u32, island_b: u32) -> (u32, u32) {
        if self.islands@[island_a].components@.len() >= self.islands@[island_b].components@.len() {
            (island_a, island_b)
        } else {
            (island_b, island_a)
        }
    }

    /// What joining two islands does to islands and marks.
    pub(crate) open spec fn islands_after_join(
        self,
        after: Self,
        network: Network,
        definitions: DefinitionRegistry,
        island_a: u32,
        island_b: u32,
    ) -> bool {
        if island_a != 0 && island_b != 0 && island_a != island_b {
            let (dst, src) = self.merge_target(island_a, island_b);
            &&& after.islands.spec_slot_count() == self.islands.spec_slot_count()
            &&& after.islands@.dom() == self.islands@.dom().remove(src)
            &&& forall|i: u32|
                i != src && i != dst && self.islands@.contains_key(i)
                    ==> #[trigger] after.islands@[i] == self.islands@[i]
            &&& after.islands@[dst].components@ == self.islands@[dst].components@
                + self.islands@[src].components@
            &&& after.islands@[dst].revision == self.islands@[dst].revision + 1
            &&& after.islands.dense_order() == dropped(self.islands.dense_order(), src)
            &&& self.invalidation.marked_more(after.invalidation, set![dst], set![src])
            &&& after.invalidation.marks() == self.invalidation.marks().retired(src).dirtied(dst)
        } else if island_a != 0 && island_a == island_b {
            self.bumped(after, island_a)
        } else {
            after.islands == self.islands && after.invalidation == self.invalidation
        }
    }

    /// What a connection between wires of two nets does: nothing where they are one net; else one
    /// net takes in the other, and their islands are joined.
    pub(crate) open spec fn wires_connected(
        self,
        after: Self,
        network: Network,
        definitions: DefinitionRegistry,
        net_a: u32,
        net_b: u32,
    ) -> bool {
        if net_a == net_b {
            after == self
        } else {
            let (dst, src) = self.join_target(net_a, net_b);
            &&& self.net_absorbed(after, src, dst)
            &&& self.islands_after_join(
                after,
                network,
                definitions,
                self.net_label(dst),
                self.net_label(src),
            )
            &&& forall|n: u32| #[trigger]
                after.net_label(n) == if n == src {
                    0
                } else {
                    self.label_after_join(
                        self.net_label(n),
                        self.net_label(dst),
                        self.net_label(src),
                    )
                }
        }
    }

    /// The island that is there for another one once two islands, if there are two, are joined.
    pub(crate) open spec fn label_after_join(self, label: u32, island_a: u32, island_b: u32) -> u32 {
        if island_a != 0 && island_b != 0 && island_a != island_b {
            let (dst, src) = self.merge_target(island_a, island_b);
            moved(label, src, dst)
        } else {
            label
        }
    }

    /// Joins the nets of two wires, and their islands.
    #[verifier::spinoff_prover]
    #[verifier::rlimit(40)]
    pub(crate) fn join_wires(
        &mut self,
        definitions: &DefinitionRegistry,
        network: &Network,
        wire_a: u32,
        wire_b: u32,
        Ghost(links): Ghost<spec_fn(u64, u64) -> bool>,
    )
        requires
            network_ok(*network, *definitions),
            links_of(*network, links),
            old(self).joined(*network, *definitions, links),
            network.linked(wire_word(wire_a), wire_word(wire_b)),
            forall|i: u32| #[trigger]
                old(self).islands@.contains_key(i) ==> old(self).islands@[i].revision < u64::MAX,
        ensures
            final(self).joined(
                *network,
                *definitions,
                with_link(links, wire_word(wire_a), wire_word(wire_b)),
            ),
            old(self).wires_connected(
                *final(self),
                *network,
                *definitions,
                old(self).net_of(wire_a),
                old(self).net_of(wire_b),
            ),
    {
        broadcast use {group_words, DenseIdStore::lemma_live};

        let ghost t0 = *self;
        let ghost wa = wire_word(wire_a);
        let ghost wb = wire_word(wire_b);
        proof {
            assert(network.linked(wb, wa));
            lemma_linked_live(*network, *definitions, wa, wb);
            lemma_linked_live(*network, *definitions, wb, wa);
            assert(network.wire_live(wire_a) && network.wire_live(wire_b));
        }
        let net_a: u32 = self.wire_net_raw(wire_a);
        let net_b: u32 = self.wire_net_raw(wire_b);
        if net_a == net_b {
            proof {
                lemma_linked_inside(t0, *network, *definitions, links, wire_a, wire_b);
            }
            return ;
        }
        assert(self.nets@.contains_key(net_a) && self.nets@.contains_key(net_b));
        let island_a: u32 = self.net_island_map[(net_a - 1) as usize];
        let island_b: u32 = self.net_island_map[(net_b - 1) as usize];
        let a_first = if island_a != 0 && island_b == 0 {
            true
        } else if island_a == 0 && island_b != 0 {
            false
        } else {
            self.nets.get(net_a).unwrap().wires.len() >= self.nets.get(net_b).unwrap().wires.len()
        };
        let (dst, src): (u32, u32) = if a_first {
            (net_a, net_b)
        } else {
            (net_b, net_a)
        };
        let (dst_island, src_island): (u32, u32) = if a_first {
            (island_a, island_b)
        } else {
            (island_b, island_a)
        };
        let ghost mut from: u32 = 1;
        let ghost mut to: u32 = 1;
        let mut bump = false;
        let mut label: u32 = dst_island;
        if dst_island == 0 {
            label = src_island;
        } else if src_island != 0 && src_island == dst_island {
            bump = true;
        } else if src_island != 0 {
            proof {
                lemma_touched(t0, *network, *definitions, links, dst_island);
                lemma_touched(t0, *network, *definitions, links, src_island);
            }
            label = self.merge_islands(definitions, network, dst_island, src_island);
            proof {
                to = label;
                from = if label == dst_island {
                    src_island
                } else {
                    dst_island
                };
            }
        }
        let ghost mid = *self;
        proof {
            assert forall|n: u32| #[trigger] mid.net_label(n) == moved(
                t0.net_label(n),
                from,
                to,
            ) by {}
            assert forall|i: u32| #[trigger] t0.islands@.contains_key(
                i,
            ) implies mid.islands@.contains_key(moved(i, from, to)) by {
                if from != to {
                    assert(mid.islands@.dom().contains(moved(i, from, to)));
                }
            }
            assert forall|w: u32| #[trigger] mid.nets@[src].wires@.contains(w) implies 1 <= w
                <= mid.wire_net_map@.len() by {
                assert(network.wire_live(w));
            }
        }
        self.absorb_net(src, dst, label);
        let ghost absorbed = *self;
        proof {
            assert(self.structure_ok(*network, *definitions));
            assert forall|n: u32| #[trigger] self.net_label(n) == if n == src {
                0
            } else if n == dst {
                label
            } else {
                mid.net_label(n)
            } by {}
            assert forall|c: u64| #[trigger]
                self.component_label(*network, c) == mid.component_label(*network, c) by {}
            assert forall|w: u32| #[trigger] mid.net_of(w) == t0.net_of(w) by {}
            assert(t0.net_absorbed(*self, src, dst));
            assert(self.components_ok(*network, *definitions, Set::empty()));
        }
        if bump {
            self.bump_island(label);
            proof {
                assert(self.structure_ok(*network, *definitions)) by {
                    assert forall|i: u32| #[trigger]
                        self.invalidation.gone().contains(i) implies !self.islands@.contains_key(i)
                        && i <= self.islands.spec_slot_count() by {
                        assert(!absorbed.islands@.dom().contains(i));
                    }
                }
                assert forall|w: u32| #[trigger] self.net_of(w) == absorbed.net_of(w) by {}
                assert forall|n: u32| #[trigger] self.net_label(n) == absorbed.net_label(n) by {}
                assert forall|c: u64| #[trigger]
                    self.component_label(*network, c) == absorbed.component_label(*network, c) by {}
                assert forall|i: u32| #[trigger]
                    self.islands@.contains_key(i) == absorbed.islands@.contains_key(i) by {
                    assert(self.islands@.dom().contains(i) == absorbed.islands@.dom().contains(i));
                }
                assert(self.components_ok(*network, *definitions, Set::empty())) by {
                    assert forall|i: u32| #[trigger] self.islands@.contains_key(i) implies {
                        &&& self.islands@[i].components@.len() > 0
                        &&& self.islands@[i].components@.no_duplicates()
                        &&& forall|c: u64| #[trigger]
                            self.islands@[i].components@.contains(c) ==> is_component(
                                *network,
                                *definitions,
                                c,
                            ) && self.component_label(*network, c) == i
                    } by {
                        assert(absorbed.islands@.contains_key(i));
                    }
                    assert forall|c: u64| #[trigger] is_component(
                        *network,
                        *definitions,
                        c,
                    ) implies {
                        let l = self.component_label(*network, c);
                        self.islands@.contains_key(l) && self.islands@[l].components@.contains(c)
                    } by {
                        assert(absorbed.islands@.contains_key(
                            absorbed.component_label(*network, c),
                        ));
                    }
                }
                assert(t0.net_absorbed(*self, src, dst));
            }
        }
        proof {
            lemma_wires_joined(
                t0,
                *self,
                *network,
                *definitions,
                links,
                wire_a,
                wire_b,
                src,
                dst,
                from,
                to,
                label,
            );
            assert(t0.islands_after_join(
                *self,
                *network,
                *definitions,
                dst_island,
                src_island,
            ));
            assert forall|n: u32| #[trigger] self.net_label(n) == if n == src {
                0
            } else {
                t0.label_after_join(t0.net_label(n), dst_island, src_island)
            } by {
                assert(self.net_label(n) == absorbed.net_label(n));
                assert(mid.net_label(n) == moved(t0.net_label(n), from, to));
            }
        }
    }
}

/// A connection inside a net changes nothing.
proof fn lemma_linked_inside(
    topology: DerivedTopology,
    network: Network,
    definitions: DefinitionRegistry,
    links: spec_fn(u64, u64) -> bool,
    a: u32,
    b: u32,
)
    requires
        topology.joined(network, definitions, links),
        topology.net_of(a) == topology.net_of(b),
    ensures
        topology.joined(network, definitions, with_link(links, wire_word(a), wire_word(b))),
{
    broadcast use group_words;

    let more = with_link(links, wire_word(a), wire_word(b));
    lemma_joint_more(network, definitions, links, more);
    assert(topology.nets_list_by(network, definitions, more)) by {
        assert forall|n: u32| #[trigger] topology.nets@.contains_key(n) implies
            topology.net_lists_by(network, definitions, more, n) by {
            assert(topology.net_lists_by(network, definitions, links, n));
            assert forall|x: u64| #[trigger] topology.nets@[n].terminals@.contains(x)
                <==> topology.attached_by(more, x, n) by {
                if topology.attached_by(links, x, n) {
                    let y = choose|y: u64| #[trigger]
                        links(x, y) && !is_terminal_word(y) && topology.net_of(word_id(y)) == n;
                    assert(more(x, y));
                }
                if topology.attached_by(more, x, n) {
                    let y = choose|y: u64| #[trigger]
                        more(x, y) && !is_terminal_word(y) && topology.net_of(word_id(y)) == n;
                    assert(links(x, y));
                }
            }
        }
    }
    assert(topology.closed_by(network, definitions, more)) by {
        assert forall|x: u64, y: u64| #[trigger] more(x, y) implies {
            &&& topology.label(network, definitions, x) == topology.label(network, definitions, y)
            &&& !is_terminal_word(x) && !is_terminal_word(y) ==> topology.net_of(word_id(x))
                == topology.net_of(word_id(y))
        } by {
            if links(x, y) {
                assert(topology.label(network, definitions, x) == topology.label(
                    network,
                    definitions,
                    y,
                ));
            }
        }
    }
    assert(topology.nets_joined(network, more));
    assert(topology.islands_joined(network, definitions, more));
}

/// Once a terminal is on the list of a net, and the islands of both are one, the topology is that
/// with the connection.
#[verifier::spinoff_prover]
#[verifier::rlimit(60)]
pub(crate) proof fn lemma_terminal_joined(
    t0: DerivedTopology,
    t1: DerivedTopology,
    network: Network,
    definitions: DefinitionRegistry,
    links: spec_fn(u64, u64) -> bool,
    w: u32,
    x: u64,
    from: u32,
    to: u32,
)
    requires
        network_ok(network, definitions),
        links_of(network, links),
        t0.joined(network, definitions, links),
        network.linked(wire_word(w), x),
        network.wire_live(w),
        is_terminal_word(x),
        forall|y: u64| !#[trigger] links(x, y),
        t1.structure_ok(network, definitions),
        t1.components_ok(network, definitions, Set::empty()),
        t1.nets@ == t0.nets@.insert(t0.net_of(w), t1.nets@[t0.net_of(w)]),
        t1.nets@[t0.net_of(w)].wires == t0.nets@[t0.net_of(w)].wires,
        t1.nets@[t0.net_of(w)].terminals@ == t0.nets@[t0.net_of(w)].terminals@.push(x),
        t1.nets@[t0.net_of(w)].terminal_components@
            == t0.nets@[t0.net_of(w)].terminal_components@.push(
            component_of(network, definitions, x),
        ),
        t1.wire_net_map == t0.wire_net_map,
        forall|n: u32| #[trigger]
            t1.net_label(n) == if n == t0.net_of(w) {
                moved(
                    t0.component_label(network, component_of(network, definitions, x)),
                    from,
                    to,
                )
            } else {
                moved(t0.net_label(n), from, to)
            },
        forall|c: u64|
            is_component(network, definitions, c) ==> #[trigger] t1.component_label(network, c)
                == moved(t0.component_label(network, c), from, to),
        forall|i: u32| #[trigger]
            t0.islands@.contains_key(i) ==> t1.islands@.contains_key(moved(i, from, to)),
        to != 0,
        from != 0,
        ({
            let ln = t0.net_label(t0.net_of(w));
            let lc = t0.component_label(network, component_of(network, definitions, x));
            &&& ln != 0 ==> moved(ln, from, to) == moved(lc, from, to)
            &&& from != to ==> (ln == from && lc == to) || (ln == to && lc == from)
        }),
    ensures
        t1.joined(network, definitions, with_link(links, wire_word(w), x)),
{
    broadcast use {group_words, DenseIdStore::lemma_live};

    let ww = wire_word(w);
    let net = t0.net_of(w);
    let comp = component_of(network, definitions, x);
    let ln = t0.net_label(net);
    let lc = t0.component_label(network, comp);
    let more = with_link(links, ww, x);
    assert(network.linked(x, ww));
    lemma_linked_live(network, definitions, x, ww);
    assert(t0.nets@.contains_key(net));
    assert(t0.islands@.contains_key(lc));
    assert forall|v: u32| #[trigger] t1.net_of(v) == t0.net_of(v) by {}
    assert forall|n: u32| #[trigger] t1.nets@.contains_key(n) == t0.nets@.contains_key(n) by {}
    let old_list = t0.nets@[net].terminals@;
    lemma_push_contains(old_list, x);
    assert(t1.wires_ok(network)) by {
        assert forall|n: u32| #[trigger] t1.nets@.contains_key(n) implies {
            &&& t1.nets@[n].wires@.len() > 0
            &&& t1.nets@[n].wires@.no_duplicates()
            &&& forall|v: u32| #[trigger]
                t1.nets@[n].wires@.contains(v) ==> network.wire_live(v) && t1.net_of(v) == n
        } by {
            assert(t0.nets@.contains_key(n));
            assert forall|v: u32| #[trigger] t1.nets@[n].wires@.contains(v) implies
                network.wire_live(v) && t1.net_of(v) == n by {
                assert(t0.nets@[n].wires@.contains(v));
            }
        }
    }
    assert forall|z: u64, n: u32| #[trigger]
        t1.attached_by(more, z, n) <==> (t0.attached_by(links, z, n) || (z == x && n == net)) by {
        if t1.attached_by(more, z, n) {
            let y = choose|y: u64| #[trigger]
                more(z, y) && !is_terminal_word(y) && t1.net_of(word_id(y)) == n;
            if links(z, y) {
                assert(t0.net_of(word_id(y)) == n);
            }
        }
        if t0.attached_by(links, z, n) {
            let y = choose|y: u64| #[trigger]
                links(z, y) && !is_terminal_word(y) && t0.net_of(word_id(y)) == n;
            assert(more(z, y));
            assert(t1.net_of(word_id(y)) == n);
        }
        if z == x && n == net {
            assert(more(x, ww));
            assert(t1.net_of(word_id(ww)) == n);
        }
    }
    assert(!old_list.contains(x)) by {
        assert(t0.net_lists_by(network, definitions, links, net));
        if old_list.contains(x) {
            assert(t0.attached_by(links, x, net));
            let y = choose|y: u64| #[trigger]
                links(x, y) && !is_terminal_word(y) && t0.net_of(word_id(y)) == net;
        }
    }
    assert(t1.nets_list_by(network, definitions, more)) by {
        assert forall|n: u32| #[trigger] t1.nets@.contains_key(n) implies t1.net_lists_by(
            network,
            definitions,
            more,
            n,
        ) by {
            assert(t0.net_lists_by(network, definitions, links, n));
            assert forall|z: u64| #[trigger] t1.nets@[n].terminals@.contains(z)
                <==> t1.attached_by(more, z, n) by {
                assert(t0.nets@[n].terminals@.contains(z) <==> t0.attached_by(links, z, n));
            }
        }
    }
    assert(t1.net_labels_ok(Set::empty())) by {
        assert forall|n: u32| #[trigger] t1.nets@.contains_key(n) implies {
            &&& t1.net_label(n) != 0 ==> t1.islands@.contains_key(t1.net_label(n))
            &&& t1.net_label(n) == 0 ==> t1.nets@[n].terminals@.len() == 0
            &&& t1.net_label(n) != 0 ==> t1.nets@[n].terminals@.len() > 0
        } by {
            assert(t0.nets@.contains_key(n));
            assert(t0.islands@.contains_key(t0.net_label(n)) || t0.net_label(n) == 0);
        }
        assert forall|n: u32| !t1.nets@.contains_key(n) implies #[trigger] t1.net_label(n) == 0 by {
            assert(t0.net_label(n) == 0);
        }
    }
    assert(t1.closed_by(network, definitions, more)) by {
        assert forall|u: u64, v: u64| #[trigger] more(u, v) implies {
            &&& t1.label(network, definitions, u) == t1.label(network, definitions, v)
            &&& !is_terminal_word(u) && !is_terminal_word(v) ==> t1.net_of(word_id(u)) == t1.net_of(
                word_id(v),
            )
        } by {
            if links(u, v) {
                assert(network.linked(u, v) && links(v, u));
                assert(network.linked(v, u));
                lemma_linked_live(network, definitions, u, v);
                lemma_linked_live(network, definitions, v, u);
                let l = t0.label(network, definitions, u);
                assert(l == t0.label(network, definitions, v));
                if is_terminal_word(u) || is_terminal_word(v) {
                    let z = if is_terminal_word(u) {
                        u
                    } else {
                        v
                    };
                    let c = component_of(network, definitions, z);
                    assert(t0.islands@.contains_key(t0.component_label(network, c)));
                    assert(l != 0);
                    assert(t1.label(network, definitions, u) == moved(l, from, to));
                    assert(t1.label(network, definitions, v) == moved(l, from, to));
                } else {
                    assert(t0.net_of(word_id(u)) == t0.net_of(word_id(v)));
                }
            } else {
                assert(t1.component_label(network, comp) == moved(lc, from, to));
                assert(t1.net_label(net) == moved(lc, from, to));
            }
        }
    }
    assert forall|u: u64, v: u64| #[trigger] more(u, v) implies more(v, u) by {
        if links(u, v) {
            assert(links(v, u));
        }
    }
    lemma_joint_more(network, definitions, links, more);
    lemma_joint_sym(network, definitions, more);
    assert(t1.nets_joined(network, more)) by {
        assert forall|u: u32, v: u32|
            #![trigger t1.net_of(u), t1.net_of(v)]
            network.wire_live(u) && network.wire_live(v) && t1.net_of(u) == t1.net_of(
                v,
            ) implies connected(wire_joint(more), u, v) by {
            assert(t0.net_of(u) == t0.net_of(v));
            assert(connected(wire_joint(links), u, v));
        }
    }
    if from == to {
        assert(t1.islands_joined(network, definitions, more)) by {
            assert forall|c: u64, d: u64|
                #![trigger t1.component_label(network, c), t1.component_label(network, d)]
                is_component(network, definitions, c) && is_component(network, definitions, d)
                    && t1.component_label(network, c) == t1.component_label(
                    network,
                    d,
                ) implies connected(
                joint(network, definitions, more),
                Vertex::Component(c),
                Vertex::Component(d),
            ) by {
                assert(t0.component_label(network, c) == t0.component_label(network, d));
                assert(connected(
                    joint(network, definitions, links),
                    Vertex::Component(c),
                    Vertex::Component(d),
                ));
            }
        }
    } else {
        let edge = joint(network, definitions, more);
        let c_net = lemma_component_to_wire(t0, network, definitions, links, w);
        assert(more(ww, x));
        assert(vertex_of(network, definitions, ww) == Vertex::Wire(w));
        assert(vertex_of(network, definitions, x) == Vertex::Component(comp));
        assert(edge(Vertex::Wire(w), Vertex::Component(comp)));
        lemma_connected_edge(edge, Vertex::Wire(w), Vertex::Component(comp));
        lemma_connected_trans(
            edge,
            Vertex::Component(c_net),
            Vertex::Wire(w),
            Vertex::Component(comp),
        );
        lemma_connected_sym(edge, Vertex::Component(c_net), Vertex::Component(comp));
        let (c_from, c_to) = if ln == from {
            (c_net, comp)
        } else {
            (comp, c_net)
        };
        lemma_islands_joined(
            t0,
            t1,
            network,
            definitions,
            links,
            more,
            from,
            to,
            c_from,
            c_to,
        );
    }
}

/// Once the islands of two terminals are one, the topology is that with the connection between
/// them.
#[verifier::spinoff_prover]
#[verifier::rlimit(40)]
pub(crate) proof fn lemma_components_joined(
    t0: DerivedTopology,
    t1: DerivedTopology,
    network: Network,
    definitions: DefinitionRegistry,
    links: spec_fn(u64, u64) -> bool,
    x: u64,
    y: u64,
    from: u32,
    to: u32,
)
    requires
        network_ok(network, definitions),
        links_of(network, links),
        t0.joined(network, definitions, links),
        network.linked(x, y),
        is_terminal_word(x),
        is_terminal_word(y),
        t1.structure_ok(network, definitions),
        t1.components_ok(network, definitions, Set::empty()),
        t1.wires_ok(network),
        t1.nets == t0.nets,
        t1.wire_net_map == t0.wire_net_map,
        forall|n: u32| #[trigger] t1.net_label(n) == moved(t0.net_label(n), from, to),
        forall|c: u64|
            is_component(network, definitions, c) ==> #[trigger] t1.component_label(network, c)
                == moved(t0.component_label(network, c), from, to),
        forall|i: u32| #[trigger]
            t0.islands@.contains_key(i) ==> t1.islands@.contains_key(moved(i, from, to)),
        to != 0,
        from != 0,
        ({
            let lx = t0.component_label(network, component_of(network, definitions, x));
            let ly = t0.component_label(network, component_of(network, definitions, y));
            &&& moved(lx, from, to) == moved(ly, from, to)
            &&& from != to ==> (lx == from && ly == to) || (lx == to && ly == from)
        }),
    ensures
        t1.joined(network, definitions, with_link(links, x, y)),
{
    broadcast use {group_words, DenseIdStore::lemma_live};

    let cx = component_of(network, definitions, x);
    let cy = component_of(network, definitions, y);
    let lx = t0.component_label(network, cx);
    let more = with_link(links, x, y);
    assert(network.linked(y, x));
    lemma_linked_live(network, definitions, x, y);
    lemma_linked_live(network, definitions, y, x);
    assert forall|v: u32| #[trigger] t1.net_of(v) == t0.net_of(v) by {}
    assert forall|z: u64, n: u32| #[trigger]
        t1.attached_by(more, z, n) == t0.attached_by(links, z, n) by {
        if t1.attached_by(more, z, n) {
            let v = choose|v: u64| #[trigger]
                more(z, v) && !is_terminal_word(v) && t1.net_of(word_id(v)) == n;
            assert(links(z, v));
            assert(t0.net_of(word_id(v)) == n);
        }
        if t0.attached_by(links, z, n) {
            let v = choose|v: u64| #[trigger]
                links(z, v) && !is_terminal_word(v) && t0.net_of(word_id(v)) == n;
            assert(more(z, v));
            assert(t1.net_of(word_id(v)) == n);
        }
    }
    assert(t1.nets_list_by(network, definitions, more)) by {
        assert forall|n: u32| #[trigger] t1.nets@.contains_key(n) implies t1.net_lists_by(
            network,
            definitions,
            more,
            n,
        ) by {
            assert(t0.net_lists_by(network, definitions, links, n));
            assert forall|z: u64| #[trigger] t1.nets@[n].terminals@.contains(z)
                <==> t1.attached_by(more, z, n) by {
                assert(t0.nets@[n].terminals@.contains(z) <==> t0.attached_by(links, z, n));
            }
        }
    }
    assert(t1.net_labels_ok(Set::empty())) by {
        assert forall|n: u32| #[trigger] t1.nets@.contains_key(n) implies {
            &&& t1.net_label(n) != 0 ==> t1.islands@.contains_key(t1.net_label(n))
            &&& t1.net_label(n) == 0 ==> t1.nets@[n].terminals@.len() == 0
            &&& t1.net_label(n) != 0 ==> t1.nets@[n].terminals@.len() > 0
        } by {
            assert(t0.nets@.contains_key(n));
            assert(t0.islands@.contains_key(t0.net_label(n)) || t0.net_label(n) == 0);
        }
        assert forall|n: u32| !t1.nets@.contains_key(n) implies #[trigger] t1.net_label(n) == 0 by {
            assert(t0.net_label(n) == 0);
        }
    }
    assert(t1.closed_by(network, definitions, more)) by {
        assert forall|u: u64, v: u64| #[trigger] more(u, v) implies {
            &&& t1.label(network, definitions, u) == t1.label(network, definitions, v)
            &&& !is_terminal_word(u) && !is_terminal_word(v) ==> t1.net_of(word_id(u)) == t1.net_of(
                word_id(v),
            )
        } by {
            if links(u, v) {
                assert(network.linked(u, v) && links(v, u));
                assert(network.linked(v, u));
                lemma_linked_live(network, definitions, u, v);
                lemma_linked_live(network, definitions, v, u);
                let l = t0.label(network, definitions, u);
                assert(l == t0.label(network, definitions, v));
                assert(t1.label(network, definitions, u) == moved(l, from, to));
                assert(t1.label(network, definitions, v) == moved(l, from, to));
            } else {
                assert(t1.component_label(network, cx) == t1.component_label(network, cy));
            }
        }
    }
    assert forall|u: u64, v: u64| #[trigger] more(u, v) implies more(v, u) by {
        if links(u, v) {
            assert(links(v, u));
        }
    }
    lemma_joint_more(network, definitions, links, more);
    lemma_joint_sym(network, definitions, more);
    assert(t1.nets_joined(network, more)) by {
        assert forall|u: u32, v: u32|
            #![trigger t1.net_of(u), t1.net_of(v)]
            network.wire_live(u) && network.wire_live(v) && t1.net_of(u) == t1.net_of(
                v,
            ) implies connected(wire_joint(more), u, v) by {
            assert(t0.net_of(u) == t0.net_of(v));
            assert(connected(wire_joint(links), u, v));
        }
    }
    let edge = joint(network, definitions, more);
    if from == to {
        assert(t1.islands_joined(network, definitions, more)) by {
            assert forall|c: u64, d: u64|
                #![trigger t1.component_label(network, c), t1.component_label(network, d)]
                is_component(network, definitions, c) && is_component(network, definitions, d)
                    && t1.component_label(network, c) == t1.component_label(
                    network,
                    d,
                ) implies connected(edge, Vertex::Component(c), Vertex::Component(d)) by {
                assert(t0.component_label(network, c) == t0.component_label(network, d));
                assert(connected(
                    joint(network, definitions, links),
                    Vertex::Component(c),
                    Vertex::Component(d),
                ));
            }
        }
    } else {
        assert(more(x, y));
        assert(vertex_of(network, definitions, x) == Vertex::Component(cx));
        assert(vertex_of(network, definitions, y) == Vertex::Component(cy));
        assert(edge(Vertex::Component(cx), Vertex::Component(cy)));
        lemma_connected_edge(edge, Vertex::Component(cx), Vertex::Component(cy));
        lemma_connected_sym(edge, Vertex::Component(cx), Vertex::Component(cy));
        let (c_from, c_to) = if lx == from {
            (cx, cy)
        } else {
            (cy, cx)
        };
        lemma_islands_joined(
            t0,
            t1,
            network,
            definitions,
            links,
            more,
            from,
            to,
            c_from,
            c_to,
        );
    }
}

} // verus!
