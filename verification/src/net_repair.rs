//! Repair of a net after a wire or a connection between wires was taken out of it.

use crate::connection::{group_words, is_terminal_word, wire_word, word_id};
use crate::dense_store::DenseIdStore;
use crate::graph::connected;
use crate::island_traversal::{covers_bare_nets, lemma_linked_live};
use crate::network::Network;
use crate::registry::DefinitionRegistry;
use crate::scratch::TraversalScratch;
use crate::small_list::{swap_removed, IdList};
use crate::topology::{
    is_component, network_ok, vertex_edge, wire_edge, DerivedTopology, Net, Vertex,
};
use crate::ids::MAX_PACKED_ID;
use crate::topology_steps::{found_before, lemma_part_ids, part_ids, parts_numbered};
use crate::traversal::{
    attached_to, is_split, lemma_push_contains, lemma_subset_bounded, net_splittable, part_lists,
    parts_apart, parts_in_order, wire_components,
};
use vstd::prelude::*;

verus! {

impl DerivedTopology {
    /// Stores a net, and points its wires and its island at it.
    pub(crate) fn insert_net(&mut self, net: Net, island: u32) -> (result: u32)
        requires
            old(self).nets.wf(),
            old(self).nets.spec_slot_count() < MAX_PACKED_ID,
            old(self).net_island_map@.len() == old(self).nets.spec_slot_count(),
            forall|w: u32| #[trigger]
                net.wires@.contains(w) ==> 1 <= w <= old(self).wire_net_map@.len(),
        ensures
            result == old(self).nets.spec_slot_count() + 1,
            !old(self).nets@.contains_key(result),
            final(self).nets.wf(),
            final(self).nets.spec_slot_count() == result,
            final(self).nets@ == old(self).nets@.insert(result, net),
            final(self).net_island_map@ == old(self).net_island_map@.push(island),
            final(self).wire_net_map@.len() == old(self).wire_net_map@.len(),
            forall|w: u32| #[trigger]
                final(self).net_of(w) == if net.wires@.contains(w) {
                    result
                } else {
                    old(self).net_of(w)
                },
            final(self).islands == old(self).islands,
            final(self).device_chunks == old(self).device_chunks,
            final(self).invalidation == old(self).invalidation,
    {
        let new_id: u32 = self.nets.slot_count() as u32 + 1;
        let mut index: usize = 0;
        while index < net.wires.len()
            invariant
                index <= net.wires@.len(),
                self.nets == old(self).nets,
                self.net_island_map == old(self).net_island_map,
                self.islands == old(self).islands,
                self.device_chunks == old(self).device_chunks,
                self.invalidation == old(self).invalidation,
                self.wire_net_map@.len() == old(self).wire_net_map@.len(),
                forall|w: u32| #[trigger]
                    net.wires@.contains(w) ==> 1 <= w <= self.wire_net_map@.len(),
                forall|w: u32| #[trigger]
                    self.net_of(w) == if net.wires@.take(index as int).contains(w) {
                        new_id
                    } else {
                        old(self).net_of(w)
                    },
            decreases net.wires@.len() - index,
        {
            let wire: u32 = net.wires.get(index);
            let ghost before = *self;
            assert(net.wires@.contains(wire));
            self.wire_net_map.set((wire - 1) as usize, new_id);
            proof {
                let taken = net.wires@.take(index as int);
                assert(net.wires@.take(index + 1) =~= taken.push(wire));
                lemma_push_contains(taken, wire);
                assert forall|w: u32| #[trigger] self.net_of(w) == if net.wires@.take(
                    index + 1,
                ).contains(w) {
                    new_id
                } else {
                    old(self).net_of(w)
                } by {
                    assert(before.net_of(w) == if taken.contains(w) {
                        new_id
                    } else {
                        old(self).net_of(w)
                    });
                }
            }
            index = index + 1;
        }
        assert(net.wires@.take(net.wires@.len() as int) =~= net.wires@);
        let ghost pointed = *self;
        self.net_island_map.push(island);
        let id: u32 = self.nets.insert(net);
        proof {
            assert forall|w: u32| #[trigger] self.net_of(w) == if net.wires@.contains(w) {
                id
            } else {
                old(self).net_of(w)
            } by {
                assert(pointed.net_of(w) == self.net_of(w));
            }
        }
        id
    }

    /// What holds while one net waits for its repair: its list of wires may name some that are not
    /// in it, its wires need not be connected, and its list of terminals may be out of date.
    pub(crate) open spec fn net_breaking(
        self,
        network: Network,
        definitions: DefinitionRegistry,
        net: u32,
    ) -> bool {
        &&& self.structure_ok(network, definitions)
        &&& net_splittable(self, network, net)
        &&& forall|w: u32| #[trigger]
            network.wire_live(w) ==> self.nets@.contains_key(self.net_of(w)) && self.nets@[self.net_of(
                w,
            )].wires@.contains(w)
        &&& forall|w: u32| !network.wire_live(w) ==> #[trigger] self.net_of(w) == 0
        &&& forall|n: u32| #[trigger]
            self.nets@.contains_key(n) && n != net ==> {
                &&& self.nets@[n].wires@.len() > 0
                &&& self.nets@[n].wires@.no_duplicates()
                &&& forall|w: u32| #[trigger]
                    self.nets@[n].wires@.contains(w) ==> network.wire_live(w) && self.net_of(w) == n
                &&& self.net_lists(network, definitions, n)
                &&& self.net_label(n) != 0 ==> self.islands@.contains_key(self.net_label(n))
                &&& self.net_label(n) == 0 <==> self.nets@[n].terminals@.len() == 0
            }
        &&& self.net_label(net) != 0 ==> self.islands@.contains_key(self.net_label(net))
        &&& self.net_label(net) == 0 ==> forall|x: u64| !#[trigger] self.attached(network, x, net)
        &&& forall|n: u32| !self.nets@.contains_key(n) ==> #[trigger] self.net_label(n) == 0
        &&& self.components_ok(network, definitions, Set::empty())
        &&& self.closed_ok(network, definitions)
        &&& forall|a: u32, b: u32|
            #![trigger self.net_of(a), self.net_of(b)]
            network.wire_live(a) && network.wire_live(b) && self.net_of(a) == self.net_of(b)
                && self.net_of(a) != net ==> connected(wire_edge(network), a, b)
        &&& self.islands_connected(network, definitions, self.broken_island(net))
    }

    /// The island of a net, as a set of at most one.
    pub(crate) open spec fn broken_island(self, net: u32) -> Set<u32> {
        if self.net_label(net) == 0 {
            Set::empty()
        } else {
            set![self.net_label(net)]
        }
    }

    /// Whether `after` has the parts of a net in its place: the first under the net's identifier,
    /// the others under new ones.
    pub(crate) open spec fn net_replaced(self, after: Self, net: u32, parts: Seq<Net>) -> bool {
        let base = self.nets.spec_slot_count();
        &&& parts.len() > 0
        &&& after.nets.wf()
        &&& after.nets.spec_slot_count() == base + parts.len() - 1
        &&& forall|n: u32| #[trigger]
            after.nets@.contains_key(n) <==> (self.nets@.contains_key(n) || base < n <= base
                + parts.len() - 1)
        &&& forall|n: u32|
            self.nets@.contains_key(n) && n != net ==> #[trigger] after.nets@[n] == self.nets@[n]
        &&& after.nets@[net] == parts[0]
        &&& forall|n: u32|
            base < n <= base + parts.len() - 1 ==> #[trigger] after.nets@[n] == parts[n - base]
        &&& after.wire_net_map@.len() == self.wire_net_map@.len()
        &&& forall|k: int, w: u32|
            1 <= k < parts.len() && #[trigger] parts[k].wires@.contains(w) ==> after.net_of(w)
                == base + k
        &&& forall|w: u32|
            (forall|k: int| 1 <= k < parts.len() ==> !#[trigger] parts[k].wires@.contains(w))
                ==> #[trigger] after.net_of(w) == self.net_of(w)
        &&& after.net_island_map@.len() == base + parts.len() - 1
        &&& forall|n: u32| n <= base ==> #[trigger] after.net_label(n) == self.net_label(n)
        &&& forall|n: u32|
            base < n <= base + parts.len() - 1 ==> #[trigger] after.net_label(n) == self.net_label(
                net,
            )
        &&& after.islands == self.islands
        &&& after.device_chunks == self.device_chunks
        &&& after.invalidation == self.invalidation
    }
}

/// The position of the last of the parts that have the most wires.
fn largest_part(parts: &Vec<Net>) -> (result: usize)
    requires
        parts@.len() > 0,
    ensures
        result < parts@.len(),
        forall|k: int|
            0 <= k < parts@.len() ==> (#[trigger] parts@[k]).wires@.len()
                <= parts@[result as int].wires@.len(),
        forall|k: int|
            result < k < parts@.len() ==> (#[trigger] parts@[k]).wires@.len()
                < parts@[result as int].wires@.len(),
{
    let mut best: usize = 0;
    let mut index: usize = 1;
    while index < parts.len()
        invariant
            best < index <= parts@.len(),
            forall|k: int|
                0 <= k < index ==> (#[trigger] parts@[k]).wires@.len()
                    <= parts@[best as int].wires@.len(),
            forall|k: int|
                best < k < index ==> (#[trigger] parts@[k]).wires@.len()
                    < parts@[best as int].wires@.len(),
        decreases parts@.len() - index,
    {
        if parts[index].wires.len() >= parts[best].wires.len() {
            best = index;
        }
        index = index + 1;
    }
    best
}

/// There are no more parts than wires.
proof fn lemma_part_count(
    topology: DerivedTopology,
    network: Network,
    definitions: DefinitionRegistry,
    net: u32,
    parts: Seq<Net>,
)
    requires
        net_splittable(topology, network, net),
        is_split(topology, network, definitions, net, parts),
    ensures
        parts.len() <= topology.nets@[net].wires@.len(),
{
    let firsts = Seq::new(parts.len(), |k: int| parts[k].wires@[0]);
    assert forall|k: int| 0 <= k < firsts.len() implies parts[k].wires@.contains(
        #[trigger] firsts[k],
    ) by {
        assert(parts[k].wires@.len() > 0);
    }
    assert(firsts.no_duplicates()) by {
        assert forall|k: int, l: int|
            0 <= k < firsts.len() && 0 <= l < firsts.len() && k != l implies firsts[k]
            != firsts[l] by {
            assert(parts[k].wires@.contains(firsts[k]));
            assert(parts[l].wires@.contains(firsts[l]));
        }
    }
    assert forall|w: u32| #[trigger] firsts.contains(w) implies topology.nets@[net].wires@.contains(
        w,
    ) by {
        let k = choose|k: int| 0 <= k < firsts.len() && firsts[k] == w;
        assert(parts[k].wires@.contains(firsts[k]));
        assert(topology.net_of(w) == net);
    }
    lemma_subset_bounded(firsts, topology.nets@[net].wires@);
}

/// In which order the parts of a net stand does not matter.
proof fn lemma_parts_permuted(
    topology: DerivedTopology,
    network: Network,
    definitions: DefinitionRegistry,
    net: u32,
    parts: Seq<Net>,
    other: Seq<Net>,
    from: spec_fn(int) -> int,
    back: spec_fn(int) -> int,
)
    requires
        is_split(topology, network, definitions, net, parts),
        other.len() == parts.len(),
        forall|j: int|
            0 <= j < other.len() ==> 0 <= #[trigger] from(j) < parts.len() && other[j]
                == parts[from(j)] && back(from(j)) == j,
        forall|i: int|
            0 <= i < parts.len() ==> 0 <= #[trigger] back(i) < other.len() && other[back(i)]
                == parts[i],
    ensures
        is_split(topology, network, definitions, net, other),
{
    assert forall|j: int| 0 <= j < other.len() implies {
        &&& (#[trigger] other[j]).wires@.len() > 0
        &&& other[j].wires@.no_duplicates()
        &&& part_lists(network, definitions, other[j])
    } by {
        assert(parts[from(j)].wires@.len() > 0);
    }
    assert forall|j: int, w: u32|
        0 <= j < other.len() && #[trigger] other[j].wires@.contains(w) implies topology.net_of(w)
        == net by {
        assert(parts[from(j)].wires@.contains(w));
    }
    assert forall|w: u32| #[trigger] topology.net_of(w) == net implies exists|k: int|
        0 <= k < other.len() && #[trigger] other[k].wires@.contains(w) by {
        let i = choose|i: int| 0 <= i < parts.len() && #[trigger] parts[i].wires@.contains(w);
        assert(other[back(i)].wires@.contains(w));
    }
    assert(parts_apart(other)) by {
        assert forall|j: int, l: int, w: u32|
            0 <= j < other.len() && 0 <= l < other.len() && #[trigger] other[j].wires@.contains(w)
                && #[trigger] other[l].wires@.contains(w) implies j == l by {
            assert(parts[from(j)].wires@.contains(w) && parts[from(l)].wires@.contains(w));
            assert(back(from(j)) == j && back(from(l)) == l);
        }
    }
    assert forall|j: int, a: u32, b: u32|
        #![trigger other[j].wires@.contains(a), network.linked(wire_word(a), wire_word(b))]
        0 <= j < other.len() && other[j].wires@.contains(a) && network.linked(
            wire_word(a),
            wire_word(b),
        ) implies other[j].wires@.contains(b) by {
        assert(parts[from(j)].wires@.contains(a));
    }
    assert forall|j: int, a: u32, b: u32|
        0 <= j < other.len() && #[trigger] other[j].wires@.contains(a)
            && #[trigger] other[j].wires@.contains(b) implies connected(
        wire_edge(network),
        a,
        b,
    ) by {
        assert(parts[from(j)].wires@.contains(a) && parts[from(j)].wires@.contains(b));
    }
}

/// Once a net has been replaced by its parts, at most its island is left to be repaired.
#[verifier::spinoff_prover]
#[verifier::rlimit(60)]
proof fn lemma_net_replaced(
    before: DerivedTopology,
    after: DerivedTopology,
    network: Network,
    definitions: DefinitionRegistry,
    net: u32,
    parts: Seq<Net>,
)
    requires
        network_ok(network, definitions),
        before.net_breaking(network, definitions, net),
        is_split(before, network, definitions, net, parts),
        before.net_replaced(after, net, parts),
        before.nets.spec_slot_count() + parts.len() - 1 <= MAX_PACKED_ID,
    ensures
        after.consistent_except(network, definitions, before.broken_island(net)),
{
    broadcast use {DenseIdStore::lemma_live, group_words};

    let base = before.nets.spec_slot_count();
    let broken = before.broken_island(net);
    let label = before.net_label(net);
    let id = |k: int|
        if k == 0 {
            net as int
        } else {
            base + k
        };
    assert(before.nets@.contains_key(net));
    assert forall|w: u32, k: int|
        0 <= k < parts.len() && #[trigger] parts[k].wires@.contains(w) implies after.net_of(w)
        == id(k) && before.net_of(w) == net by {
        if k == 0 {
            assert forall|l: int| 1 <= l < parts.len() implies !#[trigger] parts[l].wires@.contains(
                w,
            ) by {
                if parts[l].wires@.contains(w) {
                    assert(parts[0].wires@.contains(w));
                }
            }
        }
    }
    assert forall|w: u32| #[trigger] before.net_of(w) != net implies after.net_of(w)
        == before.net_of(w) by {
        assert forall|l: int| 1 <= l < parts.len() implies !#[trigger] parts[l].wires@.contains(
            w,
        ) by {}
    }
    assert forall|n: u32| #[trigger] after.nets@.contains_key(n) implies {
        ||| n != net && before.nets@.contains_key(n) && after.nets@[n] == before.nets@[n]
            && after.net_label(n) == before.net_label(n)
        ||| exists|k: int|
            0 <= k < parts.len() && n == #[trigger] id(k) && after.nets@[n] == parts[k]
                && after.net_label(n) == label
    } by {
        if n == net {
            assert(n == id(0));
        } else if !before.nets@.contains_key(n) {
            assert(n == id(n - base));
        }
    }
    assert(after.structure_ok(network, definitions));
    assert(after.wires_ok(network)) by {
        assert forall|w: u32| #[trigger] network.wire_live(w) implies after.nets@.contains_key(
            after.net_of(w),
        ) && after.nets@[after.net_of(w)].wires@.contains(w) by {
            if before.net_of(w) == net {
                let k = choose|k: int|
                    0 <= k < parts.len() && #[trigger] parts[k].wires@.contains(w);
                assert(after.net_of(w) == id(k));
            } else {
                assert(before.nets@.contains_key(before.net_of(w)));
            }
        }
        assert forall|w: u32| !network.wire_live(w) implies #[trigger] after.net_of(w) == 0 by {
            assert(before.net_of(w) == 0);
        }
        assert forall|n: u32| #[trigger] after.nets@.contains_key(n) implies {
            &&& after.nets@[n].wires@.len() > 0
            &&& after.nets@[n].wires@.no_duplicates()
            &&& forall|w: u32| #[trigger]
                after.nets@[n].wires@.contains(w) ==> network.wire_live(w) && after.net_of(w) == n
        } by {
            if n != net && before.nets@.contains_key(n) {
                assert forall|w: u32| #[trigger] after.nets@[n].wires@.contains(w) implies
                    network.wire_live(w) && after.net_of(w) == n by {
                    assert(before.nets@[n].wires@.contains(w));
                    assert(before.net_of(w) == n);
                }
            } else {
                let k = choose|k: int|
                    0 <= k < parts.len() && n == #[trigger] id(k) && after.nets@[n] == parts[k];
                assert(parts[k].wires@.len() > 0);
                assert forall|w: u32| #[trigger] after.nets@[n].wires@.contains(w) implies
                    network.wire_live(w) && after.net_of(w) == n by {
                    assert(parts[k].wires@.contains(w));
                }
            }
        }
    }
    assert forall|x: u64, n: u32| n != net && before.nets@.contains_key(n) implies
        before.attached(network, x, n) == #[trigger] after.attached(network, x, n) by {
        if before.attached(network, x, n) {
            let y = choose|y: u64| #[trigger]
                network.linked(x, y) && !is_terminal_word(y) && before.net_of(word_id(y)) == n;
            assert(after.net_of(word_id(y)) == n);
        }
        if after.attached(network, x, n) {
            let y = choose|y: u64| #[trigger]
                network.linked(x, y) && !is_terminal_word(y) && after.net_of(word_id(y)) == n;
            if before.net_of(word_id(y)) == net {
                let k = choose|k: int|
                    0 <= k < parts.len() && #[trigger] parts[k].wires@.contains(word_id(y));
                assert(after.net_of(word_id(y)) == id(k));
            }
            assert(before.net_of(word_id(y)) == n);
        }
    }
    assert forall|x: u64, k: int| 0 <= k < parts.len() implies #[trigger] attached_to(
        network,
        parts[k].wires@,
        x,
    ) == after.attached(network, x, id(k) as u32) by {
        let n = id(k) as u32;
        assert(n == id(k));
        if attached_to(network, parts[k].wires@, x) {
            let a = choose|a: u32| #[trigger]
                parts[k].wires@.contains(a) && network.linked(wire_word(a), x);
            assert(network.linked(x, wire_word(a)));
            assert(after.net_of(word_id(wire_word(a))) == n);
        }
        if after.attached(network, x, n) {
            let y = choose|y: u64| #[trigger]
                network.linked(x, y) && !is_terminal_word(y) && after.net_of(word_id(y)) == n;
            let a = word_id(y);
            assert(network.linked(y, x));
            lemma_linked_live(network, definitions, y, x);
            assert(y == wire_word(a));
            if before.net_of(a) != net {
                assert(after.net_of(a) == before.net_of(a));
                assert(before.nets@.contains_key(before.net_of(a)));
            }
            let l = choose|l: int| 0 <= l < parts.len() && #[trigger] parts[l].wires@.contains(a);
            assert(after.net_of(a) == id(l));
            assert(l == k);
        }
    }
    assert(after.nets_list(network, definitions)) by {
        assert forall|n: u32| #[trigger] after.nets@.contains_key(n) implies after.net_lists(
            network,
            definitions,
            n,
        ) by {
            if n != net && before.nets@.contains_key(n) {
                assert(before.net_lists(network, definitions, n));
                assert forall|x: u64| #[trigger] after.nets@[n].terminals@.contains(x)
                    <==> after.attached(network, x, n) by {
                    assert(before.nets@[n].terminals@.contains(x) <==> before.attached(
                        network,
                        x,
                        n,
                    ));
                }
            } else {
                let k = choose|k: int|
                    0 <= k < parts.len() && n == #[trigger] id(k) && after.nets@[n] == parts[k];
                assert(parts[k].wires@.len() > 0);
                assert(part_lists(network, definitions, parts[k]));
                assert forall|x: u64| #[trigger] after.nets@[n].terminals@.contains(x)
                    <==> after.attached(network, x, n) by {
                    assert(parts[k].terminals@.contains(x) <==> attached_to(
                        network,
                        parts[k].wires@,
                        x,
                    ));
                }
            }
        }
    }
    assert(after.net_labels_ok(broken)) by {
        assert forall|n: u32| #[trigger] after.nets@.contains_key(n) implies {
            &&& after.net_label(n) != 0 ==> after.islands@.contains_key(after.net_label(n))
            &&& after.net_label(n) == 0 ==> after.nets@[n].terminals@.len() == 0
            &&& after.net_label(n) != 0 && !broken.contains(after.net_label(n))
                ==> after.nets@[n].terminals@.len() > 0
        } by {
            if n == net || !before.nets@.contains_key(n) {
                if label == 0 && after.nets@[n].terminals@.len() > 0 {
                    let x = after.nets@[n].terminals@[0];
                    assert(after.net_lists(network, definitions, n));
                    assert(after.nets@[n].terminals@.contains(x));
                    assert(after.attached(network, x, n));
                    let y = choose|y: u64| #[trigger]
                        network.linked(x, y) && !is_terminal_word(y) && after.net_of(word_id(y))
                            == n;
                    assert(network.linked(y, x));
                    lemma_linked_live(network, definitions, y, x);
                    if before.net_of(word_id(y)) != net {
                        assert(before.nets@.contains_key(before.net_of(word_id(y))));
                    }
                    assert(before.attached(network, x, net));
                }
            }
        }
        assert forall|n: u32| !after.nets@.contains_key(n) implies #[trigger] after.net_label(n)
            == 0 by {
            if n <= base {
                assert(before.net_label(n) == 0);
            }
        }
    }
    assert forall|c: u64| #[trigger]
        after.component_label(network, c) == before.component_label(network, c) by {}
    assert(after.components_ok(network, definitions, broken)) by {
        assert forall|i: u32| #[trigger] after.islands@.contains_key(i) implies {
            &&& !broken.contains(i) ==> after.islands@[i].components@.len() > 0
            &&& after.islands@[i].components@.no_duplicates()
            &&& forall|c: u64| #[trigger]
                after.islands@[i].components@.contains(c) ==> is_component(network, definitions, c)
                    && after.component_label(network, c) == i
        } by {
            assert(before.islands@.contains_key(i));
        }
    }
    assert(after.closed_ok(network, definitions)) by {
        assert forall|w: u32| #[trigger] network.wire_live(w) implies after.net_label(
            after.net_of(w),
        ) == before.net_label(before.net_of(w)) by {
            if before.net_of(w) == net {
                let k = choose|k: int|
                    0 <= k < parts.len() && #[trigger] parts[k].wires@.contains(w);
                assert(after.net_of(w) == id(k));
            } else {
                assert(before.nets@.contains_key(before.net_of(w)));
            }
        }
        assert forall|x: u64, y: u64| #[trigger] network.linked(x, y) implies {
            &&& after.label(network, definitions, x) == after.label(network, definitions, y)
            &&& !is_terminal_word(x) && !is_terminal_word(y) ==> after.net_of(word_id(x))
                == after.net_of(word_id(y))
        } by {
            assert(network.linked(y, x));
            lemma_linked_live(network, definitions, x, y);
            lemma_linked_live(network, definitions, y, x);
            assert(after.label(network, definitions, x) == before.label(network, definitions, x));
            assert(after.label(network, definitions, y) == before.label(network, definitions, y));
            if !is_terminal_word(x) && !is_terminal_word(y) {
                let a = word_id(x);
                let b = word_id(y);
                assert(before.net_of(a) == before.net_of(b));
                if before.net_of(a) == net {
                    let k = choose|k: int|
                        0 <= k < parts.len() && #[trigger] parts[k].wires@.contains(a);
                    assert(x == wire_word(a) && y == wire_word(b));
                    assert(parts[k].wires@.contains(b));
                }
            }
        }
    }
    assert(after.nets_connected(network)) by {
        assert forall|a: u32, b: u32|
            #![trigger after.net_of(a), after.net_of(b)]
            network.wire_live(a) && network.wire_live(b) && after.net_of(a) == after.net_of(
                b,
            ) implies connected(wire_edge(network), a, b) by {
            if before.net_of(a) == net {
                let k = choose|k: int|
                    0 <= k < parts.len() && #[trigger] parts[k].wires@.contains(a);
                assert(after.net_of(a) == id(k));
                if before.net_of(b) != net {
                    assert(before.nets@.contains_key(before.net_of(b)));
                }
                let l = choose|l: int|
                    0 <= l < parts.len() && #[trigger] parts[l].wires@.contains(b);
                assert(after.net_of(b) == id(l));
                assert(k == l);
            } else {
                assert(before.nets@.contains_key(before.net_of(a)));
                if before.net_of(b) == net {
                    let l = choose|l: int|
                        0 <= l < parts.len() && #[trigger] parts[l].wires@.contains(b);
                    assert(after.net_of(b) == id(l));
                }
                assert(before.net_of(a) == before.net_of(b));
            }
        }
    }
    assert(after.islands_connected(network, definitions, broken)) by {
        assert forall|a: u64, b: u64|
            #![trigger after.component_label(network, a), after.component_label(network, b)]
            is_component(network, definitions, a) && is_component(network, definitions, b)
                && after.component_label(network, a) == after.component_label(network, b)
                && !broken.contains(after.component_label(network, a)) implies connected(
            vertex_edge(network, definitions),
            Vertex::Component(a),
            Vertex::Component(b),
        ) by {
            assert(before.component_label(network, a) == before.component_label(network, b));
        }
    }
}

/// A net without wires can go.
proof fn lemma_net_gone(
    before: DerivedTopology,
    after: DerivedTopology,
    network: Network,
    definitions: DefinitionRegistry,
    net: u32,
)
    requires
        network_ok(network, definitions),
        before.net_breaking(network, definitions, net),
        forall|w: u32| #[trigger] before.net_of(w) != net,
        after.nets.wf(),
        after.nets.spec_slot_count() == before.nets.spec_slot_count(),
        after.nets@ == before.nets@.remove(net),
        after.wire_net_map == before.wire_net_map,
        after.net_island_map@ == before.net_island_map@.update(net - 1, 0),
        after.islands == before.islands,
        after.device_chunks == before.device_chunks,
        after.invalidation == before.invalidation,
    ensures
        after.consistent_except(network, definitions, before.broken_island(net)),
{
    broadcast use DenseIdStore::lemma_live;

    let broken = before.broken_island(net);
    assert(before.nets@.contains_key(net));
    assert forall|w: u32| #[trigger] after.net_of(w) == before.net_of(w) by {}
    assert forall|n: u32| #[trigger] after.net_label(n) == if n == net {
        0
    } else {
        before.net_label(n)
    } by {}
    assert forall|c: u64| #[trigger]
        after.component_label(network, c) == before.component_label(network, c) by {}
    assert forall|n: u32| #[trigger] after.nets@.contains_key(n) implies n != net
        && before.nets@.contains_key(n) && after.nets@[n] == before.nets@[n] by {}
    assert(after.structure_ok(network, definitions));
    assert(after.wires_ok(network)) by {
        assert forall|w: u32| #[trigger] network.wire_live(w) implies after.nets@.contains_key(
            after.net_of(w),
        ) && after.nets@[after.net_of(w)].wires@.contains(w) by {
            assert(before.nets@.contains_key(before.net_of(w)));
            assert(after.nets@.contains_key(after.net_of(w)));
        }
        assert forall|w: u32| !network.wire_live(w) implies #[trigger] after.net_of(w) == 0 by {
            assert(before.net_of(w) == 0);
        }
        assert forall|n: u32| #[trigger] after.nets@.contains_key(n) implies {
            &&& after.nets@[n].wires@.len() > 0
            &&& after.nets@[n].wires@.no_duplicates()
            &&& forall|w: u32| #[trigger]
                after.nets@[n].wires@.contains(w) ==> network.wire_live(w) && after.net_of(w) == n
        } by {
            assert forall|w: u32| #[trigger] after.nets@[n].wires@.contains(w) implies
                network.wire_live(w) && after.net_of(w) == n by {
                assert(before.nets@[n].wires@.contains(w));
            }
        }
    }
    assert(after.nets_list(network, definitions)) by {
        assert forall|n: u32| #[trigger] after.nets@.contains_key(n) implies after.net_lists(
            network,
            definitions,
            n,
        ) by {
            assert(before.net_lists(network, definitions, n));
            assert forall|x: u64| #[trigger] after.nets@[n].terminals@.contains(x)
                <==> after.attached(network, x, n) by {
                assert(before.nets@[n].terminals@.contains(x) <==> before.attached(network, x, n));
                if before.attached(network, x, n) {
                    let y = choose|y: u64| #[trigger]
                        network.linked(x, y) && !is_terminal_word(y) && before.net_of(word_id(y))
                            == n;
                    assert(after.net_of(word_id(y)) == n);
                }
                if after.attached(network, x, n) {
                    let y = choose|y: u64| #[trigger]
                        network.linked(x, y) && !is_terminal_word(y) && after.net_of(word_id(y))
                            == n;
                    assert(before.net_of(word_id(y)) == n);
                }
            }
        }
    }
    assert(after.net_labels_ok(broken)) by {
        assert forall|n: u32| !after.nets@.contains_key(n) implies #[trigger] after.net_label(n)
            == 0 by {
            if n != net {
                assert(before.net_label(n) == 0);
            }
        }
    }
    assert(after.components_ok(network, definitions, broken));
    assert(after.closed_ok(network, definitions)) by {
        assert forall|x: u64, y: u64| #[trigger] network.linked(x, y) implies {
            &&& after.label(network, definitions, x) == after.label(network, definitions, y)
            &&& !is_terminal_word(x) && !is_terminal_word(y) ==> after.net_of(word_id(x))
                == after.net_of(word_id(y))
        } by {
            assert(before.net_of(word_id(x)) != net && before.net_of(word_id(y)) != net);
            assert(after.label(network, definitions, x) == before.label(network, definitions, x));
            assert(after.label(network, definitions, y) == before.label(network, definitions, y));
        }
    }
    assert(after.nets_connected(network)) by {
        assert forall|a: u32, b: u32|
            #![trigger after.net_of(a), after.net_of(b)]
            network.wire_live(a) && network.wire_live(b) && after.net_of(a) == after.net_of(
                b,
            ) implies connected(wire_edge(network), a, b) by {
            assert(before.net_of(a) == before.net_of(b));
        }
    }
    assert(after.islands_connected(network, definitions, broken)) by {
        assert forall|a: u64, b: u64|
            #![trigger after.component_label(network, a), after.component_label(network, b)]
            is_component(network, definitions, a) && is_component(network, definitions, b)
                && after.component_label(network, a) == after.component_label(network, b)
                && !broken.contains(after.component_label(network, a)) implies connected(
            vertex_edge(network, definitions),
            Vertex::Component(a),
            Vertex::Component(b),
        ) by {
            assert(before.component_label(network, a) == before.component_label(network, b));
        }
    }
}

/// Parts that replace a net are numbered in the order in which they were found.
proof fn lemma_parts_ordered(
    before: DerivedTopology,
    after: DerivedTopology,
    net: u32,
    all: Seq<Net>,
    keep: int,
)
    requires
        0 <= keep < all.len(),
        0 <= before.nets.spec_slot_count(),
        before.nets.spec_slot_count() + all.len() - 1 <= u32::MAX,
        before.net_replaced(after, net, seq![all[keep]] + swap_removed(all, keep)),
        forall|k: int|
            0 <= k < all.len() ==> (#[trigger] all[k]).wires@.len() <= all[keep].wires@.len(),
        forall|k: int|
            keep < k < all.len() ==> (#[trigger] all[k]).wires@.len() < all[keep].wires@.len(),
        parts_in_order(
            all,
            before.nets@[net].wires@,
            before.nets@[net].wires@.len() as int,
        ),
    ensures
        exists|parts: Seq<u32>, kept: int| #[trigger]
            parts_numbered(parts, kept, net, before.nets.spec_slot_count()) && parts.len()
                == all.len() && before.net_parts_ordered(after, net, parts, kept),
{
    let base = before.nets.spec_slot_count();
    let rest = swap_removed(all, keep);
    let ordered = seq![all[keep]] + rest;
    let ids = part_ids(all.len() as int, keep, net, base);
    lemma_part_ids(all.len() as int, keep, net, base);
    assert forall|k: int| 0 <= k < ids.len() implies after.nets@[#[trigger] ids[k]] == all[k] by {
        if k != keep {
            let r = if k == all.len() - 1 {
                keep
            } else {
                k
            };
            assert(rest[r] == all[k]);
            assert(ordered[r + 1] == rest[r]);
            assert(ids[k] == base + 1 + r);
            assert(after.nets@[ids[k]] == ordered[ids[k] - base]);
        }
    }
    assert(after.nets@[ids[keep]] == all[keep]);
    assert forall|k: int, l: int| 0 <= k < l < ids.len() implies found_before(
        before.nets@[net].wires@,
        after.nets@[#[trigger] ids[k]].wires@,
        after.nets@[#[trigger] ids[l]].wires@,
    ) by {
        assert(found_before(before.nets@[net].wires@, all[k].wires@, all[l].wires@));
    }
    assert(before.net_parts_ordered(after, net, ids, keep));
}

impl DerivedTopology {
    /// Whether the parts of a net come in the order in which their first wires came on its list, and
    /// the one at a place is the last of those with the most wires.
    pub(crate) open spec fn net_parts_ordered(
        self,
        after: Self,
        net: u32,
        parts: Seq<u32>,
        keep: int,
    ) -> bool {
        &&& forall|k: int|
            0 <= k < parts.len() ==> after.nets@[#[trigger] parts[k]].wires@.len()
                <= after.nets@[net].wires@.len()
        &&& forall|k: int|
            keep < k < parts.len() ==> after.nets@[#[trigger] parts[k]].wires@.len()
                < after.nets@[net].wires@.len()
        &&& forall|k: int, l: int|
            0 <= k < l < parts.len() ==> found_before(
                self.nets@[net].wires@,
                after.nets@[#[trigger] parts[k]].wires@,
                after.nets@[#[trigger] parts[l]].wires@,
            )
    }

    /// What the repair of a net leaves: the other nets as they were, and the listed ones in place
    /// of the net, the largest under its identifier.
    pub(crate) open spec fn net_repaired(self, after: Self, net: u32, listed: Seq<u32>) -> bool {
        &&& listed.len() > 0 ==> exists|parts: Seq<u32>, keep: int| #[trigger]
            parts_numbered(parts, keep, net, self.nets.spec_slot_count()) && parts.len()
                == listed.len() && self.net_parts_ordered(after, net, parts, keep)
        &&& after.islands == self.islands
        &&& after.device_chunks == self.device_chunks
        &&& after.invalidation == self.invalidation
        &&& after.nets.spec_slot_count() == self.nets.spec_slot_count() + if listed.len() > 0 {
            listed.len() - 1
        } else {
            0
        }
        &&& listed.no_duplicates()
        &&& listed.len() > 0 ==> listed[0] == net
        &&& forall|n: u32| #[trigger]
            listed.contains(n) <==> listed.len() > 0 && (n == net || self.nets.spec_slot_count() < n
                <= after.nets.spec_slot_count())
        &&& listed.len() > 0 <==> exists|w: u32| #[trigger] self.net_of(w) == net
        &&& forall|n: u32| #[trigger]
            after.nets@.contains_key(n) <==> (self.nets@.contains_key(n) && n != net
                || listed.contains(n))
        &&& forall|n: u32| #[trigger]
            listed.contains(n) ==> {
                &&& after.net_label(n) == self.net_label(net)
                &&& after.nets@[n].wires@.len() <= after.nets@[net].wires@.len()
            }
        &&& forall|n: u32|
            #![trigger after.nets@[n]]
            #![trigger after.net_label(n)]
            self.nets@.contains_key(n) && n != net ==> after.nets@[n] == self.nets@[n]
                && after.net_label(n) == self.net_label(n)
        &&& forall|w: u32|
            self.net_of(w) != net ==> #[trigger] after.net_of(w) == self.net_of(w)
    }

    /// Splits a net that may have fallen apart. The part with the most wires keeps the identifier,
    /// the others get new ones; a net without wires is removed. Returns the resulting nets.
    #[verifier::spinoff_prover]
    #[verifier::rlimit(40)]
    pub(crate) fn repair_net(
        &mut self,
        definitions: &DefinitionRegistry,
        network: &Network,
        scratch: &mut TraversalScratch,
        net_id: u32,
    ) -> (result: IdList)
        requires
            network_ok(*network, *definitions),
            old(self).net_breaking(*network, *definitions, net_id),
            old(self).nets.spec_slot_count() + old(self).nets@[net_id].wires@.len()
                <= MAX_PACKED_ID,
            old(scratch).wf(),
        ensures
            final(scratch).wf(),
            final(self).consistent_except(
                *network,
                *definitions,
                old(self).broken_island(net_id),
            ),
            old(self).net_repaired(*final(self), net_id, result@),
            old(self).net_label(net_id) != 0 ==> covers_bare_nets(
                *final(self),
                old(self).net_label(net_id),
                result@,
            ),
    {
        broadcast use DenseIdStore::lemma_live;

        assert(self.nets@.contains_key(net_id));
        let old_island: u32 = self.net_island_map[(net_id - 1) as usize];
        let mut parts = wire_components(self, definitions, network, net_id, scratch);
        let mut resulting = IdList::new();
        let ghost all = parts@;
        proof {
            lemma_part_count(*self, *network, *definitions, net_id, all);
        }
        if parts.len() == 0 {
            self.nets.remove(net_id);
            self.net_island_map.set((net_id - 1) as usize, 0);
            proof {
                assert forall|w: u32| #[trigger] old(self).net_of(w) != net_id by {
                    if old(self).net_of(w) == net_id {
                        let k = choose|k: int|
                            0 <= k < all.len() && #[trigger] all[k].wires@.contains(w);
                    }
                }
                lemma_net_gone(*old(self), *self, *network, *definitions, net_id);
                assert forall|n: u32| #[trigger] self.net_label(n) == if n == net_id {
                    0
                } else {
                    old(self).net_label(n)
                } by {}
                assert(resulting@ =~= Seq::empty());
            }
            return resulting;
        }
        let keep: usize = largest_part(&parts);
        let kept = parts.swap_remove(keep);
        let ghost rest = parts@;
        let ghost ordered = seq![kept] + rest;
        proof {
            let last = all.len() - 1;
            lemma_parts_permuted(
                *self,
                *network,
                *definitions,
                net_id,
                all,
                ordered,
                |j: int|
                    if j == 0 {
                        keep as int
                    } else if j - 1 == keep {
                        last
                    } else {
                        j - 1
                    },
                |i: int|
                    if i == keep {
                        0
                    } else if i == last {
                        keep + 1
                    } else {
                        i + 1
                    },
            );
            assert forall|k: int| 0 <= k < ordered.len() implies (#[trigger] ordered[k]).wires@.len()
                <= ordered[0].wires@.len() by {
                if k > 0 {
                    let from = if k - 1 == keep {
                        last
                    } else {
                        k - 1
                    };
                    assert(ordered[k] == all[from]);
                }
            }
        }
        *self.nets.get_mut(net_id) = kept;
        resulting.push(net_id);
        let ghost base = old(self).nets.spec_slot_count();
        let ghost mut moved: int = 0;
        proof {
            assert(rest.skip(0) =~= rest);
            let first = ordered.take(1);
            assert(first =~= seq![ordered[0]]);
            assert(old(self).net_replaced(*self, net_id, first));
        }
        while parts.len() > 0
            invariant
                0 <= moved <= rest.len(),
                parts@ == rest.skip(moved),
                ordered.len() == rest.len() + 1,
                ordered =~= seq![ordered[0]] + rest,
                is_split(*old(self), *network, *definitions, net_id, ordered),
                base == old(self).nets.spec_slot_count(),
                base + rest.len() <= MAX_PACKED_ID,
                old(self).nets@.contains_key(net_id),
                old(self).wire_net_map@.len() == network.wire_slots(),
                old(self).net_label(net_id) == old_island,
                old(self).net_replaced(*self, net_id, ordered.take(moved + 1)),
                resulting@.len() == moved + 1,
                resulting@[0] == net_id,
                forall|k: int| 1 <= k < resulting@.len() ==> #[trigger] resulting@[k] == base + k,
            decreases parts@.len(),
        {
            broadcast use DenseIdStore::lemma_live;

            let ghost before = *self;
            let part = parts.remove(0);
            let ghost moving = part;
            proof {
                assert(moving == ordered[moved + 1]);
                assert forall|w: u32| #[trigger] moving.wires@.contains(w) implies 1 <= w
                    <= self.wire_net_map@.len() && old(self).net_of(w) == net_id by {
                    assert(ordered[moved + 1].wires@.contains(w));
                }
            }
            let new_id: u32 = self.insert_net(part, old_island);
            resulting.push(new_id);
            proof {
                moved = moved + 1;
                assert(rest.skip(moved - 1).remove(0) =~= rest.skip(moved));
                let done = ordered.take(moved);
                let more = ordered.take(moved + 1);
                assert(more =~= done.push(moving));
                assert forall|n: u32| #[trigger] self.net_label(n) == if n == new_id {
                    old_island
                } else {
                    before.net_label(n)
                } by {}
                assert forall|k: int, w: u32|
                    1 <= k < more.len() && #[trigger] more[k].wires@.contains(w) implies
                    self.net_of(w) == base + k by {
                    if k < done.len() {
                        assert(done[k].wires@.contains(w));
                        assert(ordered[k].wires@.contains(w));
                        assert(!ordered[moved].wires@.contains(w));
                    }
                }
                assert forall|w: u32|
                    (forall|k: int| 1 <= k < more.len() ==> !#[trigger] more[k].wires@.contains(w))
                    implies #[trigger] self.net_of(w) == old(self).net_of(w) by {
                    assert(!more[more.len() - 1].wires@.contains(w));
                    assert forall|k: int| 1 <= k < done.len() implies !#[trigger] done[k].wires@.contains(
                        w,
                    ) by {
                        assert(!more[k].wires@.contains(w));
                    }
                    assert(before.net_of(w) == old(self).net_of(w));
                }
            }
        }
        proof {
            assert(ordered.take(moved + 1) =~= ordered);
            lemma_parts_ordered(*old(self), *self, net_id, all, keep as int);
            lemma_net_replaced(*old(self), *self, *network, *definitions, net_id, ordered);
            assert forall|n: u32| #[trigger] resulting@.contains(n) <==> (n == net_id || base < n
                <= base + rest.len()) by {
                if base < n <= base + rest.len() {
                    assert(resulting@[n - base] == n);
                }
                if n == net_id {
                    assert(resulting@[0] == n);
                }
            }
            assert(exists|w: u32| #[trigger] old(self).net_of(w) == net_id) by {
                let w = ordered[0].wires@[0];
                assert(ordered[0].wires@.contains(w));
                assert(old(self).net_of(w) == net_id);
            }
            assert forall|w: u32| old(self).net_of(w) != net_id implies #[trigger] self.net_of(w)
                == old(self).net_of(w) by {
                assert forall|k: int|
                    1 <= k < ordered.len() implies !#[trigger] ordered[k].wires@.contains(w) by {}
            }
            assert forall|n: u32| #[trigger] resulting@.contains(n) implies {
                &&& self.net_label(n) == old(self).net_label(net_id)
                &&& self.nets@[n].wires@.len() <= self.nets@[net_id].wires@.len()
            } by {
                if n != net_id {
                    assert(self.nets@[n] == ordered[n - base]);
                }
            }
        }
        resulting
    }
}

} // verus!
