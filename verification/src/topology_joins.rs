//! Joining nets and islands.

use crate::connection::{
    component_device, component_partition, group_words, is_terminal_word, lemma_component_word,
    terminal_word, word_id, word_terminal, DeviceComponent,
};
use crate::dense_store::DenseIdStore;
use crate::ids::IslandId;
use crate::island_traversal::lemma_linked_live;
use crate::network::Network;
use crate::registry::DefinitionRegistry;
use crate::small_list::{dropped, IdList, WordList};
use crate::topology::{component_of, is_component, network_ok, terminal_partition, DerivedTopology};
use crate::traversal::lemma_push_contains;
use vstd::prelude::*;

verus! {

/// Appends the items of one list to another.
pub(crate) fn append_words(list: &mut WordList, more: &WordList)
    ensures
        final(list)@ == old(list)@ + more@,
{
    let mut index: usize = 0;
    while index < more.len()
        invariant
            index <= more@.len(),
            list@ == old(list)@ + more@.take(index as int),
        decreases more@.len() - index,
    {
        list.push(more.get(index));
        index = index + 1;
        assert(list@ =~= old(list)@ + more@.take(index as int));
    }
    assert(more@.take(more@.len() as int) =~= more@);
}

/// Appends the items of one list to another.
pub(crate) fn append_ids(list: &mut IdList, more: &IdList)
    ensures
        final(list)@ == old(list)@ + more@,
{
    let mut index: usize = 0;
    while index < more.len()
        invariant
            index <= more@.len(),
            list@ == old(list)@ + more@.take(index as int),
        decreases more@.len() - index,
    {
        list.push(more.get(index));
        index = index + 1;
        assert(list@ =~= old(list)@ + more@.take(index as int));
    }
    assert(more@.take(more@.len() as int) =~= more@);
}

/// Two lists hold what either holds.
pub(crate) proof fn lemma_concat_contains<T>(a: Seq<T>, b: Seq<T>)
    ensures
        forall|x: T| #[trigger] (a + b).contains(x) <==> (a.contains(x) || b.contains(x)),
{
    assert forall|x: T| #[trigger] (a + b).contains(x) <==> (a.contains(x) || b.contains(x)) by {
        if a.contains(x) {
            let i = choose|i: int| 0 <= i < a.len() && a[i] == x;
            assert((a + b)[i] == x);
        }
        if b.contains(x) {
            let i = choose|i: int| 0 <= i < b.len() && b[i] == x;
            assert((a + b)[a.len() + i] == x);
        }
    }
}

/// Which wires are in which nets does not depend on islands.
proof fn lemma_wires_kept(before: DerivedTopology, after: DerivedTopology, network: Network)
    requires
        before.wires_ok(network),
        after.nets == before.nets,
        after.wire_net_map == before.wire_net_map,
    ensures
        after.wires_ok(network),
{
    assert forall|w: u32| #[trigger] after.net_of(w) == before.net_of(w) by {}
    assert forall|n: u32| #[trigger] after.nets@.contains_key(n) implies {
        &&& after.nets@[n].wires@.len() > 0
        &&& after.nets@[n].wires@.no_duplicates()
        &&& forall|w: u32| #[trigger]
            after.nets@[n].wires@.contains(w) ==> network.wire_live(w) && after.net_of(w) == n
    } by {
        assert(before.nets@.contains_key(n));
        assert forall|w: u32| #[trigger] after.nets@[n].wires@.contains(w) implies
            network.wire_live(w) && after.net_of(w) == n by {
            assert(before.nets@[n].wires@.contains(w));
        }
    }
}

/// What an identifier becomes once one island has taken in another.
pub(crate) open spec fn moved(label: u32, src: u32, dst: u32) -> u32 {
    if label == src {
        dst
    } else {
        label
    }
}

impl DerivedTopology {
    /// Whether each net of an island is connected to a terminal of one of its components.
    pub(crate) open spec fn nets_touched(
        self,
        network: Network,
        definitions: DefinitionRegistry,
        island: u32,
    ) -> bool {
        forall|n: u32| #[trigger] self.net_label(n) == island ==> self.net_touched(
            network,
            definitions,
            island,
            n,
        )
    }

    pub(crate) open spec fn net_touched(
        self,
        network: Network,
        definitions: DefinitionRegistry,
        island: u32,
        net: u32,
    ) -> bool {
        exists|x: u64, y: u64| #[trigger]
            network.linked(x, y) && is_terminal_word(x) && !is_terminal_word(y) && self.net_of(
                word_id(y),
            ) == net && self.component_label(network, component_of(network, definitions, x))
                == island
    }

    /// Whether `after` has one island in place of two: `dst` holds what `src` held.
    pub(crate) open spec fn islands_merged(
        self,
        after: Self,
        network: Network,
        definitions: DefinitionRegistry,
        src: u32,
        dst: u32,
    ) -> bool {
        &&& after.nets == self.nets
        &&& after.wire_net_map == self.wire_net_map
        &&& forall|n: u32| #[trigger]
            after.net_label(n) == moved(self.net_label(n), src, dst)
        &&& forall|c: u64|
            is_component(network, definitions, c) ==> #[trigger] after.component_label(network, c)
                == moved(self.component_label(network, c), src, dst)
        &&& after.islands.spec_slot_count() == self.islands.spec_slot_count()
        &&& after.islands@.dom() == self.islands@.dom().remove(src)
        &&& forall|i: u32|
            i != src && i != dst && self.islands@.contains_key(i) ==> #[trigger] after.islands@[i]
                == self.islands@[i]
        &&& after.islands@[dst].components@ == self.islands@[dst].components@
            + self.islands@[src].components@
        &&& after.islands@[dst].revision == self.islands@[dst].revision + 1
        &&& after.islands.dense_order() == dropped(self.islands.dense_order(), src)
        &&& self.invalidation.marked_more(after.invalidation, set![dst], set![src])
        &&& after.invalidation.marks() == self.invalidation.marks().retired(src).dirtied(dst)
    }

    /// Moves the nets that a component of one island is connected to over to another island.
    fn move_component_nets(
        &mut self,
        definitions: &DefinitionRegistry,
        network: &Network,
        component: u64,
        src: u32,
        dst: u32,
    )
        requires
            network_ok(*network, *definitions),
            old(self).structure_ok(*network, *definitions),
            old(self).wires_ok(*network),
            is_component(*network, *definitions, component),
            src != dst,
        ensures
            final(self).structure_ok(*network, *definitions),
            final(self).wires_ok(*network),
            final(self).nets == old(self).nets,
            final(self).wire_net_map == old(self).wire_net_map,
            final(self).islands == old(self).islands,
            final(self).device_chunks == old(self).device_chunks,
            final(self).invalidation == old(self).invalidation,
            forall|n: u32| #[trigger]
                final(self).net_label(n) == old(self).net_label(n) || (old(self).net_label(n) == src
                    && final(self).net_label(n) == dst),
            forall|x: u64, y: u64| #[trigger]
                network.linked(x, y) && is_terminal_word(x) && !is_terminal_word(y) && component_of(
                    *network,
                    *definitions,
                    x,
                ) == component ==> final(self).net_label(final(self).net_of(word_id(y))) != src,
    {
        broadcast use {group_words, lemma_component_word};

        let unpacked = DeviceComponent::from_word(component);
        let device_id = unpacked.device();
        let number: u32 = device_id.get();
        let ghost d = device_id.value();
        proof {
            network.arena().lemma_fits(*definitions, d);
        }
        let device = network.device(device_id).unwrap();
        let definition = definitions.get(device.definition_id()).unwrap();
        let ghost def = *definition;
        assert(definitions.spec_definitions()[device@.definition.value() - 1].wf());
        let terminals = device.terminals();
        let partitions = definition.terminal_partitions();
        let partition: u32 = unpacked.partition().id() as u32;
        let mut index: usize = 0;
        while index < terminals.len()
            invariant
                network_ok(*network, *definitions),
                self.structure_ok(*network, *definitions),
                self.wires_ok(*network),
                is_component(*network, *definitions, component),
                src != dst,
                d == device_id.value() == component_device(component),
                d != 0,
                network.device_live(d),
                terminals@ == network.device_model(d).terminals,
                partitions@ == def.spec_partitions(),
                def == definitions.definition(network.device_model(d).definition.value()),
                def.wf(),
                terminals@.len() == partitions@.len(),
                partition == component_partition(component),
                index <= terminals@.len(),
                self.nets == old(self).nets,
                self.wire_net_map == old(self).wire_net_map,
                self.islands == old(self).islands,
                self.device_chunks == old(self).device_chunks,
                self.invalidation == old(self).invalidation,
                forall|n: u32| #[trigger]
                    self.net_label(n) == old(self).net_label(n) || (old(self).net_label(n) == src
                        && self.net_label(n) == dst),
                forall|x: u64, y: u64| #[trigger]
                    network.linked(x, y) && is_terminal_word(x) && !is_terminal_word(y)
                        && component_of(*network, *definitions, x) == component && word_terminal(x)
                        < index ==> self.net_label(self.net_of(word_id(y))) != src,
            decreases terminals@.len() - index,
        {
            broadcast use {group_words, lemma_component_word, DenseIdStore::lemma_live};

            let ghost before = *self;
            let ghost this = terminal_word(d, index as u32);
            let matching = partitions.get(index) == partition;
            assert(def.spec_partitions()[index as int] < def.spec_partition_count());
            let ghost mut seen: Option<u32> = None;
            if matching {
                if let Some(connection) = terminals[index] {
                    let ghost word = connection.word();
                    proof {
                        assert(network.arena().device_model(d).terminals[index as int] is Some);
                        assert(index < 0x8000_0000);
                        assert(network.linked(this, word));
                        assert(network.linked(word, this));
                        lemma_linked_live(*network, *definitions, word, this);
                    }
                    if let Some(wire) = connection.as_wire() {
                        assert(network.wire_live(wire.value()));
                        let net_id: u32 = self.wire_net_map[wire.index()];
                        proof {
                            seen = Some(net_id);
                            assert(self.nets@.contains_key(net_id));
                        }
                        if self.net_island_map[(net_id - 1) as usize] == src {
                            self.net_island_map.set((net_id - 1) as usize, dst);
                            assert forall|n: u32| #[trigger] self.net_label(n) == if n == net_id {
                                dst
                            } else {
                                before.net_label(n)
                            } by {}
                        }
                    }
                }
            }
            proof {
                assert forall|w: u32| #[trigger] self.net_of(w) == before.net_of(w) by {}
                assert forall|n: u32| #[trigger] self.net_label(n) == old(self).net_label(n) || (
                old(self).net_label(n) == src && self.net_label(n) == dst) by {
                    assert(before.net_label(n) == old(self).net_label(n) || (old(self).net_label(n)
                        == src && before.net_label(n) == dst));
                }
                lemma_wires_kept(before, *self, *network);
                assert forall|x: u64, y: u64| #[trigger]
                    network.linked(x, y) && is_terminal_word(x) && !is_terminal_word(y)
                        && component_of(*network, *definitions, x) == component && word_terminal(x)
                        < index + 1 implies self.net_label(self.net_of(word_id(y))) != src by {
                    assert(network.linked(y, x));
                    lemma_linked_live(*network, *definitions, y, x);
                    assert(word_id(x) == d);
                    if word_terminal(x) == index {
                        assert(x == this);
                        assert(terminal_partition(*network, *definitions, d, index as int)
                            == component_partition(component));
                        assert(matching);
                        assert(seen == Some(self.net_of(word_id(y))));
                    } else {
                        assert(before.net_label(before.net_of(word_id(y))) != src);
                    }
                }
            }
            index = index + 1;
        }
        proof {
            assert forall|x: u64, y: u64| #[trigger]
                network.linked(x, y) && is_terminal_word(x) && !is_terminal_word(y) && component_of(
                    *network,
                    *definitions,
                    x,
                ) == component implies self.net_label(self.net_of(word_id(y))) != src by {
                lemma_linked_live(*network, *definitions, x, y);
                assert(word_id(x) == d);
            }
        }
    }
}

impl DerivedTopology {
    /// Lets the island with more components take in the other one; the first, where they have as
    /// many.
    #[verifier::spinoff_prover]
    #[verifier::rlimit(40)]
    pub(crate) fn merge_islands(
        &mut self,
        definitions: &DefinitionRegistry,
        network: &Network,
        island_a: u32,
        island_b: u32,
    ) -> (result: u32)
        requires
            network_ok(*network, *definitions),
            old(self).structure_ok(*network, *definitions),
            old(self).wires_ok(*network),
            old(self).components_ok(*network, *definitions, Set::empty()),
            old(self).islands@.contains_key(island_a),
            old(self).islands@.contains_key(island_b),
            island_a != island_b ==> {
                &&& old(self).nets_touched(*network, *definitions, island_a)
                &&& old(self).nets_touched(*network, *definitions, island_b)
                &&& old(self).islands@[island_a].revision < u64::MAX
                &&& old(self).islands@[island_b].revision < u64::MAX
            },
        ensures
            island_a == island_b ==> result == island_a && *final(self) == *old(self),
            island_a != island_b ==> {
                let (src, dst) = if old(self).islands@[island_a].components@.len() >= old(
                    self,
                ).islands@[island_b].components@.len() {
                    (island_b, island_a)
                } else {
                    (island_a, island_b)
                };
                &&& result == dst
                &&& final(self).structure_ok(*network, *definitions)
                &&& final(self).wires_ok(*network)
                &&& final(self).components_ok(*network, *definitions, Set::empty())
                &&& old(self).islands_merged(*final(self), *network, *definitions, src, dst)
            },
    {
        broadcast use DenseIdStore::lemma_live;

        if island_a == island_b {
            return island_a;
        }
        let a_cost: usize = self.islands.get(island_a).unwrap().components.len();
        let b_cost: usize = self.islands.get(island_b).unwrap().components.len();
        let (dst, src): (u32, u32) = if a_cost >= b_cost {
            (island_a, island_b)
        } else {
            (island_b, island_a)
        };
        let ghost t0 = *self;
        let taken_in = self.islands.remove(src).unwrap();
        let ghost list = t0.islands@[src].components@;
        proof {
            assert(self.structure_ok(*network, *definitions));
            lemma_wires_kept(t0, *self, *network);
            assert forall|n: u32| #[trigger] self.net_label(n) == t0.net_label(n) by {}
            assert forall|c: u64| #[trigger]
                self.component_label(*network, c) == t0.component_label(*network, c) by {}
        }
        let mut index: usize = 0;
        while index < taken_in.components.len()
            invariant
                network_ok(*network, *definitions),
                self.structure_ok(*network, *definitions),
                self.wires_ok(*network),
                src != dst,
                dst != 0,
                list == t0.islands@[src].components@,
                t0.components_ok(*network, *definitions, Set::empty()),
                t0.islands@.contains_key(src),
                taken_in.components@ == list,
                index <= list.len(),
                self.nets == t0.nets,
                self.wire_net_map == t0.wire_net_map,
                self.invalidation == t0.invalidation,
                self.islands.wf(),
                self.islands@ == t0.islands@.remove(src),
                self.islands.dense_order() == dropped(t0.islands.dense_order(), src),
                self.islands.spec_slot_count() == t0.islands.spec_slot_count(),
                forall|c: u64|
                    is_component(*network, *definitions, c) ==> #[trigger] self.component_label(
                        *network,
                        c,
                    ) == if list.take(index as int).contains(c) {
                        dst
                    } else {
                        t0.component_label(*network, c)
                    },
                forall|n: u32| #[trigger]
                    self.net_label(n) == t0.net_label(n) || (t0.net_label(n) == src
                        && self.net_label(n) == dst),
                forall|x: u64, y: u64| #[trigger]
                    network.linked(x, y) && is_terminal_word(x) && !is_terminal_word(y)
                        && list.take(index as int).contains(
                        component_of(*network, *definitions, x),
                    ) ==> self.net_label(self.net_of(word_id(y))) != src,
            decreases list.len() - index,
        {
            let component: u64 = taken_in.components.get(index);
            let ghost before = *self;
            let ghost done = list.take(index as int);
            proof {
                assert(list.contains(component));
                assert(list.take(index + 1) =~= done.push(component));
                lemma_push_contains(done, component);
            }
            self.set_component_island(definitions, network, component, dst);
            let ghost placed = *self;
            proof {
                assert forall|w: u32| #[trigger] self.net_of(w) == before.net_of(w) by {}
                lemma_wires_kept(before, *self, *network);
            }
            self.move_component_nets(definitions, network, component, src, dst);
            proof {
                assert forall|c: u64| #[trigger]
                    self.component_label(*network, c) == placed.component_label(*network, c) by {}
                assert forall|n: u32| #[trigger] self.net_label(n) == t0.net_label(n) || (
                t0.net_label(n) == src && self.net_label(n) == dst) by {
                    assert(before.net_label(n) == placed.net_label(n));
                }
                assert forall|x: u64, y: u64| #[trigger]
                    network.linked(x, y) && is_terminal_word(x) && !is_terminal_word(y)
                        && list.take(index + 1).contains(
                        component_of(*network, *definitions, x),
                    ) implies self.net_label(self.net_of(word_id(y))) != src by {
                    let n = self.net_of(word_id(y));
                    assert(before.net_of(word_id(y)) == n);
                    if component_of(*network, *definitions, x) != component {
                        assert(before.net_label(before.net_of(word_id(y))) != src);
                        assert(before.net_label(n) == placed.net_label(n));
                    }
                }
            }
            index = index + 1;
        }
        let ghost relabelled = *self;
        assert(list.take(list.len() as int) =~= list);
        let island = self.islands.get_mut(dst);
        append_words(&mut island.components, &taken_in.components);
        island.revision = island.revision + 1;
        self.invalidation.mark_retired(IslandId::new(src));
        self.invalidation.mark_topology_dirty(IslandId::new(dst));
        proof {
            assert(self.islands@.dom() =~= t0.islands@.dom().remove(src));
            assert forall|n: u32| #[trigger] self.net_label(n) == moved(
                t0.net_label(n),
                src,
                dst,
            ) by {
                assert(self.net_label(n) == relabelled.net_label(n));
                if t0.net_label(n) == src {
                    assert(t0.net_touched(*network, *definitions, src, n));
                    let (x, y) = choose|x: u64, y: u64| #[trigger]
                        network.linked(x, y) && is_terminal_word(x) && !is_terminal_word(y)
                            && t0.net_of(word_id(y)) == n && t0.component_label(
                            *network,
                            component_of(*network, *definitions, x),
                        ) == src;
                    lemma_linked_live(*network, *definitions, x, y);
                    assert(list.contains(component_of(*network, *definitions, x)));
                    assert(relabelled.net_of(word_id(y)) == n);
                }
            }
            assert forall|c: u64| is_component(*network, *definitions, c) implies #[trigger]
                self.component_label(*network, c) == moved(
                t0.component_label(*network, c),
                src,
                dst,
            ) by {
                assert(self.component_label(*network, c) == relabelled.component_label(
                    *network,
                    c,
                ));
                assert(list.contains(c) <==> t0.component_label(*network, c) == src);
            }
            assert(t0.invalidation.marked_more(self.invalidation, set![dst], set![src])) by {
                assert(!t0.invalidation.gone().contains(dst));
            }
            assert(self.structure_ok(*network, *definitions));
            let d_list = t0.islands@[dst].components@;
            lemma_concat_contains(d_list, list);
            assert((d_list + list).no_duplicates()) by {
                assert forall|c: u64| !(d_list.contains(c) && list.contains(c)) by {
                    if d_list.contains(c) && list.contains(c) {
                        assert(t0.component_label(*network, c) == dst);
                        assert(t0.component_label(*network, c) == src);
                    }
                }
                assert forall|i: int, j: int|
                    0 <= i < (d_list + list).len() && 0 <= j < (d_list + list).len() && i
                        != j implies (d_list + list)[i] != (d_list + list)[j] by {
                    let lo = if i < j {
                        i
                    } else {
                        j
                    };
                    let hi = if i < j {
                        j
                    } else {
                        i
                    };
                    if lo < d_list.len() && hi >= d_list.len() {
                        assert(d_list.contains(d_list[lo]));
                        assert(list.contains(list[hi - d_list.len()]));
                        assert(!(d_list.contains(d_list[lo]) && list.contains(d_list[lo])));
                    }
                }
            }
            assert(self.components_ok(*network, *definitions, Set::empty())) by {
                assert forall|c: u64| #[trigger] is_component(*network, *definitions, c) implies {
                    let label = self.component_label(*network, c);
                    self.islands@.contains_key(label) && self.islands@[label].components@.contains(
                        c,
                    )
                } by {
                    let old_label = t0.component_label(*network, c);
                    assert(t0.islands@.contains_key(old_label));
                    assert(self.islands@.dom().contains(moved(old_label, src, dst)));
                }
                assert forall|i: u32| #[trigger] self.islands@.contains_key(i) implies {
                    &&& self.islands@[i].components@.len() > 0
                    &&& self.islands@[i].components@.no_duplicates()
                    &&& forall|c: u64| #[trigger]
                        self.islands@[i].components@.contains(c) ==> is_component(
                            *network,
                            *definitions,
                            c,
                        ) && self.component_label(*network, c) == i
                } by {
                    assert(self.islands@.dom().contains(i));
                    assert(t0.islands@.contains_key(i));
                    assert forall|c: u64| #[trigger] self.islands@[i].components@.contains(
                        c,
                    ) implies is_component(*network, *definitions, c) && self.component_label(
                        *network,
                        c,
                    ) == i by {
                        if i == dst {
                            assert(d_list.contains(c) || list.contains(c));
                        } else {
                            assert(t0.islands@[i].components@.contains(c));
                        }
                        assert(is_component(*network, *definitions, c));
                    }
                }
            }
            lemma_wires_kept(relabelled, *self, *network);
        }
        dst
    }
}

} // verus!
