//! What connecting and cutting does to nets, islands and marks: which of them survive, which are
//! new, and which have to be redone.

use crate::connection::{
    component_device, component_partition, is_terminal_word, terminal_word, word_id,
};
use crate::dense_store::{listed_between, DenseIdStore};
use crate::ids::DeviceId;
use crate::island_repair::ids_between;
use crate::network::Network;
use crate::registry::DefinitionRegistry;
use crate::small_list::{dropped, swap_removed};
use crate::topology::{component_of, is_component, partition_count, DerivedTopology};
use crate::topology_joins::moved;
use crate::topology_rebuild::{comes_before, components_before};
use vstd::prelude::*;

verus! {

/// Whether the items of a list that are on one other list start before those on another.
pub open spec fn found_before<T>(items: Seq<T>, a: Seq<T>, b: Seq<T>) -> bool {
    exists|i: int|
        0 <= i < items.len() && #[trigger] a.contains(items[i]) && forall|j: int|
            0 <= j <= i ==> !#[trigger] b.contains(items[j])
}

/// Whether parts of something are numbered in order: one keeps the identifier, and the last part
/// takes its place among the others, which get the identifiers after those given out so far.
pub open spec fn parts_numbered(parts: Seq<u32>, keep: int, id: u32, slots: int) -> bool {
    &&& 0 <= keep < parts.len()
    &&& parts[keep] == id
    &&& forall|k: int|
        0 <= k < parts.len() - 1 ==> #[trigger] swap_removed(parts, keep)[k] == slots + 1 + k
}

/// The identifiers of parts that are numbered in order.
pub open spec fn part_ids(count: int, keep: int, id: u32, slots: int) -> Seq<u32> {
    Seq::new(
        count as nat,
        |k: int|
            if k == keep {
                id
            } else if k == count - 1 {
                (slots + 1 + keep) as u32
            } else {
                (slots + 1 + k) as u32
            },
    )
}

pub(crate) proof fn lemma_part_ids(count: int, keep: int, id: u32, slots: int)
    requires
        0 <= keep < count,
        0 <= slots,
        slots + count - 1 <= u32::MAX,
    ensures
        parts_numbered(part_ids(count, keep, id, slots), keep, id, slots),
        part_ids(count, keep, id, slots).len() == count,
{
}

/// Whether all items of one list are on another.
pub open spec fn within(items: Seq<u64>, others: Seq<u64>) -> bool {
    forall|item: u64| #[trigger] items.contains(item) ==> others.contains(item)
}

/// The components of a list that do not belong to a device, in order.
pub open spec fn without_device(components: Seq<u64>, device: u32) -> Seq<u64>
    decreases components.len(),
{
    if components.len() == 0 {
        components
    } else {
        let rest = without_device(components.drop_last(), device);
        if component_device(components.last()) == device {
            rest
        } else {
            rest.push(components.last())
        }
    }
}

/// The first place in a list, from one on, that belongs to a device; its end where there is none.
pub open spec fn first_of_device(components: Seq<u64>, device: u32, from: int) -> int
    decreases components.len() - from,
{
    if from >= components.len() {
        components.len() as int
    } else if component_device(components[from]) == device {
        from
    } else {
        first_of_device(components, device, from + 1)
    }
}

/// What is left of a list once the first place that belongs to a device is taken out, and the last
/// one moved there, as often as there is one.
pub open spec fn pruned(components: Seq<u64>, device: u32) -> Seq<u64>
    decreases components.len(),
{
    let first = first_of_device(components, device, 0);
    if 0 <= first < components.len() {
        pruned(swap_removed(components, first), device)
    } else {
        components
    }
}

pub(crate) proof fn lemma_first_of_device(components: Seq<u64>, device: u32, from: int, first: int)
    requires
        0 <= from <= first <= components.len(),
        forall|i: int| from <= i < first ==> component_device(#[trigger] components[i]) != device,
        first < components.len() ==> component_device(components[first]) == device,
    ensures
        first_of_device(components, device, from) == first,
    decreases first - from,
{
    if from < first {
        assert(component_device(components[from]) != device);
        lemma_first_of_device(components, device, from + 1, first);
    }
}

impl DerivedTopology {
    /// Whether nothing has happened to islands and marks.
    pub open spec fn islands_kept(self, after: Self) -> bool {
        &&& forall|i: u32| #[trigger] after.has_island(i) == self.has_island(i)
        &&& forall|i: u32| #[trigger] after.island_at(i) == self.island_at(i)
        &&& after.island_order() == self.island_order()
        &&& after.spec_invalidation() == self.spec_invalidation()
    }

    /// Whether an island has got a new revision and a mark, and the others are as they were.
    pub open spec fn revised(self, after: Self, island: u32) -> bool {
        &&& forall|i: u32| #[trigger] after.has_island(i) == self.has_island(i)
        &&& forall|i: u32|
            self.has_island(i) ==> {
                let new = #[trigger] after.island_at(i);
                &&& new.spec_components() == self.island_at(i).spec_components()
                &&& new.spec_revision() == self.island_at(i).spec_revision() + if i == island {
                    1int
                } else {
                    0
                }
            }
        &&& self.spec_invalidation().marked_more(
            after.spec_invalidation(),
            set![island],
            Set::empty(),
        )
        &&& after.island_order() == self.island_order()
        &&& after.spec_invalidation().marks() == self.spec_invalidation().marks().dirtied(island)
    }

    /// Which of two islands that are joined takes in the other: the one with more components, else
    /// the first.
    pub open spec fn kept_island(self, island_a: u32, island_b: u32) -> (u32, u32) {
        if self.island_at(island_a).spec_components().len() >= self.island_at(
            island_b,
        ).spec_components().len() {
            (island_a, island_b)
        } else {
            (island_b, island_a)
        }
    }

    /// Whether one of two islands has taken in the other: it has got a new revision and a mark, the
    /// other is gone, and all others are as they were.
    pub open spec fn islands_united(self, after: Self, island_a: u32, island_b: u32) -> bool {
        let (kept, gone) = self.kept_island(island_a, island_b);
        &&& forall|i: u32| #[trigger] after.has_island(i) <==> self.has_island(i) && i != gone
        &&& forall|i: u32|
            self.has_island(i) && i != gone && i != kept ==> #[trigger] after.island_at(i)
                == self.island_at(i)
        &&& after.island_at(kept).spec_components() == self.island_at(kept).spec_components()
            + self.island_at(gone).spec_components()
        &&& after.island_at(kept).spec_revision() == self.island_at(kept).spec_revision() + 1
        &&& self.spec_invalidation().marked_more(
            after.spec_invalidation(),
            set![kept],
            set![gone],
        )
        &&& after.island_order() == dropped(self.island_order(), gone)
        &&& after.spec_invalidation().marks() == self.spec_invalidation().marks().retired(
            gone,
        ).dirtied(kept)
    }

    /// Whether what was in one island is now in another.
    pub open spec fn contents_moved(
        self,
        after: Self,
        network: Network,
        definitions: DefinitionRegistry,
        gone: u32,
        kept: u32,
    ) -> bool {
        &&& forall|n: u32| #[trigger]
            after.net_island_spec(n) == if self.net_island_spec(n) == gone {
                kept
            } else {
                self.net_island_spec(n)
            }
        &&& forall|c: u64|
            is_component(network, definitions, c) ==> #[trigger] after.component_island_spec(
                network,
                c,
            ) == if self.component_island_spec(network, c) == gone {
                kept
            } else {
                self.component_island_spec(network, c)
            }
    }

    /// Which of two nets that are joined takes in the other: the only one with an island, else the
    /// one with more wires, else the first.
    pub open spec fn kept_net(self, net_a: u32, net_b: u32) -> (u32, u32) {
        let in_a = self.net_island_spec(net_a) != 0;
        let in_b = self.net_island_spec(net_b) != 0;
        if in_a && !in_b {
            (net_a, net_b)
        } else if in_b && !in_a {
            (net_b, net_a)
        } else if self.net_at(net_a).spec_wires().len() >= self.net_at(net_b).spec_wires().len() {
            (net_a, net_b)
        } else {
            (net_b, net_a)
        }
    }

    /// What connecting wires of two nets does: nothing where they are one net. Else one net takes
    /// in the other; islands of both are joined, one island of both gets a new revision, and where
    /// only one has an island, or none, islands stay as they are.
    pub open spec fn nets_united(self, after: Self, net_a: u32, net_b: u32) -> bool {
        if net_a == net_b {
            after == self
        } else {
            let (kept, gone) = self.kept_net(net_a, net_b);
            let island = self.net_island_spec(kept);
            let other = self.net_island_spec(gone);
            &&& forall|n: u32| #[trigger] after.has_net(n) <==> self.has_net(n) && n != gone
            &&& forall|n: u32|
                self.has_net(n) && n != gone && n != kept ==> #[trigger] after.net_at(n)
                    == self.net_at(n)
            &&& after.net_at(kept).spec_wires() == self.net_at(kept).spec_wires() + self.net_at(
                gone,
            ).spec_wires()
            &&& after.net_at(kept).spec_components() == self.net_at(kept).spec_components()
                + self.net_at(gone).spec_components()
            &&& forall|w: u32| #[trigger]
                after.wire_net_spec(w) == if self.wire_net_spec(w) == gone {
                    kept
                } else {
                    self.wire_net_spec(w)
                }
            &&& forall|n: u32| #[trigger]
                after.net_island_spec(n) == if n == gone {
                    0
                } else if island != 0 && other != 0 && island != other && self.net_island_spec(n)
                    == self.kept_island(island, other).1 {
                    self.kept_island(island, other).0
                } else {
                    self.net_island_spec(n)
                }
            &&& if island != 0 && other != 0 && island != other {
                self.islands_united(after, island, other)
            } else if island != 0 && island == other {
                self.revised(after, island)
            } else {
                self.islands_kept(after)
            }
        }
    }

    /// What attaching a terminal to a wire does: an island without the net of the wire takes it in
    /// and gets a new revision, as does the one that has it already; else two islands are joined.
    pub open spec fn terminal_united(
        self,
        after: Self,
        network: Network,
        definitions: DefinitionRegistry,
        wire: u32,
        terminal: u64,
    ) -> bool {
        let net = self.wire_net_spec(wire);
        let old_island = self.net_island_spec(net);
        let island = self.component_island_spec(
            network,
            component_of(network, definitions, terminal),
        );
        let (kept, gone) = self.kept_island(old_island, island);
        &&& forall|w: u32| #[trigger] after.wire_net_spec(w) == self.wire_net_spec(w)
        &&& forall|n: u32| #[trigger] after.has_net(n) == self.has_net(n)
        &&& forall|n: u32|
            self.has_net(n) && n != net ==> #[trigger] after.net_at(n) == self.net_at(n)
        &&& after.net_at(net).spec_wires() == self.net_at(net).spec_wires()
        &&& after.net_at(net).spec_components() == self.net_at(net).spec_components().push(
            component_of(network, definitions, terminal),
        )
        &&& if old_island == 0 || old_island == island {
            &&& self.revised(after, island)
            &&& forall|n: u32| #[trigger]
                after.net_island_spec(n) == if n == net {
                    island
                } else {
                    self.net_island_spec(n)
                }
            &&& forall|c: u64|
                is_component(network, definitions, c) ==> #[trigger] after.component_island_spec(
                    network,
                    c,
                ) == self.component_island_spec(network, c)
        } else {
            &&& self.islands_united(after, old_island, island)
            &&& self.contents_moved(after, network, definitions, gone, kept)
        }
    }

    /// What detaching a terminal from a wire does to the nets: the net of the wire has one entry of
    /// the component less, whose place the last one has taken.
    pub open spec fn terminal_dropped(self, after: Self, net: u32, component: u64) -> bool {
        &&& forall|w: u32| #[trigger] after.wire_net_spec(w) == self.wire_net_spec(w)
        &&& forall|n: u32| #[trigger] after.has_net(n) == self.has_net(n)
        &&& forall|n: u32|
            self.has_net(n) && n != net ==> #[trigger] after.net_at(n) == self.net_at(n)
        &&& after.net_at(net).spec_wires() == self.net_at(net).spec_wires()
        &&& after.net_at(net).spec_components() == dropped(
            self.net_at(net).spec_components(),
            component,
        )
    }

    /// How much would have to be rewritten to move an island's contents to another one: its nets
    /// and its components.
    pub open spec fn rewrite_cost(self, island: u32) -> nat {
        Set::new(|n: u32| self.has_net(n) && self.net_island_spec(n) == island).len()
            + self.island_at(island).spec_components().len()
    }

    /// Whether the parts of an island come in the order in which their first components came on its
    /// list, and the one at a place is the last of those that take the most to rewrite.
    pub open spec fn island_parts(
        self,
        after: Self,
        island: u32,
        parts: Seq<u32>,
        keep: int,
    ) -> bool {
        &&& parts.len() == after.spec_island_slots() - self.spec_island_slots() + 1
        &&& forall|k: int|
            0 <= k < parts.len() ==> after.rewrite_cost(#[trigger] parts[k]) <= after.rewrite_cost(
                island,
            )
        &&& forall|k: int|
            keep < k < parts.len() ==> after.rewrite_cost(#[trigger] parts[k]) < after.rewrite_cost(
                island,
            )
        &&& forall|k: int, l: int|
            0 <= k < l < parts.len() ==> found_before(
                self.island_at(island).spec_components(),
                after.island_at(#[trigger] parts[k]).spec_components(),
                after.island_at(#[trigger] parts[l]).spec_components(),
            )
    }

    /// Whether the parts of a net come in the order in which their first wires came on its list, and
    /// the one at a place is the last of those with the most wires.
    pub open spec fn net_parts(self, after: Self, net: u32, parts: Seq<u32>, keep: int) -> bool {
        &&& parts.len() == after.spec_net_slots() - self.spec_net_slots() + 1
        &&& forall|k: int|
            0 <= k < parts.len() ==> after.net_at(#[trigger] parts[k]).spec_wires().len()
                <= after.net_at(net).spec_wires().len()
        &&& forall|k: int|
            keep < k < parts.len() ==> after.net_at(#[trigger] parts[k]).spec_wires().len()
                < after.net_at(net).spec_wires().len()
        &&& forall|k: int, l: int|
            0 <= k < l < parts.len() ==> found_before(
                self.net_at(net).spec_wires(),
                after.net_at(#[trigger] parts[k]).spec_wires(),
                after.net_at(#[trigger] parts[l]).spec_wires(),
            )
    }

    /// What splitting an island where it has fallen apart does: it is gone where it has no
    /// components left. Else the part that would take the most to rewrite keeps the identifier and
    /// gets a new revision; the others get new identifiers and start at revision zero. All of them
    /// are marked.
    pub open spec fn island_split(self, after: Self, island: u32) -> bool {
        let slots = self.spec_island_slots();
        let more = ids_between(slots, after.spec_island_slots());
        &&& after.has_island(island) <==> self.island_at(island).spec_components().len() > 0
        &&& forall|i: u32|
            self.has_island(i) && i != island ==> #[trigger] after.has_island(i) && after.island_at(
                i,
            ) == self.island_at(i)
        &&& forall|i: u32| #[trigger]
            after.has_island(i) && !self.has_island(i) ==> {
                &&& more.contains(i)
                &&& after.has_island(island)
                &&& after.island_at(i).spec_revision() == 0
                &&& after.rewrite_cost(i) <= after.rewrite_cost(island)
            }
        &&& if after.has_island(island) {
            &&& exists|parts: Seq<u32>, keep: int| #[trigger]
                parts_numbered(parts, keep, island, slots) && self.island_parts(
                    after,
                    island,
                    parts,
                    keep,
                )
            &&& after.island_at(island).spec_revision() == self.island_at(island).spec_revision()
                + 1
            &&& self.spec_invalidation().marked_more(
                after.spec_invalidation(),
                more.insert(island),
                Set::empty(),
            )
            &&& after.island_order() == listed_between(
                self.island_order(),
                slots,
                after.spec_island_slots(),
            )
            &&& after.spec_invalidation().marks() == self.spec_invalidation().marks().dirtied(
                island,
            ).dirtied_between(slots, after.spec_island_slots())
        } else {
            &&& after.spec_island_slots() == slots
            &&& self.spec_invalidation().marked_more(
                after.spec_invalidation(),
                Set::empty(),
                set![island],
            )
            &&& after.island_order() == dropped(self.island_order(), island)
            &&& after.spec_invalidation().marks() == self.spec_invalidation().marks().retired(
                island,
            )
        }
    }

    /// Whether wires and nets are as they were, and only nets of one island have left it: for a new
    /// island, or for none.
    pub open spec fn nets_split(self, after: Self, island: u32) -> bool {
        &&& forall|w: u32| #[trigger] after.wire_net_spec(w) == self.wire_net_spec(w)
        &&& forall|n: u32| #[trigger] after.has_net(n) == self.has_net(n)
        &&& forall|n: u32| #[trigger] after.net_at(n) == self.net_at(n)
        &&& forall|n: u32|
            self.net_island_spec(n) != island ==> #[trigger] after.net_island_spec(n)
                == self.net_island_spec(n)
        &&& forall|n: u32|
            self.net_island_spec(n) == island ==> {
                ||| #[trigger] after.net_island_spec(n) == island
                ||| after.net_island_spec(n) == 0
                ||| after.net_island_spec(n) > self.spec_island_slots()
            }
    }

    /// Whether `after` is what results once some islands have been split in turn, each where it has
    /// fallen apart.
    pub open spec fn islands_split_in_turn(self, after: Self, islands: Seq<u32>) -> bool
        decreases islands.len(),
    {
        if islands.len() == 0 {
            after == self
        } else {
            exists|mid: Self|
                self.islands_split_in_turn(mid, islands.drop_last()) && #[trigger] mid.island_split(
                    after,
                    islands.last(),
                ) && mid.nets_split(after, islands.last())
        }
    }

    /// Whether `after` differs in that the components of a device are off the lists of some islands,
    /// and its terminals off those of the nets.
    pub open spec fn device_dropped(self, after: Self, device: u32, islands: Seq<u32>) -> bool {
        &&& forall|w: u32| #[trigger] after.wire_net_spec(w) == self.wire_net_spec(w)
        &&& forall|n: u32| #[trigger] after.has_net(n) == self.has_net(n)
        &&& forall|n: u32|
            self.has_net(n) ==> {
                let new = #[trigger] after.net_at(n);
                let old = self.net_at(n);
                &&& new.spec_wires() == old.spec_wires()
                &&& new.spec_components() == pruned(old.spec_components(), device)
            }
        &&& forall|n: u32| #[trigger] after.net_island_spec(n) == self.net_island_spec(n)
        &&& forall|i: u32| #[trigger] after.has_island(i) == self.has_island(i)
        &&& forall|i: u32|
            self.has_island(i) ==> {
                let new = #[trigger] after.island_at(i);
                let old = self.island_at(i);
                &&& new.spec_revision() == old.spec_revision()
                &&& new.spec_components() == if islands.contains(i) {
                    without_device(old.spec_components(), device)
                } else {
                    old.spec_components()
                }
            }
        &&& after.spec_island_slots() == self.spec_island_slots()
        &&& after.island_order() == self.island_order()
        &&& after.spec_invalidation() == self.spec_invalidation()
    }

    /// What taking out a device does: its components leave their islands, and then these are split
    /// in turn where they have fallen apart.
    pub open spec fn device_cut(self, after: Self, device: u32, islands: Seq<u32>) -> bool {
        exists|mid: Self|
            self.device_dropped(mid, device, islands) && #[trigger] mid.islands_split_in_turn(
                after,
                islands,
            )
    }

    pub(crate) proof fn lemma_nets_split(
        self,
        after: Self,
        network: Network,
        definitions: DefinitionRegistry,
        island: u32,
    )
        requires
            self.repaired_elsewhere(after, network, definitions, island),
        ensures
            self.nets_split(after, island),
    {
        self.lemma_model();
        after.lemma_model();
        self.lemma_island_slots();
        assert forall|w: u32| #[trigger] after.wire_net_spec(w) == self.wire_net_spec(w) by {
            self.lemma_wire_net(w);
            after.lemma_wire_net(w);
        }
        assert forall|n: u32|
            self.net_island_spec(n) != island implies #[trigger] after.net_island_spec(n)
            == self.net_island_spec(n) by {
            assert(after.net_label(n) == self.net_label(n));
        }
        assert forall|n: u32| self.net_island_spec(n) == island implies {
            ||| #[trigger] after.net_island_spec(n) == island
            ||| after.net_island_spec(n) == 0
            ||| after.net_island_spec(n) > self.spec_island_slots()
        } by {
            assert(after.net_label(n) == after.net_island_spec(n));
        }
    }

    pub(crate) proof fn lemma_one_more_split(self, mid: Self, after: Self, islands: Seq<u32>)
        requires
            islands.len() > 0,
            self.islands_split_in_turn(mid, islands.drop_last()),
            mid.island_split(after, islands.last()),
            mid.nets_split(after, islands.last()),
        ensures
            self.islands_split_in_turn(after, islands),
    {
    }

    pub(crate) proof fn lemma_revised(self, after: Self, island: u32)
        requires
            self.bumped(after, island),
        ensures
            self.revised(after, island),
    {
        self.lemma_model();
        after.lemma_model();
        assert forall|i: u32| #[trigger] after.has_island(i) == self.has_island(i) by {
            assert(after.islands@.dom().contains(i) == self.islands@.dom().contains(i));
        }
        assert forall|i: u32| self.has_island(i) implies {
            let new = #[trigger] after.island_at(i);
            &&& new.spec_components() == self.island_at(i).spec_components()
            &&& new.spec_revision() == self.island_at(i).spec_revision() + if i == island {
                1int
            } else {
                0
            }
        } by {
            assert(self.islands@.contains_key(i));
            self.islands@[i].lemma_list();
            after.islands@[i].lemma_list();
        }
    }

    pub(crate) proof fn lemma_islands_united(
        self,
        after: Self,
        network: Network,
        definitions: DefinitionRegistry,
        island_a: u32,
        island_b: u32,
    )
        requires
            island_a != 0,
            island_b != 0,
            island_a != island_b,
            self.islands@.contains_key(island_a),
            self.islands@.contains_key(island_b),
            self.islands_after_join(after, network, definitions, island_a, island_b),
        ensures
            self.islands_united(after, island_a, island_b),
            self.kept_island(island_a, island_b) == self.merge_target(island_a, island_b),
    {
        self.lemma_model();
        after.lemma_model();
        self.islands@[island_a].lemma_list();
        self.islands@[island_b].lemma_list();
        let (kept, gone) = self.merge_target(island_a, island_b);
        after.islands@[kept].lemma_list();
        assert forall|i: u32| #[trigger]
            after.has_island(i) <==> self.has_island(i) && i != gone by {
            assert(after.islands@.dom().contains(i) == self.islands@.dom().remove(gone).contains(
                i,
            ));
        }
        assert forall|i: u32|
            self.has_island(i) && i != gone && i != kept implies #[trigger] after.island_at(i)
            == self.island_at(i) by {
            assert(after.islands@[i] == self.islands@[i]);
        }
    }

    pub(crate) proof fn lemma_nets_united(
        self,
        after: Self,
        live: Network,
        network: Network,
        definitions: DefinitionRegistry,
        wire_a: u32,
        wire_b: u32,
    )
        requires
            self.islands.wf(),
            self.nets.wf(),
            self.wires_ok(live),
            self.net_labels_ok(Set::empty()),
            live.wire_live(wire_a),
            live.wire_live(wire_b),
            self.wires_connected(
                after,
                network,
                definitions,
                self.net_of(wire_a),
                self.net_of(wire_b),
            ),
        ensures
            self.nets_united(after, self.wire_net_spec(wire_a), self.wire_net_spec(wire_b)),
    {
        broadcast use DenseIdStore::lemma_live;

        self.lemma_model();
        after.lemma_model();
        self.lemma_wire_net(wire_a);
        self.lemma_wire_net(wire_b);
        let net_a = self.net_of(wire_a);
        let net_b = self.net_of(wire_b);
        if net_a != net_b {
            self.nets@[net_a].lemma_lists();
            self.nets@[net_b].lemma_lists();
            let (kept, gone) = self.join_target(net_a, net_b);
            assert(self.kept_net(net_a, net_b) == (kept, gone));
            after.nets@[kept].lemma_lists();
            assert(self.nets@.contains_key(kept) && self.nets@.contains_key(gone));
            assert forall|n: u32| #[trigger] after.has_net(n) <==> self.has_net(n) && n != gone by {
                assert(after.nets@.contains_key(n) == after.has_net(n));
            }
            assert forall|n: u32|
                self.has_net(n) && n != gone && n != kept implies #[trigger] after.net_at(n)
                == self.net_at(n) by {
                assert(after.nets@[n] == self.nets@[n]);
            }
            assert forall|w: u32| #[trigger]
                after.wire_net_spec(w) == if self.wire_net_spec(w) == gone {
                    kept
                } else {
                    self.wire_net_spec(w)
                } by {
                self.lemma_wire_net(w);
                after.lemma_wire_net(w);
                if self.nets@[gone].wires@.contains(w) {
                    assert(self.net_of(w) == gone);
                }
                if self.net_of(w) == gone {
                    assert(gone != 0);
                    assert(live.wire_live(w));
                    assert(self.nets@[self.net_of(w)].wires@.contains(w));
                }
            }
            let island = self.net_label(kept);
            let other = self.net_label(gone);
            if island != 0 && other != 0 && island != other {
                assert(self.islands@.contains_key(island) && self.islands@.contains_key(other));
                self.lemma_islands_united(after, network, definitions, island, other);
            } else if island != 0 && island == other {
                self.lemma_revised(after, island);
            }
            assert forall|n: u32| #[trigger]
                after.net_island_spec(n) == if n == gone {
                    0
                } else if island != 0 && other != 0 && island != other && self.net_island_spec(n)
                    == self.kept_island(island, other).1 {
                    self.kept_island(island, other).0
                } else {
                    self.net_island_spec(n)
                } by {
                assert(after.net_label(n) == after.net_island_spec(n));
            }
        }
    }

    pub(crate) proof fn lemma_contents_moved(
        self,
        after: Self,
        network: Network,
        definitions: DefinitionRegistry,
        gone: u32,
        kept: u32,
    )
        requires
            self.labels_moved(after, network, definitions, gone, kept),
        ensures
            self.contents_moved(after, network, definitions, gone, kept),
    {
        self.lemma_model();
        after.lemma_model();
        assert forall|n: u32| #[trigger]
            after.net_island_spec(n) == if self.net_island_spec(n) == gone {
                kept
            } else {
                self.net_island_spec(n)
            } by {
            assert(after.net_label(n) == moved(self.net_label(n), gone, kept));
        }
        assert forall|c: u64| is_component(
            network,
            definitions,
            c,
        ) implies #[trigger] after.component_island_spec(network, c)
            == if self.component_island_spec(network, c) == gone {
            kept
        } else {
            self.component_island_spec(network, c)
        } by {
            self.lemma_component_island(network, c);
            after.lemma_component_island(network, c);
            assert(after.component_label(network, c) == moved(
                self.component_label(network, c),
                gone,
                kept,
            ));
        }
    }

    pub(crate) proof fn lemma_rewrite_cost(self, island: u32)
        ensures
            self.rewrite_cost(island) == self.island_cost(island),
    {
        self.lemma_model();
        self.islands@[island].lemma_list();
        assert(Set::new(|n: u32| self.has_net(n) && self.net_island_spec(n) == island)
            =~= self.nets_labelled(island));
    }

    pub(crate) proof fn lemma_island_split(self, mid: Self, after: Self, island: u32)
        requires
            mid.islands == self.islands,
            mid.invalidation == self.invalidation,
            mid.island_repaired(after, island),
            forall|i: u32|
                #![trigger after.islands@[i]]
                #![trigger after.islands@.contains_key(i)]
                i != island && self.islands@.contains_key(i) ==> after.islands@.contains_key(i)
                    && after.islands@[i] == self.islands@[i],
            self.islands@.contains_key(island),
        ensures
            self.island_split(after, island),
    {
        broadcast use DenseIdStore::lemma_live;

        self.lemma_model();
        after.lemma_model();
        self.lemma_island_slots();
        after.lemma_island_slots();
        self.islands@[island].lemma_list();
        after.islands@[island].lemma_list();
        assert forall|i: u32|
            self.has_island(i) && i != island implies #[trigger] after.has_island(i)
            && after.island_at(i) == self.island_at(i) by {
            assert(after.islands@.contains_key(i));
        }
        assert forall|i: u32| #[trigger] after.has_island(i) && !self.has_island(i) implies {
            &&& ids_between(self.spec_island_slots(), after.spec_island_slots()).contains(i)
            &&& after.has_island(island)
            &&& after.island_at(i).spec_revision() == 0
            &&& after.rewrite_cost(i) <= after.rewrite_cost(island)
        } by {
            assert(after.islands@.contains_key(i));
            after.islands@[i].lemma_list();
            after.lemma_rewrite_cost(i);
            after.lemma_rewrite_cost(island);
            if !after.islands@.contains_key(island) {
                assert(self.islands@.remove(island).contains_key(i));
            }
        }
        if after.has_island(island) {
            let (parts, keep) = choose|parts: Seq<u32>, keep: int| #[trigger]
                parts_numbered(parts, keep, island, mid.islands.spec_slot_count()) && parts.len()
                    == after.islands.spec_slot_count() - mid.islands.spec_slot_count() + 1
                    && mid.island_parts_ordered(after, island, parts, keep);
            assert forall|i: u32| #[trigger] after.rewrite_cost(i) == after.island_cost(i) by {
                after.lemma_rewrite_cost(i);
            }
            assert forall|i: u32| #[trigger]
                after.island_at(i).spec_components() == after.islands@[i].components@ by {
                after.islands@[i].lemma_list();
            }
            assert forall|k: int, l: int| 0 <= k < l < parts.len() implies found_before(
                self.island_at(island).spec_components(),
                after.island_at(#[trigger] parts[k]).spec_components(),
                after.island_at(#[trigger] parts[l]).spec_components(),
            ) by {
                assert(found_before(
                    mid.islands@[island].components@,
                    after.islands@[parts[k]].components@,
                    after.islands@[parts[l]].components@,
                ));
            }
            assert(self.island_parts(after, island, parts, keep));
            assert(parts_numbered(parts, keep, island, self.spec_island_slots()));
        }
    }

    pub(crate) proof fn lemma_terminal_united(
        self,
        after: Self,
        network: Network,
        definitions: DefinitionRegistry,
        wire: u32,
        terminal: u64,
    )
        requires
            self.islands.wf(),
            after.wire_net_map == self.wire_net_map,
            self.islands@.contains_key(
                self.component_label(network, component_of(network, definitions, terminal)),
            ),
            self.net_label(self.net_of(wire)) != 0 ==> self.islands@.contains_key(
                self.net_label(self.net_of(wire)),
            ),
            self.islands_after_attach(
                after,
                network,
                definitions,
                self.net_of(wire),
                component_of(network, definitions, terminal),
            ),
        ensures
            self.terminal_united(after, network, definitions, wire, terminal),
    {
        broadcast use DenseIdStore::lemma_live;

        let component = component_of(network, definitions, terminal);
        self.lemma_model();
        after.lemma_model();
        self.lemma_wire_net(wire);
        self.lemma_component_island(network, component);
        assert forall|w: u32| #[trigger] after.wire_net_spec(w) == self.wire_net_spec(w) by {
            self.lemma_wire_net(w);
            after.lemma_wire_net(w);
        }
        let net = self.net_of(wire);
        let old_island = self.net_label(net);
        let island = self.component_label(network, component);
        self.nets@[net].lemma_lists();
        after.nets@[net].lemma_lists();
        assert forall|n: u32| #[trigger] after.has_net(n) == self.has_net(n) by {
            assert(after.nets@.dom().contains(n) == self.nets@.dom().contains(n));
        }
        if old_island == 0 || old_island == island {
            self.lemma_revised(after, island);
            assert forall|n: u32| #[trigger]
                after.net_island_spec(n) == if n == net {
                    island
                } else {
                    self.net_island_spec(n)
                } by {
                assert(after.net_label(n) == after.net_island_spec(n));
            }
            assert forall|c: u64| is_component(
                network,
                definitions,
                c,
            ) implies #[trigger] after.component_island_spec(network, c)
                == self.component_island_spec(network, c) by {
                self.lemma_component_island(network, c);
                after.lemma_component_island(network, c);
                assert(after.component_label(network, c) == self.component_label(network, c));
            }
        } else {
            self.lemma_islands_united(after, network, definitions, old_island, island);
            let (kept, gone) = self.merge_target(old_island, island);
            self.lemma_contents_moved(after, network, definitions, gone, kept);
        }
    }

    /// What following a connection between two terminals does: nothing where their components are
    /// in one island; else the islands are joined.
    pub open spec fn components_united(
        self,
        after: Self,
        network: Network,
        definitions: DefinitionRegistry,
        component_a: u64,
        component_b: u64,
    ) -> bool {
        let a = self.component_island_spec(network, component_a);
        let b = self.component_island_spec(network, component_b);
        let (kept, gone) = self.kept_island(a, b);
        if a == b {
            after == self
        } else {
            &&& forall|w: u32| #[trigger] after.wire_net_spec(w) == self.wire_net_spec(w)
            &&& forall|n: u32| #[trigger] after.has_net(n) == self.has_net(n)
            &&& forall|n: u32| #[trigger] after.net_at(n) == self.net_at(n)
            &&& self.islands_united(after, a, b)
            &&& self.contents_moved(after, network, definitions, gone, kept)
        }
    }

    /// What following the connection of a terminal does, where it has one. A connection between two
    /// terminals is followed from the one that comes first.
    pub open spec fn connection_followed(
        self,
        after: Self,
        network: Network,
        definitions: DefinitionRegistry,
        device: u32,
        terminal: int,
    ) -> bool {
        let word = terminal_word(device, terminal as u32);
        match network.device_model(device).terminals[terminal] {
            None => after == self,
            Some(connection) => {
                let other = connection.word();
                if !is_terminal_word(other) {
                    self.terminal_united(after, network, definitions, word_id(other), word)
                } else if comes_before(word, other) {
                    self.components_united(
                        after,
                        network,
                        definitions,
                        component_of(network, definitions, word),
                        component_of(network, definitions, other),
                    )
                } else {
                    after == self
                }
            },
        }
    }

    /// Whether `after` is what results once the terminals of the first devices of a list, and the
    /// first terminals of the next one, have been followed in turn.
    pub open spec fn connections_followed(
        self,
        after: Self,
        network: Network,
        definitions: DefinitionRegistry,
        ids: Seq<DeviceId>,
        index: int,
        terminals: int,
    ) -> bool
        decreases index, terminals,
    {
        if terminals > 0 {
            exists|mid: Self|
                self.connections_followed(mid, network, definitions, ids, index, terminals - 1)
                    && #[trigger] mid.connection_followed(
                    after,
                    network,
                    definitions,
                    ids[index].value(),
                    terminals - 1,
                )
        } else if index > 0 {
            self.connections_followed(
                after,
                network,
                definitions,
                ids,
                index - 1,
                network.device_model(ids[index - 1].value()).terminals.len() as int,
            )
        } else {
            after == self
        }
    }

    pub(crate) proof fn lemma_one_more_followed(
        self,
        mid: Self,
        after: Self,
        network: Network,
        definitions: DefinitionRegistry,
        ids: Seq<DeviceId>,
        index: int,
        terminals: int,
    )
        requires
            0 <= terminals,
            0 <= index < ids.len(),
            self.connections_followed(mid, network, definitions, ids, index, terminals),
            mid.connection_followed(
                after,
                network,
                definitions,
                ids[index].value(),
                terminals,
            ),
        ensures
            self.connections_followed(after, network, definitions, ids, index, terminals + 1),
    {
        let more = terminals + 1;
        assert(more - 1 == terminals);
        assert(self.connections_followed(mid, network, definitions, ids, index, more - 1)
            && mid.connection_followed(
            after,
            network,
            definitions,
            ids[index].value(),
            more - 1,
        ));
    }

    /// Whether each wire is in a net of its own, numbered in the order of the wires.
    pub open spec fn is_unwired(self, network: Network) -> bool {
        &&& forall|w: u32| #[trigger]
            self.wire_net_spec(w) == if network.wire_live(w) {
                wires_up_to(network, w as int)
            } else {
                0
            }
        &&& forall|w: u32|
            network.wire_live(w) ==> {
                let net = self.net_at(#[trigger] self.wire_net_spec(w));
                net.spec_wires() == seq![w] && net.spec_components() == Seq::<u64>::empty()
            }
        &&& forall|n: u32| #[trigger]
            self.has_net(n) <==> 1 <= n <= wires_up_to(network, network.wire_slots())
        &&& forall|n: u32| #[trigger] self.net_island_spec(n) == 0
    }

    /// What following a connection of a wire does: where it leads to a wire with a higher number,
    /// the nets of both are joined.
    pub open spec fn wire_joined(self, after: Self, network: Network, wire: u32, at: int) -> bool {
        let other = network.wire_words(wire)[at];
        if !is_terminal_word(other) && wire < word_id(other) {
            self.nets_united(after, self.wire_net_spec(wire), self.wire_net_spec(word_id(other)))
        } else {
            after == self
        }
    }

    /// Whether `after` is what results once the connections of the first wires, and the first
    /// connections of the next one, have been followed in turn.
    pub open spec fn wires_joined(
        self,
        after: Self,
        network: Network,
        wires: int,
        connections: int,
    ) -> bool
        decreases wires, connections,
    {
        if connections > 0 {
            exists|mid: Self|
                self.wires_joined(mid, network, wires, connections - 1)
                    && #[trigger] mid.wire_joined(
                    after,
                    network,
                    (wires + 1) as u32,
                    connections - 1,
                )
        } else if wires > 0 {
            self.wires_joined(
                after,
                network,
                wires - 1,
                if network.wire_live(wires as u32) {
                    network.wire_words(wires as u32).len() as int
                } else {
                    0
                },
            )
        } else {
            after == self
        }
    }

    pub(crate) proof fn lemma_one_more_joined(
        self,
        mid: Self,
        after: Self,
        network: Network,
        wires: int,
        connections: int,
    )
        requires
            0 <= connections,
            self.wires_joined(mid, network, wires, connections),
            mid.wire_joined(after, network, (wires + 1) as u32, connections),
        ensures
            self.wires_joined(after, network, wires, connections + 1),
    {
        let more = connections + 1;
        assert(more - 1 == connections);
        assert(self.wires_joined(mid, network, wires, more - 1) && mid.wire_joined(
            after,
            network,
            (wires + 1) as u32,
            more - 1,
        ));
    }

    /// Whether each component is in an island of its own, at revision zero and numbered in the order
    /// in which the components are kept, and no net is in one.
    pub open spec fn is_unattached(self, network: Network, definitions: DefinitionRegistry) -> bool {
        &&& forall|c: u64|
            is_component(network, definitions, c) ==> {
                let island = #[trigger] self.component_island_spec(network, c);
                &&& island == component_rank(network, definitions, c) + 1
                &&& self.has_island(island)
                &&& self.island_at(island).spec_components() == seq![c]
            }
        &&& self.spec_island_slots() == components_before(
            network,
            definitions,
            network.arena().spec_chunk_count(),
        )
        &&& forall|i: u32| #[trigger] self.has_island(i) <==> 1 <= i <= self.spec_island_slots()
        &&& self.island_order() == listed_between(Seq::empty(), 0, self.spec_island_slots())
        &&& forall|i: u32| #[trigger]
            self.has_island(i) ==> {
                &&& self.island_at(i).spec_components().len() == 1
                &&& self.island_at(i).spec_revision() == 0
            }
        &&& forall|n: u32| #[trigger] self.net_island_spec(n) == 0
    }

    /// Whether `after` differs in marks alone.
    pub open spec fn same_but_for_marks(self, after: Self, network: Network) -> bool {
        &&& forall|w: u32| #[trigger] after.wire_net_spec(w) == self.wire_net_spec(w)
        &&& forall|n: u32| #[trigger] after.has_net(n) == self.has_net(n)
        &&& forall|n: u32| #[trigger] after.net_at(n) == self.net_at(n)
        &&& forall|n: u32| #[trigger] after.net_island_spec(n) == self.net_island_spec(n)
        &&& forall|i: u32| #[trigger] after.has_island(i) == self.has_island(i)
        &&& forall|i: u32| #[trigger] after.island_at(i) == self.island_at(i)
        &&& after.island_order() == self.island_order()
        &&& forall|c: u64| #[trigger]
            after.component_island_spec(network, c) == self.component_island_spec(network, c)
    }

    /// Whether this is what results where each wire starts in a net of its own and each component in
    /// an island of its own, both numbered in order, and then the connections between wires are
    /// followed in the order of the wires, and the terminals of all devices in the order in which
    /// the devices are kept. So its nets and islands have the identifiers, and its islands the
    /// revisions and the order, that this gives them.
    pub open spec fn attached_in_order(
        self,
        network: Network,
        definitions: DefinitionRegistry,
    ) -> bool {
        exists|unwired: Self, start: Self, end: Self, ids: Seq<DeviceId>|
            {
                &&& unwired.is_unwired(network)
                &&& #[trigger] unwired.wires_joined(start, network, network.wire_slots(), 0)
                &&& start.is_unattached(network, definitions)
                &&& lists_devices(network, ids)
                &&& #[trigger] start.connections_followed(
                    end,
                    network,
                    definitions,
                    ids,
                    ids.len() as int,
                    0,
                )
                &&& end.same_but_for_marks(self, network)
            }
    }
}

/// The number of wires whose numbers are not above one.
pub open spec fn wires_up_to(network: Network, wire: int) -> int
    decreases wire,
{
    if wire <= 0 {
        0
    } else {
        wires_up_to(network, wire - 1) + if network.wire_live(wire as u32) {
            1int
        } else {
            0
        }
    }
}

/// The number of components that are kept before one.
pub open spec fn component_rank(
    network: Network,
    definitions: DefinitionRegistry,
    component: u64,
) -> int {
    let device = component_device(component);
    components_before(network, definitions, network.arena().chunk_of(device))
        + network.arena().row_of(device) * partition_count(network, definitions, device)
        + component_partition(component)
}

/// Whether a list names the devices of a network in the order in which they are kept.
pub open spec fn lists_devices(network: Network, ids: Seq<DeviceId>) -> bool {
    &&& forall|d: u32| #[trigger]
        network.device_live(d) <==> exists|i: int|
            0 <= i < ids.len() && (#[trigger] ids[i]).value() == d
    &&& forall|i: int, j: int|
        0 <= i < j < ids.len() ==> network.kept_before(
            (#[trigger] ids[i]).value(),
            (#[trigger] ids[j]).value(),
        )
}

} // verus!
