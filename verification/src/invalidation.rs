//! What has to be redone for the islands since the last solve.

use crate::ids::IslandId;
use crate::small_list::IdList;
use vstd::prelude::*;

verus! {

/// The items that differ from one, in order.
pub open spec fn without(items: Seq<u32>, item: u32) -> Seq<u32>
    decreases items.len(),
{
    if items.len() == 0 {
        items
    } else if items.last() == item {
        without(items.drop_last(), item)
    } else {
        without(items.drop_last(), item).push(items.last())
    }
}

/// The items, and one more unless it is among them.
pub open spec fn with(items: Seq<u32>, item: u32) -> Seq<u32> {
    if items.contains(item) {
        items
    } else {
        items.push(item)
    }
}

/// The marks, each kind in the order in which the islands are listed.
pub struct Marks {
    pub topology: Seq<u32>,
    pub numerical: Seq<u32>,
    pub binding: Seq<u32>,
    pub gone: Seq<u32>,
}

impl Marks {
    /// The marks once the topology of an island has changed. An island that is gone stays so.
    pub open spec fn dirtied(self, island: u32) -> Self {
        if self.gone.contains(island) {
            self
        } else {
            Marks {
                topology: with(self.topology, island),
                numerical: without(self.numerical, island),
                binding: without(self.binding, island),
                gone: self.gone,
            }
        }
    }

    /// The marks once the topology of all islands after one number, up to another, has changed, in
    /// this order.
    pub open spec fn dirtied_between(self, from: int, to: int) -> Self
        decreases to - from,
    {
        if to <= from {
            self
        } else {
            self.dirtied_between(from, to - 1).dirtied(to as u32)
        }
    }

    /// The marks once the numbers of an island have changed, unless a larger mark covers it.
    pub open spec fn renumbered(self, island: u32) -> Self {
        if self.gone.contains(island) || self.topology.contains(island) {
            self
        } else {
            Marks { numerical: with(self.numerical, island), ..self }
        }
    }

    /// The marks once devices of an island have moved, unless a larger mark covers it.
    pub open spec fn rebound(self, island: u32) -> Self {
        if self.gone.contains(island) || self.topology.contains(island) {
            self
        } else {
            Marks { binding: with(self.binding, island), ..self }
        }
    }

    /// The marks once an island is gone.
    pub open spec fn retired(self, island: u32) -> Self {
        Marks {
            topology: without(self.topology, island),
            numerical: without(self.numerical, island),
            binding: without(self.binding, island),
            gone: with(self.gone, island),
        }
    }
}

/// Leaving an item out leaves the others.
pub(crate) proof fn lemma_without(items: Seq<u32>, item: u32)
    ensures
        !without(items, item).contains(item),
        forall|other: u32|
            #![trigger without(items, item).contains(other)]
            #![trigger items.contains(other)]
            without(items, item).contains(other) <==> (items.contains(other) && other != item),
        items.no_duplicates() ==> without(items, item).no_duplicates(),
    decreases items.len(),
{
    if items.len() > 0 {
        let init = items.drop_last();
        let kept = without(init, item);
        let rest = without(items, item);
        lemma_without(init, item);
        assert forall|other: u32|
            #![trigger rest.contains(other)]
            #![trigger items.contains(other)]
            rest.contains(other) <==> (items.contains(other) && other != item) by {
            if items.contains(other) && other != items.last() {
                let i = choose|i: int| 0 <= i < items.len() && items[i] == other;
                assert(init[i] == other);
                assert(init.contains(other));
            }
            if init.contains(other) {
                let i = choose|i: int| 0 <= i < init.len() && init[i] == other;
                assert(items[i] == other);
            }
            if items.last() != item {
                if kept.contains(other) {
                    let i = choose|i: int| 0 <= i < kept.len() && kept[i] == other;
                    assert(rest[i] == other);
                }
                if rest.contains(other) && other != items.last() {
                    let i = choose|i: int| 0 <= i < rest.len() && rest[i] == other;
                    assert(kept[i] == other);
                }
                assert(rest[kept.len() as int] == items.last());
                assert(items[items.len() - 1] == items.last());
            }
        }
        if items.no_duplicates() && items.last() != item {
            assert(init.no_duplicates());
            assert forall|i: int| 0 <= i < kept.len() implies kept[i] != items.last() by {
                assert(kept.contains(kept[i]));
                assert(init.contains(kept[i]));
                let j = choose|j: int| 0 <= j < init.len() && init[j] == kept[i];
                assert(items[j] == kept[i]);
            }
        }
    }
}

/// The list without an item.
fn list_without(list: &IdList, item: u32) -> (result: IdList)
    ensures
        result@ == without(list@, item),
{
    let mut rest = IdList::new();
    let mut index: usize = 0;
    assert(rest@ =~= without(list@.take(0), item));
    while index < list.len()
        invariant
            index <= list@.len(),
            rest@ == without(list@.take(index as int), item),
        decreases list@.len() - index,
    {
        proof {
            assert(list@.take(index + 1).drop_last() =~= list@.take(index as int));
        }
        let other: u32 = list.get(index);
        if other != item {
            rest.push(other);
        }
        index = index + 1;
    }
    assert(list@.take(list@.len() as int) =~= list@);
    rest
}

/// Appends an item unless it is in the list.
fn add_once(list: &mut IdList, item: u32)
    ensures
        final(list)@ == with(old(list)@, item),
{
    if !list.contains(item) {
        list.push(item);
    }
}

/// The islands that an identifier list names.
fn islands_of(list: &IdList) -> (result: Vec<IslandId>)
    requires
        !list@.contains(0),
    ensures
        result@.len() == list@.len(),
        forall|i: int| 0 <= i < result@.len() ==> (#[trigger] result@[i]).value() == list@[i],
{
    let mut islands: Vec<IslandId> = Vec::new();
    let mut index: usize = 0;
    while index < list.len()
        invariant
            index <= list@.len(),
            !list@.contains(0),
            islands@.len() == index,
            forall|i: int| 0 <= i < index ==> (#[trigger] islands@[i]).value() == list@[i],
        decreases list@.len() - index,
    {
        assert(list@[index as int] != 0);
        islands.push(IslandId::new(list.get(index)));
        index = index + 1;
    }
    islands
}

/// Which islands have a new topology, new bindings or new numbers, and which are gone.
#[derive(Debug)]
pub struct WorldInvalidation {
    topology_dirty: IdList,
    numerical_dirty: IdList,
    binding_dirty: IdList,
    retired: IdList,
}

impl WorldInvalidation {
    pub closed spec fn topology(self) -> Seq<u32> {
        self.topology_dirty@
    }

    pub closed spec fn numerical(self) -> Seq<u32> {
        self.numerical_dirty@
    }

    pub closed spec fn binding(self) -> Seq<u32> {
        self.binding_dirty@
    }

    pub closed spec fn gone(self) -> Seq<u32> {
        self.retired@
    }

    /// The marks.
    pub open spec fn marks(self) -> Marks {
        Marks {
            topology: self.topology(),
            numerical: self.numerical(),
            binding: self.binding(),
            gone: self.gone(),
        }
    }

    /// Each list names an island once. What is gone is not dirty, and what has a new topology is
    /// not marked for less.
    pub open spec fn wf(self) -> bool {
        &&& self.topology().no_duplicates()
        &&& self.numerical().no_duplicates()
        &&& self.binding().no_duplicates()
        &&& self.gone().no_duplicates()
        &&& !self.topology().contains(0)
        &&& !self.numerical().contains(0)
        &&& !self.binding().contains(0)
        &&& !self.gone().contains(0)
        &&& forall|i: u32| #[trigger]
            self.gone().contains(i) ==> !self.topology().contains(i) && !self.numerical().contains(
                i,
            ) && !self.binding().contains(i)
        &&& forall|i: u32| #[trigger]
            self.topology().contains(i) ==> !self.numerical().contains(i)
                && !self.binding().contains(i)
    }

    /// Whether `after` has in addition some islands marked for their topology and some as gone.
    pub open spec fn marked_more(self, after: Self, dirty: Set<u32>, retired: Set<u32>) -> bool {
        &&& forall|i: u32| #[trigger]
            after.gone().contains(i) <==> (self.gone().contains(i) || retired.contains(i))
        &&& forall|i: u32| #[trigger]
            after.topology().contains(i) <==> ((self.topology().contains(i) || dirty.contains(i))
                && !retired.contains(i))
        &&& forall|i: u32| #[trigger]
            after.numerical().contains(i) <==> (self.numerical().contains(i) && !dirty.contains(i)
                && !retired.contains(i))
        &&& forall|i: u32| #[trigger]
            after.binding().contains(i) <==> (self.binding().contains(i) && !dirty.contains(i)
                && !retired.contains(i))
    }

    /// Marks add up.
    pub proof fn lemma_marked_more(
        self,
        mid: Self,
        after: Self,
        dirty: Set<u32>,
        retired: Set<u32>,
        more_dirty: Set<u32>,
        more_retired: Set<u32>,
    )
        requires
            self.marked_more(mid, dirty, retired),
            mid.marked_more(after, more_dirty, more_retired),
            retired.disjoint(more_dirty),
        ensures
            self.marked_more(after, dirty.union(more_dirty), retired.union(more_retired)),
    {
    }

    /// Nothing to redo.
    pub fn new() -> (result: Self)
        ensures
            result.wf(),
            result.topology() == Seq::<u32>::empty(),
            result.numerical() == Seq::<u32>::empty(),
            result.binding() == Seq::<u32>::empty(),
            result.gone() == Seq::<u32>::empty(),
    {
        WorldInvalidation {
            topology_dirty: IdList::new(),
            numerical_dirty: IdList::new(),
            binding_dirty: IdList::new(),
            retired: IdList::new(),
        }
    }

    /// Marks an island whose topology changed. This supersedes the lesser marks.
    pub fn mark_topology_dirty(&mut self, island: IslandId)
        requires
            old(self).wf(),
        ensures
            final(self).wf(),
            final(self).marks() == old(self).marks().dirtied(island.value()),
            final(self).gone() == old(self).gone(),
            old(self).gone().contains(island.value()) ==> *final(self) == *old(self),
            !old(self).gone().contains(island.value()) ==> old(self).marked_more(
                *final(self),
                set![island.value()],
                Set::empty(),
            ),
    {
        let id: u32 = island.get();
        if self.retired.contains(id) {
            return ;
        }
        self.numerical_dirty = list_without(&self.numerical_dirty, id);
        self.binding_dirty = list_without(&self.binding_dirty, id);
        add_once(&mut self.topology_dirty, id);
        proof {
            lemma_without(old(self).numerical(), id);
            lemma_without(old(self).binding(), id);
            lemma_with(old(self).topology(), id);
        }
    }

    /// Marks an island whose devices moved to other places, unless a larger mark covers it.
    pub fn mark_binding_dirty(&mut self, island: IslandId)
        requires
            old(self).wf(),
        ensures
            final(self).wf(),
            final(self).marks() == old(self).marks().rebound(island.value()),
    {
        let id: u32 = island.get();
        if self.retired.contains(id) || self.topology_dirty.contains(id) {
            return ;
        }
        add_once(&mut self.binding_dirty, id);
        proof {
            lemma_with(old(self).binding(), id);
        }
    }

    /// Marks an island whose numbers changed, unless a larger mark covers it.
    pub fn mark_numerical_dirty(&mut self, island: IslandId)
        requires
            old(self).wf(),
        ensures
            final(self).wf(),
            final(self).marks() == old(self).marks().renumbered(island.value()),
    {
        let id: u32 = island.get();
        if self.retired.contains(id) || self.topology_dirty.contains(id) {
            return ;
        }
        add_once(&mut self.numerical_dirty, id);
        proof {
            lemma_with(old(self).numerical(), id);
        }
    }

    /// Marks an island that is gone. This supersedes every other mark.
    pub fn mark_retired(&mut self, island: IslandId)
        requires
            old(self).wf(),
        ensures
            final(self).wf(),
            final(self).marks() == old(self).marks().retired(island.value()),
            old(self).marked_more(*final(self), Set::empty(), set![island.value()]),
    {
        let id: u32 = island.get();
        self.topology_dirty = list_without(&self.topology_dirty, id);
        self.numerical_dirty = list_without(&self.numerical_dirty, id);
        self.binding_dirty = list_without(&self.binding_dirty, id);
        add_once(&mut self.retired, id);
        proof {
            lemma_without(old(self).topology(), id);
            lemma_without(old(self).numerical(), id);
            lemma_without(old(self).binding(), id);
            lemma_with(old(self).gone(), id);
        }
    }

    /// Forgets all marks.
    pub fn clear(&mut self)
        ensures
            final(self).wf(),
            final(self).topology() == Seq::<u32>::empty(),
            final(self).numerical() == Seq::<u32>::empty(),
            final(self).binding() == Seq::<u32>::empty(),
            final(self).gone() == Seq::<u32>::empty(),
    {
        self.topology_dirty = IdList::new();
        self.numerical_dirty = IdList::new();
        self.binding_dirty = IdList::new();
        self.retired = IdList::new();
    }

    pub fn topology_dirty_islands(&self) -> (result: Vec<IslandId>)
        requires
            self.wf(),
        ensures
            result@.len() == self.topology().len(),
            forall|i: int|
                0 <= i < result@.len() ==> (#[trigger] result@[i]).value() == self.topology()[i],
    {
        islands_of(&self.topology_dirty)
    }

    pub fn numerical_dirty_islands(&self) -> (result: Vec<IslandId>)
        requires
            self.wf(),
        ensures
            result@.len() == self.numerical().len(),
            forall|i: int|
                0 <= i < result@.len() ==> (#[trigger] result@[i]).value() == self.numerical()[i],
    {
        islands_of(&self.numerical_dirty)
    }

    pub fn binding_dirty_islands(&self) -> (result: Vec<IslandId>)
        requires
            self.wf(),
        ensures
            result@.len() == self.binding().len(),
            forall|i: int|
                0 <= i < result@.len() ==> (#[trigger] result@[i]).value() == self.binding()[i],
    {
        islands_of(&self.binding_dirty)
    }

    pub fn retired_islands(&self) -> (result: Vec<IslandId>)
        requires
            self.wf(),
        ensures
            result@.len() == self.gone().len(),
            forall|i: int|
                0 <= i < result@.len() ==> (#[trigger] result@[i]).value() == self.gone()[i],
    {
        islands_of(&self.retired)
    }
}

/// Adding an item once keeps the others and duplicates nothing.
pub(crate) proof fn lemma_with(items: Seq<u32>, item: u32)
    ensures
        with(items, item).contains(item),
        forall|other: u32|
            #![trigger with(items, item).contains(other)]
            #![trigger items.contains(other)]
            with(items, item).contains(other) <==> (items.contains(other) || other == item),
        items.no_duplicates() ==> with(items, item).no_duplicates(),
{
    let more = with(items, item);
    assert(more.contains(item)) by {
        if !items.contains(item) {
            assert(more[items.len() as int] == item);
        }
    }
    assert forall|other: u32|
        #![trigger more.contains(other)]
        #![trigger items.contains(other)]
        more.contains(other) <==> (items.contains(other) || other == item) by {
        if items.contains(other) {
            let i = choose|i: int| 0 <= i < items.len() && items[i] == other;
            assert(more[i] == other);
        }
    }
}

} // verus!
