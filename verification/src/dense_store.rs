//! A store that gives each value an identifier which is never given out again.

use crate::small_list::{dropped, lemma_dropped_at};
use vstd::prelude::*;

verus! {

/// A list of identifiers with those after one number, up to another, behind it in order.
pub open spec fn listed_between(ids: Seq<u32>, from: int, to: int) -> Seq<u32>
    decreases to - from,
{
    if to <= from {
        ids
    } else {
        listed_between(ids, from, to - 1).push(to as u32)
    }
}

/// Lists go on where they ended.
pub proof fn lemma_listed_between(ids: Seq<u32>, from: int, mid: int, to: int)
    requires
        from <= mid <= to,
    ensures
        listed_between(listed_between(ids, from, mid), mid, to) == listed_between(ids, from, to),
    decreases to - mid,
{
    if mid < to {
        lemma_listed_between(ids, from, mid, to - 1);
    }
}

/// Values by identifier, kept densely. Identifiers are one-based and given out in order.
#[derive(Debug)]
pub struct DenseIdStore<T> {
    /// For each identifier, the dense position plus one, or zero once it is retired.
    slots: Vec<u32>,
    dense_ids: Vec<u32>,
    values: Vec<T>,
}

impl<T> DenseIdStore<T> {
    /// The number of identifiers given out so far.
    pub closed spec fn spec_slot_count(self) -> int {
        self.slots@.len() as int
    }

    /// Whether a value stands under the identifier.
    pub closed spec fn live(self, id: u32) -> bool {
        1 <= id <= self.slots@.len() && self.slots@[id - 1] != 0
    }

    closed spec fn value(self, id: u32) -> T {
        self.values@[self.slots@[id - 1] - 1]
    }

    /// The values by identifier.
    pub closed spec fn view(self) -> Map<u32, T> {
        Map::new(|id: u32| self.live(id), |id: u32| self.value(id))
    }

    /// The identifiers that have values, in the order in which the values are kept.
    pub closed spec fn dense_order(self) -> Seq<u32> {
        self.dense_ids@
    }

    /// Identifiers and dense positions point at each other.
    pub closed spec fn wf(self) -> bool {
        &&& self.slots@.len() <= u32::MAX
        &&& self.dense_ids@.len() == self.values@.len()
        &&& self.values@.len() <= self.slots@.len()
        &&& forall|id: u32| #[trigger]
            self.live(id) ==> {
                &&& self.slots@[id - 1] <= self.values@.len()
                &&& self.dense_ids@[self.slots@[id - 1] - 1] == id
            }
        &&& forall|i: int|
            0 <= i < self.values@.len() ==> self.live(#[trigger] self.dense_ids@[i])
                && self.slots@[self.dense_ids@[i] - 1] == i + 1
    }

    /// Which identifiers have values.
    pub broadcast proof fn lemma_live(self, id: u32)
        ensures
            #![trigger self@.contains_key(id)]
            self@.contains_key(id) == self.live(id),
            self.live(id) ==> 1 <= id <= self.spec_slot_count(),
            self.spec_slot_count() >= 0,
    {
    }

    /// A store without values.
    pub fn new() -> (result: Self)
        ensures
            result.wf(),
            result.spec_slot_count() == 0,
            result@ == Map::<u32, T>::empty(),
            result.spec_len() == 0,
            result.dense_order() == Seq::<u32>::empty(),
    {
        let result = DenseIdStore { slots: Vec::new(), dense_ids: Vec::new(), values: Vec::new() };
        assert(result@ =~= Map::<u32, T>::empty());
        assert(result.dense_order() =~= Seq::<u32>::empty());
        result
    }

    /// The number of values.
    pub closed spec fn spec_len(self) -> int {
        self.values@.len() as int
    }

    /// The number of values.
    pub fn len(&self) -> (result: usize)
        ensures
            result == self.spec_len(),
    {
        self.values.len()
    }

    /// The number of identifiers given out so far.
    pub fn slot_count(&self) -> (result: usize)
        ensures
            result == self.spec_slot_count(),
    {
        self.slots.len()
    }

    /// Stores a value under the next identifier.
    pub fn insert(&mut self, value: T) -> (result: u32)
        requires
            old(self).wf(),
            old(self).spec_slot_count() < u32::MAX,
        ensures
            final(self).wf(),
            result == old(self).spec_slot_count() + 1,
            !old(self)@.contains_key(result),
            final(self).spec_slot_count() == old(self).spec_slot_count() + 1,
            final(self).spec_len() == old(self).spec_len() + 1,
            final(self)@ == old(self)@.insert(result, value),
            final(self).dense_order() == old(self).dense_order().push(result),
    {
        let id: u32 = self.slots.len() as u32 + 1;
        let position: u32 = self.values.len() as u32 + 1;
        self.slots.push(position);
        self.dense_ids.push(id);
        self.values.push(value);
        proof {
            assert forall|other: u32| #[trigger] self.live(other) == (old(self).live(other) || other
                == id) by {}
            assert forall|other: u32| #[trigger] old(self).live(other) implies self.value(other)
                == old(self).value(other) by {}
            assert(self@ =~= old(self)@.insert(id, value));
            assert forall|i: int| 0 <= i < self.values@.len() implies self.live(
                #[trigger] self.dense_ids@[i],
            ) && self.slots@[self.dense_ids@[i] - 1] == i + 1 by {
                if i < old(self).values@.len() {
                    assert(old(self).live(old(self).dense_ids@[i]));
                }
            }
        }
        id
    }

    /// The value under an identifier.
    pub fn get(&self, id: u32) -> (result: Option<&T>)
        requires
            self.wf(),
        ensures
            self@.contains_key(id) ==> (result matches Some(value) && *value == self@[id]),
            !self@.contains_key(id) ==> result is None,
    {
        if self.has(id) {
            let position: u32 = self.slots[(id - 1) as usize];
            Some(&self.values[(position - 1) as usize])
        } else {
            None
        }
    }

    /// Whether a value stands under the identifier.
    pub fn has(&self, id: u32) -> (result: bool)
        ensures
            result == self@.contains_key(id),
    {
        id != 0 && ((id - 1) as usize) < self.slots.len() && self.slots[(id - 1) as usize] != 0
    }

    /// The value under an identifier, to be changed.
    pub fn get_mut(&mut self, id: u32) -> (result: &mut T)
        requires
            old(self).wf(),
            old(self)@.contains_key(id),
        ensures
            *result == old(self)@[id],
            final(self).wf(),
            final(self).spec_slot_count() == old(self).spec_slot_count(),
            final(self).spec_len() == old(self).spec_len(),
            final(self)@ == old(self)@.insert(id, *final(result)),
            final(self).dense_order() == old(self).dense_order(),
    {
        let position: u32 = self.slots[(id - 1) as usize];
        proof {
            assert forall|other: Self|
                other.slots == self.slots && other.dense_ids == self.dense_ids
                    && other.values@.len() == self.values@.len() implies #[trigger] other.wf() by {
                assert forall|x: u32| #[trigger] other.live(x) == self.live(x) by {}
                assert forall|i: int| 0 <= i < other.values@.len() implies other.live(
                    #[trigger] other.dense_ids@[i],
                ) && other.slots@[other.dense_ids@[i] - 1] == i + 1 by {
                    assert(self.live(self.dense_ids@[i]));
                }
            }
            assert(self.live(id));
            assert forall|x: u32| #[trigger] self.live(x) && x != id implies self.slots@[x - 1]
                != self.slots@[id - 1] by {}
        }
        &mut self.values[(position - 1) as usize]
    }

    /// Takes the value under an identifier out; the identifier is retired, and the last one in the
    /// dense order takes its place there.
    pub fn remove(&mut self, id: u32) -> (result: Option<T>)
        requires
            old(self).wf(),
        ensures
            final(self).wf(),
            final(self).spec_slot_count() == old(self).spec_slot_count(),
            final(self)@ == old(self)@.remove(id),
            old(self)@.contains_key(id) ==> result == Some(old(self)@[id]) && final(self).spec_len()
                == old(self).spec_len() - 1,
            !old(self)@.contains_key(id) ==> result is None && final(self).spec_len() == old(
                self,
            ).spec_len(),
            final(self).dense_order() == dropped(old(self).dense_order(), id),
    {
        if !self.has(id) {
            proof {
                self.lemma_dense_order();
                self.dense_order().index_of_first_ensures(id);
            }
            assert(self@ =~= self@.remove(id));
            return None;
        }
        assert(self.live(id));
        let dense: usize = (self.slots[(id - 1) as usize] - 1) as usize;
        self.slots.set((id - 1) as usize, 0);
        self.dense_ids.swap_remove(dense);
        let value = self.values.swap_remove(dense);
        let ghost last = old(self).values@.len() - 1;
        if dense < self.values.len() {
            let moved: u32 = self.dense_ids[dense];
            assert(old(self).live(old(self).dense_ids@[last]));
            self.slots.set((moved - 1) as usize, dense as u32 + 1);
        }
        proof {
            assert(old(self).live(old(self).dense_ids@[last]));
            assert forall|other: u32| #[trigger] self.live(other) == (old(self).live(other) && other
                != id) by {}
            assert forall|other: u32| #[trigger] self.live(other) implies {
                &&& self.slots@[other - 1] <= self.values@.len()
                &&& self.dense_ids@[self.slots@[other - 1] - 1] == other
                &&& self.value(other) == old(self).value(other)
            } by {
                assert(old(self).live(other));
            }
            assert forall|i: int| 0 <= i < self.values@.len() implies self.live(
                #[trigger] self.dense_ids@[i],
            ) && self.slots@[self.dense_ids@[i] - 1] == i + 1 by {
                let from = if i == dense {
                    last
                } else {
                    i
                };
                assert(self.dense_ids@[i] == old(self).dense_ids@[from]);
                assert(old(self).live(old(self).dense_ids@[from]));
                assert(old(self).live(id));
            }
            assert(self@ =~= old(self)@.remove(id));
            old(self).lemma_dense_order();
            assert(old(self).dense_order()[dense as int] == id);
            lemma_dropped_at(old(self).dense_order(), id, dense as int);
            assert(self.dense_order() =~= dropped(old(self).dense_order(), id));
        }
        Some(value)
    }

    /// The dense order names each identifier that has a value once.
    pub proof fn lemma_dense_order(self)
        requires
            self.wf(),
        ensures
            self.dense_order().no_duplicates(),
            self.dense_order().len() == self.spec_len(),
            forall|id: u32| #[trigger] self.dense_order().contains(id) <==> self@.contains_key(id),
    {
        let ids = self.dense_ids@;
        assert forall|i: int, j: int| 0 <= i < ids.len() && 0 <= j < ids.len() && i
            != j implies ids[i] != ids[j] by {
            assert(self.live(self.dense_ids@[i]));
            assert(self.live(self.dense_ids@[j]));
        }
        assert forall|id: u32| #[trigger] ids.contains(id) <==> self@.contains_key(id) by {
            if ids.contains(id) {
                let i = choose|i: int| 0 <= i < ids.len() && ids[i] == id;
                assert(self.live(self.dense_ids@[i]));
            }
            if self.live(id) {
                assert(ids[self.slots@[id - 1] - 1] == id);
            }
        }
    }

    /// The identifiers that have values, each once, in the order in which the values are kept.
    pub fn ids(&self) -> (result: Vec<u32>)
        requires
            self.wf(),
        ensures
            result@ == self.dense_order(),
            result@.no_duplicates(),
            result@.len() == self.spec_len(),
            forall|id: u32| #[trigger] result@.contains(id) <==> self@.contains_key(id),
    {
        let mut ids: Vec<u32> = Vec::new();
        let mut index: usize = 0;
        while index < self.dense_ids.len()
            invariant
                index <= self.dense_ids@.len(),
                ids@ == self.dense_ids@.take(index as int),
            decreases self.dense_ids@.len() - index,
        {
            ids.push(self.dense_ids[index]);
            index = index + 1;
            assert(ids@ =~= self.dense_ids@.take(index as int));
        }
        assert(ids@ =~= self.dense_ids@);
        proof {
            self.lemma_dense_order();
        }
        ids
    }

    /// The number of values is the number of identifiers that have one.
    pub proof fn law_length_counts_the_values(self)
        requires
            self.wf(),
        ensures
            self@.dom().finite(),
            self@.dom().len() == self.spec_len(),
    {
        let ids = self.dense_order();
        self.lemma_dense_order();
        ids.unique_seq_to_set();
        assert(self@.dom() =~= ids.to_set()) by {
            assert forall|id: u32| self@.dom().contains(id) == ids.to_set().contains(id) by {
                assert(ids.contains(id) <==> self@.contains_key(id));
            }
        }
    }
}

/// An identifier that was taken out of a store is not given out again: the next one is new, whatever
/// else was taken out or put in since.
pub proof fn law_retired_ids_are_not_reused<T>(
    store: DenseIdStore<T>,
    later: DenseIdStore<T>,
    id: u32,
)
    requires
        store.wf(),
        store@.contains_key(id),
        later.spec_slot_count() >= store.spec_slot_count(),
    ensures
        id != later.spec_slot_count() + 1,
{
    broadcast use DenseIdStore::lemma_live;

}

} // verus!
