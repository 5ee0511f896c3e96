//! Short lists that keep their first items inline.
//!
//! Both kinds hold a `SmallVec` of machine words: identifiers, or packed references.

use smallvec::SmallVec;
use vstd::prelude::*;

verus! {

/// The numbers of a sequence of items.
pub open spec fn numbers<T>(items: Seq<T>, number: spec_fn(T) -> u32) -> Seq<u32> {
    Seq::new(items.len(), |i: int| number(items[i]))
}

/// What is left of `items` once the item at `index` is taken out and the last one moved there.
pub open spec fn swap_removed<T>(items: Seq<T>, index: int) -> Seq<T> {
    items.update(index, items.last()).drop_last()
}

/// Taking an item out of a list without duplicates leaves the other items, each once.
pub proof fn lemma_swap_removed<T>(items: Seq<T>, index: int)
    requires
        0 <= index < items.len(),
        items.no_duplicates(),
    ensures
        swap_removed(items, index).len() == items.len() - 1,
        swap_removed(items, index).no_duplicates(),
        forall|item: T|
            #![trigger swap_removed(items, index).contains(item)]
            #![trigger items.contains(item)]
            swap_removed(items, index).contains(item) <==> (items.contains(item) && item
                != items[index]),
{
    let rest = swap_removed(items, index);
    let last = items.len() - 1;
    assert forall|item: T|
        #![trigger rest.contains(item)]
        #![trigger items.contains(item)]
        rest.contains(item) <==> (items.contains(item) && item != items[index]) by {
        if rest.contains(item) {
            let i = choose|i: int| 0 <= i < rest.len() && rest[i] == item;
            let from = if i == index {
                last
            } else {
                i
            };
            assert(items[from] == item);
        }
        if items.contains(item) && item != items[index] {
            let i = choose|i: int| 0 <= i < items.len() && items[i] == item;
            if i == last {
                assert(rest[index] == item);
            } else {
                assert(rest[i] == item);
            }
        }
    }
}

/// What is left of `items` once the first `item` is taken out and the last one moved there; all of
/// them where it is not among them.
pub open spec fn dropped<T>(items: Seq<T>, item: T) -> Seq<T> {
    match items.index_of_first(item) {
        Some(index) => swap_removed(items, index),
        None => items,
    }
}

/// Where an item stands first is where it is taken out.
pub proof fn lemma_dropped_at<T>(items: Seq<T>, item: T, index: int)
    requires
        0 <= index < items.len(),
        items[index] == item,
        forall|i: int| 0 <= i < index ==> items[i] != item,
    ensures
        dropped(items, item) == swap_removed(items, index),
{
    items.index_of_first_ensures(item);
    assert(items.contains(item));
    let first = items.index_of_first(item)->Some_0;
    assert(items[first] == item);
}

/// Dropping an item from a list without duplicates leaves the other items, each once.
pub proof fn lemma_dropped<T>(items: Seq<T>, item: T)
    requires
        items.no_duplicates(),
    ensures
        dropped(items, item).no_duplicates(),
        !items.contains(item) ==> dropped(items, item) == items,
        forall|other: T|
            #![trigger dropped(items, item).contains(other)]
            #![trigger items.contains(other)]
            dropped(items, item).contains(other) <==> (items.contains(other) && other != item),
{
    items.index_of_first_ensures(item);
    if items.contains(item) {
        lemma_swap_removed(items, items.index_of_first(item)->Some_0);
    }
}

/// A list of identifiers, by their numbers; up to four are kept inline.
#[verifier::external_body]
#[derive(Debug, PartialEq, Eq)]
pub struct IdList {
    inner: SmallVec<[u32; 4]>,
}

/// The items that an `IdList` holds, in order.
pub uninterp spec fn id_list_items(list: IdList) -> Seq<u32>;

impl View for IdList {
    type V = Seq<u32>;

    open spec fn view(&self) -> Seq<u32> {
        id_list_items(*self)
    }
}

impl IdList {
    /// `SmallVec::new`: a list without items.
    #[verifier::external_body]
    pub(crate) fn new() -> (result: Self)
        ensures
            id_list_items(result) == Seq::<u32>::empty(),
    {
        IdList { inner: SmallVec::new() }
    }

    /// `SmallVec::len`: the number of items.
    #[verifier::external_body]
    pub(crate) fn len(&self) -> (result: usize)
        ensures
            result == id_list_items(*self).len(),
    {
        self.inner.len()
    }

    /// Indexing into the slice of a `SmallVec`: the item at `index`.
    #[verifier::external_body]
    pub(crate) fn get(&self, index: usize) -> (result: u32)
        requires
            index < id_list_items(*self).len(),
        ensures
            result == id_list_items(*self)[index as int],
    {
        self.inner[index]
    }

    /// `SmallVec::push`: one more item, at the end. Growth beyond the address space is not modelled.
    #[verifier::external_body]
    pub(crate) fn push(&mut self, item: u32)
        ensures
            id_list_items(*final(self)) == id_list_items(*old(self)).push(item),
    {
        self.inner.push(item)
    }

    /// `SmallVec::swap_remove`: takes the item at `index` out and moves the last one there.
    #[verifier::external_body]
    pub(crate) fn swap_remove(&mut self, index: usize) -> (result: u32)
        requires
            index < id_list_items(*old(self)).len(),
        ensures
            result == id_list_items(*old(self))[index as int],
            id_list_items(*final(self)) == swap_removed(id_list_items(*old(self)), index as int),
    {
        self.inner.swap_remove(index)
    }

    /// The items, in order.
    pub fn to_vec(&self) -> (result: Vec<u32>)
        ensures
            result@ == self@,
    {
        let mut items: Vec<u32> = Vec::new();
        while items.len() < self.len()
            invariant
                items@.len() <= self@.len(),
                items@ == self@.take(items@.len() as int),
            decreases self@.len() - items@.len(),
        {
            items.push(self.get(items.len()));
            assert(items@ =~= self@.take(items@.len() as int));
        }
        assert(self@.take(self@.len() as int) =~= self@);
        items
    }

    /// Whether `item` is in the list.
    pub fn contains(&self, item: u32) -> (result: bool)
        ensures
            result == self@.contains(item),
    {
        self.position(item).is_some()
    }

    /// The first position at which `item` stands.
    pub fn position(&self, item: u32) -> (result: Option<usize>)
        ensures
            match result {
                Some(index) => index < self@.len() && self@[index as int] == item && forall|i: int|
                    0 <= i < index ==> self@[i] != item,
                None => !self@.contains(item),
            },
    {
        let mut index: usize = 0;
        while index < self.len()
            invariant
                index <= self@.len(),
                forall|i: int| 0 <= i < index ==> self@[i] != item,
            decreases self@.len() - index,
        {
            if self.get(index) == item {
                return Some(index);
            }
            index = index + 1;
        }
        None
    }
}

/// A list of packed references; up to two are kept inline.
#[verifier::external_body]
#[derive(Debug, PartialEq, Eq)]
pub struct WordList {
    inner: SmallVec<[u64; 2]>,
}

/// The items that a `WordList` holds, in order.
pub uninterp spec fn word_list_items(list: WordList) -> Seq<u64>;

impl View for WordList {
    type V = Seq<u64>;

    open spec fn view(&self) -> Seq<u64> {
        word_list_items(*self)
    }
}

impl WordList {
    /// `SmallVec::new`: a list without items.
    #[verifier::external_body]
    pub(crate) fn new() -> (result: Self)
        ensures
            word_list_items(result) == Seq::<u64>::empty(),
    {
        WordList { inner: SmallVec::new() }
    }

    /// `SmallVec::len`: the number of items.
    #[verifier::external_body]
    pub(crate) fn len(&self) -> (result: usize)
        ensures
            result == word_list_items(*self).len(),
    {
        self.inner.len()
    }

    /// Indexing into the slice of a `SmallVec`: the item at `index`.
    #[verifier::external_body]
    pub(crate) fn get(&self, index: usize) -> (result: u64)
        requires
            index < word_list_items(*self).len(),
        ensures
            result == word_list_items(*self)[index as int],
    {
        self.inner[index]
    }

    /// `SmallVec::push`: one more item, at the end. Growth beyond the address space is not modelled.
    #[verifier::external_body]
    pub(crate) fn push(&mut self, item: u64)
        ensures
            word_list_items(*final(self)) == word_list_items(*old(self)).push(item),
    {
        self.inner.push(item)
    }

    /// `SmallVec::swap_remove`: takes the item at `index` out and moves the last one there.
    #[verifier::external_body]
    pub(crate) fn swap_remove(&mut self, index: usize) -> (result: u64)
        requires
            index < word_list_items(*old(self)).len(),
        ensures
            result == word_list_items(*old(self))[index as int],
            word_list_items(*final(self)) == swap_removed(
                word_list_items(*old(self)),
                index as int,
            ),
    {
        self.inner.swap_remove(index)
    }

    /// The items, in order.
    pub fn to_vec(&self) -> (result: Vec<u64>)
        ensures
            result@ == self@,
    {
        let mut items: Vec<u64> = Vec::new();
        while items.len() < self.len()
            invariant
                items@.len() <= self@.len(),
                items@ == self@.take(items@.len() as int),
            decreases self@.len() - items@.len(),
        {
            items.push(self.get(items.len()));
            assert(items@ =~= self@.take(items@.len() as int));
        }
        assert(self@.take(self@.len() as int) =~= self@);
        items
    }

    /// Whether `item` is in the list.
    pub fn contains(&self, item: u64) -> (result: bool)
        ensures
            result == self@.contains(item),
    {
        self.position(item).is_some()
    }

    /// The first position at which `item` stands.
    pub fn position(&self, item: u64) -> (result: Option<usize>)
        ensures
            match result {
                Some(index) => index < self@.len() && self@[index as int] == item && forall|i: int|
                    0 <= i < index ==> self@[i] != item,
                None => !self@.contains(item),
            },
    {
        let mut index: usize = 0;
        while index < self.len()
            invariant
                index <= self@.len(),
                forall|i: int| 0 <= i < index ==> self@[i] != item,
            decreases self@.len() - index,
        {
            if self.get(index) == item {
                return Some(index);
            }
            index = index + 1;
        }
        None
    }
}

} // verus!
