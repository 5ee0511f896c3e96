//! The values that the programs of an island work on.

use crate::bindings::InputSlot;
use crate::matrix_program::ValueSlot;
use vstd::prelude::*;

verus! {

/// Values, as bit patterns, by their slots.
#[derive(Debug)]
pub struct ValueWorkspace {
    values: Vec<u64>,
}

impl ValueWorkspace {
    pub closed spec fn view(self) -> Seq<u64> {
        self.values@
    }

    /// The values, all zero.
    pub fn new(count: usize) -> (result: Self)
        ensures
            result@ == Seq::new(count as nat, |i: int| 0u64),
    {
        let mut values: Vec<u64> = Vec::new();
        while values.len() < count
            invariant
                values@.len() <= count,
                forall|i: int| 0 <= i < values@.len() ==> #[trigger] values@[i] == 0,
            decreases count - values@.len(),
        {
            values.push(0);
        }
        assert(values@ =~= Seq::new(count as nat, |i: int| 0u64));
        ValueWorkspace { values }
    }

    pub fn len(&self) -> (result: usize)
        ensures
            result == self@.len(),
    {
        self.values.len()
    }

    pub fn value(&self, slot: ValueSlot) -> (result: u64)
        requires
            slot.value() < self@.len(),
        ensures
            result == self@[slot.value() as int],
    {
        self.values[slot.index()]
    }

    pub fn set_input(&mut self, input: InputSlot, value: u64)
        requires
            input.spec_value() < old(self)@.len(),
        ensures
            final(self)@ == old(self)@.update(input.spec_value() as int, value),
    {
        self.values.set(input.index(), value);
    }

    pub fn values(&self) -> (result: &[u64])
        ensures
            result@ == self@,
    {
        self.values.as_slice()
    }

    /// The values, to be changed by a program that was executed on them.
    pub fn values_mut(&mut self) -> (result: &mut Vec<u64>)
        ensures
            (*result)@ == old(self)@,
            final(self)@ == (*final(result))@,
    {
        &mut self.values
    }
}

} // verus!
