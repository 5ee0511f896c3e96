//! Adding values to the entries of a matrix.

use crate::float_bits::{float_eq, float_eq_bits};
use crate::pattern::{ascending, dedup_coordinates, precedes, sort_coordinates, MatrixSlot};
use vstd::prelude::*;

verus! {

/// The place of a value in a workspace.
#[derive(Debug, Clone, Copy, PartialEq, Eq, PartialOrd, Ord, Hash, Structural)]
pub struct ValueSlot {
    raw: u32,
}

impl ValueSlot {
    pub closed spec fn value(self) -> u32 {
        self.raw
    }

    pub fn new(index: u32) -> (result: Self)
        ensures
            result.value() == index,
    {
        ValueSlot { raw: index }
    }

    pub fn index(self) -> (result: usize)
        ensures
            result == self.value(),
    {
        self.raw as usize
    }
}

/// Adds a value, times a scale, to an entry. The scale is a bit pattern.
#[derive(Debug, Clone, Copy, PartialEq, Eq, Structural)]
pub struct MatrixAdd {
    destination: MatrixSlot,
    source: ValueSlot,
    scale: u64,
}

impl MatrixAdd {
    pub closed spec fn spec_destination(self) -> MatrixSlot {
        self.destination
    }

    pub closed spec fn spec_source(self) -> ValueSlot {
        self.source
    }

    pub closed spec fn spec_scale(self) -> u64 {
        self.scale
    }

    /// Where the value goes and where it comes from.
    pub open spec fn key(self) -> (u32, u32) {
        (self.spec_destination().value(), self.spec_source().value())
    }

    pub fn new(destination: MatrixSlot, source: ValueSlot, scale: u64) -> (result: Self)
        ensures
            result.spec_destination() == destination,
            result.spec_source() == source,
            result.spec_scale() == scale,
    {
        MatrixAdd { destination, source, scale }
    }

    pub fn destination(self) -> (result: MatrixSlot)
        ensures
            result == self.spec_destination(),
    {
        self.destination
    }

    pub fn source(self) -> (result: ValueSlot)
        ensures
            result == self.spec_source(),
    {
        self.source
    }

    pub fn scale(self) -> (result: u64)
        ensures
            result == self.spec_scale(),
    {
        self.scale
    }
}

/// The scales, other than zero, of the operations with a key, in order.
pub open spec fn scales_for(ops: Seq<MatrixAdd>, key: (u32, u32)) -> Seq<u64>
    decreases ops.len(),
{
    if ops.len() == 0 {
        Seq::empty()
    } else {
        let rest = scales_for(ops.drop_last(), key);
        if ops.last().key() == key && !float_eq(ops.last().spec_scale(), 0) {
            rest.push(ops.last().spec_scale())
        } else {
            rest
        }
    }
}

/// The operations between one entry and one value.
#[derive(Debug)]
pub struct MatrixGroup {
    destination: MatrixSlot,
    source: ValueSlot,
    scales: Vec<u64>,
}

impl MatrixGroup {
    pub closed spec fn spec_destination(self) -> MatrixSlot {
        self.destination
    }

    pub closed spec fn spec_source(self) -> ValueSlot {
        self.source
    }

    pub open spec fn key(self) -> (u32, u32) {
        (self.spec_destination().value(), self.spec_source().value())
    }

    pub closed spec fn spec_scales(self) -> Seq<u64> {
        self.scales@
    }

    /// The scales that have to be added up.
    pub fn scales(&self) -> (result: &[u64])
        ensures
            result@ == self.spec_scales(),
    {
        self.scales.as_slice()
    }
}

/// The keys of groups.
pub open spec fn group_keys(groups: Seq<MatrixGroup>) -> Seq<(u32, u32)> {
    Seq::new(groups.len(), |i: int| groups[i].key())
}

/// The position of a key in ascending keys.
fn find_group(groups: &Vec<MatrixGroup>, destination: u32, source: u32) -> (result: usize)
    requires
        ascending(group_keys(groups@)),
        group_keys(groups@).contains((destination, source)),
    ensures
        result < groups@.len(),
        groups@[result as int].key() == (destination, source),
{
    let ghost keys = group_keys(groups@);
    let ghost wanted = (destination, source);
    let ghost place = choose|i: int| 0 <= i < keys.len() && keys[i] == wanted;
    let mut low: usize = 0;
    let mut high: usize = groups.len();
    while low < high
        invariant
            keys == group_keys(groups@),
            ascending(keys),
            wanted == (destination, source),
            0 <= place < keys.len(),
            keys[place] == wanted,
            low <= place < high <= groups@.len(),
        decreases high - low,
    {
        let middle: usize = low + (high - low) / 2;
        let at_destination: u32 = groups[middle].destination.index() as u32;
        let at_source: u32 = groups[middle].source.index() as u32;
        assert(keys[middle as int] == (at_destination, at_source));
        if at_destination == destination && at_source == source {
            return middle;
        }
        proof {
            if middle < place {
                assert(precedes(keys[middle as int], keys[place]));
            }
            if place < middle {
                assert(precedes(keys[place], keys[middle as int]));
            }
        }
        if at_destination < destination || (at_destination == destination && at_source < source) {
            low = middle + 1;
        } else {
            high = middle;
        }
    }
    low
}

/// What scales an operation adds.
proof fn lemma_scales_step(ops: Seq<MatrixAdd>, index: int, key: (u32, u32))
    requires
        0 <= index < ops.len(),
    ensures
        scales_for(ops.take(index + 1), key) == if ops[index].key() == key && !float_eq(
            ops[index].spec_scale(),
            0,
        ) {
            scales_for(ops.take(index), key).push(ops[index].spec_scale())
        } else {
            scales_for(ops.take(index), key)
        },
{
    assert(ops.take(index + 1).drop_last() =~= ops.take(index));
    assert(ops.take(index + 1).last() == ops[index]);
}

/// Groups operations by entry and value, in ascending order. Operations that scale by zero are left
/// out.
pub fn group_operations(ops: &Vec<MatrixAdd>) -> (result: Vec<MatrixGroup>)
    ensures
        ascending(group_keys(result@)),
        forall|i: int|
            0 <= i < result@.len() ==> (#[trigger] result@[i]).spec_scales() == scales_for(
                ops@,
                result@[i].key(),
            ),
        forall|key: (u32, u32)| #[trigger]
            group_keys(result@).contains(key) <==> scales_for(ops@, key).len() > 0,
{
    let mut keys: Vec<(u32, u32)> = Vec::new();
    let mut index: usize = 0;
    while index < ops.len()
        invariant
            index <= ops@.len(),
            forall|key: (u32, u32)| #[trigger]
                keys@.contains(key) <==> scales_for(ops@.take(index as int), key).len() > 0,
        decreases ops@.len() - index,
    {
        let op = ops[index];
        let ghost before = keys@;
        if !float_eq_bits(op.scale, 0) {
            keys.push((op.destination.index() as u32, op.source.index() as u32));
            proof {
                crate::traversal::lemma_push_contains(before, op.key());
            }
        }
        proof {
            assert forall|key: (u32, u32)| #[trigger] keys@.contains(key) <==> scales_for(
                ops@.take(index + 1),
                key,
            ).len() > 0 by {
                lemma_scales_step(ops@, index as int, key);
                assert(before.contains(key) <==> scales_for(ops@.take(index as int), key).len()
                    > 0);
            }
        }
        index = index + 1;
    }
    let ghost found = keys@;
    assert(ops@.take(ops@.len() as int) =~= ops@);
    sort_coordinates(&mut keys);
    let ghost sorted = keys@;
    let unique = dedup_coordinates(&keys);
    proof {
        sorted.to_multiset_ensures();
        found.to_multiset_ensures();
        assert forall|key: (u32, u32)| #[trigger] unique@.contains(key) <==> found.contains(
            key,
        ) by {
            assert(sorted.to_multiset().count(key) == found.to_multiset().count(key));
            assert(unique@.contains(key) <==> sorted.contains(key));
        }
    }
    let mut groups: Vec<MatrixGroup> = Vec::new();
    let mut at: usize = 0;
    while at < unique.len()
        invariant
            at <= unique@.len(),
            groups@.len() == at,
            forall|i: int|
                0 <= i < at ==> (#[trigger] groups@[i]).key() == unique@[i]
                    && groups@[i].spec_scales() == Seq::<u64>::empty(),
        decreases unique@.len() - at,
    {
        let key = unique[at];
        groups.push(
            MatrixGroup {
                destination: MatrixSlot::from_raw(key.0),
                source: ValueSlot::new(key.1),
                scales: Vec::new(),
            },
        );
        at = at + 1;
    }
    assert(group_keys(groups@) =~= unique@);
    let mut position: usize = 0;
    proof {
        assert forall|i: int| 0 <= i < groups@.len() implies (#[trigger] groups@[i]).spec_scales()
            == scales_for(ops@.take(0), groups@[i].key()) by {}
    }
    while position < ops.len()
        invariant
            position <= ops@.len(),
            group_keys(groups@) == unique@,
            ascending(unique@),
            forall|key: (u32, u32)| #[trigger]
                unique@.contains(key) <==> scales_for(ops@, key).len() > 0,
            forall|i: int|
                0 <= i < groups@.len() ==> (#[trigger] groups@[i]).spec_scales() == scales_for(
                    ops@.take(position as int),
                    groups@[i].key(),
                ),
        decreases ops@.len() - position,
    {
        let op = ops[position];
        let ghost before = groups@;
        if !float_eq_bits(op.scale, 0) {
            proof {
                lemma_scales_kept(ops@, position as int, op.key());
                lemma_scales_step(ops@, position as int, op.key());
            }
            let group: usize = find_group(
                &groups,
                op.destination.index() as u32,
                op.source.index() as u32,
            );
            groups[group].scales.push(op.scale);
            proof {
                assert(group_keys(groups@) =~= unique@) by {
                    assert forall|i: int| 0 <= i < groups@.len() implies (#[trigger] groups@[i]).key()
                        == unique@[i] by {
                        assert(before[i].key() == group_keys(before)[i]);
                    }
                }
                assert forall|i: int|
                    0 <= i < groups@.len() implies (#[trigger] groups@[i]).spec_scales()
                    == scales_for(ops@.take(position + 1), groups@[i].key()) by {
                    lemma_scales_step(ops@, position as int, groups@[i].key());
                    assert(before[i].spec_scales() == scales_for(
                        ops@.take(position as int),
                        before[i].key(),
                    ));
                    if i != group {
                        assert(groups@[i].key() != op.key()) by {
                            assert(unique@[i] == group_keys(groups@)[i]);
                            assert(unique@[group as int] == group_keys(groups@)[group as int]);
                            if i < group {
                                assert(precedes(unique@[i], unique@[group as int]));
                            } else {
                                assert(precedes(unique@[group as int], unique@[i]));
                            }
                        }
                    }
                }
            }
        } else {
            proof {
                assert forall|i: int|
                    0 <= i < groups@.len() implies (#[trigger] groups@[i]).spec_scales()
                    == scales_for(ops@.take(position + 1), groups@[i].key()) by {
                    lemma_scales_step(ops@, position as int, groups@[i].key());
                }
            }
        }
        position = position + 1;
    }
    groups
}

/// What has been found stays found.
proof fn lemma_scales_kept(ops: Seq<MatrixAdd>, index: int, key: (u32, u32))
    requires
        0 <= index < ops.len(),
        ops[index].key() == key,
        !float_eq(ops[index].spec_scale(), 0),
    ensures
        scales_for(ops, key).len() > 0,
    decreases ops.len(),
{
    if index == ops.len() - 1 {
    } else {
        assert(ops.drop_last()[index] == ops[index]);
        lemma_scales_kept(ops.drop_last(), index, key);
    }
}

/// The operations of the first groups whose sum is not zero.
pub open spec fn summed(groups: Seq<MatrixGroup>, sums: Seq<u64>, count: int) -> Seq<
    ((u32, u32), u64),
>
    decreases count,
{
    if count <= 0 {
        Seq::empty()
    } else {
        let rest = summed(groups, sums, count - 1);
        if float_eq(sums[count - 1], 0) {
            rest
        } else {
            rest.push((groups[count - 1].key(), sums[count - 1]))
        }
    }
}

/// How many values operations read at least.
pub open spec fn values_needed(ops: Seq<MatrixAdd>) -> int
    decreases ops.len(),
{
    if ops.len() == 0 {
        0
    } else {
        let rest = values_needed(ops.drop_last());
        let last = ops.last().spec_source().value() + 1;
        if last > rest {
            last
        } else {
            rest
        }
    }
}

/// How many entries operations write at least.
pub open spec fn entries_needed(ops: Seq<MatrixAdd>) -> int
    decreases ops.len(),
{
    if ops.len() == 0 {
        0
    } else {
        let rest = entries_needed(ops.drop_last());
        let last = ops.last().spec_destination().value() + 1;
        if last > rest {
            last
        } else {
            rest
        }
    }
}

/// Operations on a matrix: at most one for each entry and value, in ascending order.
#[derive(Debug)]
pub struct MatrixProgram {
    ops: Vec<MatrixAdd>,
    required_values: u64,
    required_matrix_values: u64,
}

impl MatrixProgram {
    pub closed spec fn spec_ops(self) -> Seq<MatrixAdd> {
        self.ops@
    }

    pub closed spec fn spec_required_values(self) -> int {
        self.required_values as int
    }

    pub closed spec fn spec_required_matrix_values(self) -> int {
        self.required_matrix_values as int
    }

    /// The program says how much it needs.
    pub open spec fn wf(self) -> bool {
        &&& self.spec_required_values() == values_needed(self.spec_ops())
        &&& self.spec_required_matrix_values() == entries_needed(self.spec_ops())
    }

    /// The program of groups whose scales add up to the given sums. Where a sum is zero there is
    /// nothing to do.
    pub fn new(groups: &Vec<MatrixGroup>, sums: &Vec<u64>) -> (result: Self)
        requires
            sums@.len() == groups@.len(),
        ensures
            result.wf(),
            result.spec_ops().len() == summed(groups@, sums@, groups@.len() as int).len(),
            forall|i: int|
                0 <= i < result.spec_ops().len() ==> ((#[trigger] result.spec_ops()[i]).key(),
                    result.spec_ops()[i].spec_scale(),
                ) == summed(groups@, sums@, groups@.len() as int)[i],
    {
        let mut ops: Vec<MatrixAdd> = Vec::new();
        let mut required_values: u64 = 0;
        let mut required_matrix_values: u64 = 0;
        let mut index: usize = 0;
        while index < groups.len()
            invariant
                index <= groups@.len() == sums@.len(),
                required_values == values_needed(ops@),
                required_matrix_values == entries_needed(ops@),
                ops@.len() == summed(groups@, sums@, index as int).len(),
                forall|i: int|
                    0 <= i < ops@.len() ==> ((#[trigger] ops@[i]).key(), ops@[i].spec_scale())
                        == summed(groups@, sums@, index as int)[i],
            decreases groups@.len() - index,
        {
            let group = &groups[index];
            let sum: u64 = sums[index];
            if !float_eq_bits(sum, 0) {
                let ghost before = ops@;
                ops.push(
                    MatrixAdd { destination: group.destination, source: group.source, scale: sum },
                );
                assert(ops@.drop_last() =~= before);
                let source: u64 = group.source.index() as u64;
                let destination: u64 = group.destination.index() as u64;
                if source + 1 > required_values {
                    required_values = source + 1;
                }
                if destination + 1 > required_matrix_values {
                    required_matrix_values = destination + 1;
                }
            }
            index = index + 1;
        }
        MatrixProgram { ops, required_values, required_matrix_values }
    }

    pub fn is_empty(&self) -> (result: bool)
        ensures
            result == (self.spec_ops().len() == 0),
    {
        self.ops.len() == 0
    }

    pub fn len(&self) -> (result: usize)
        ensures
            result == self.spec_ops().len(),
    {
        self.ops.len()
    }

    pub fn required_value_count(&self) -> (result: u64)
        ensures
            result == self.spec_required_values(),
    {
        self.required_values
    }

    pub fn required_matrix_value_count(&self) -> (result: u64)
        ensures
            result == self.spec_required_matrix_values(),
    {
        self.required_matrix_values
    }

    pub fn ops(&self) -> (result: &[MatrixAdd])
        ensures
            result@ == self.spec_ops(),
    {
        self.ops.as_slice()
    }

    /// Whether a workspace and a matrix are large enough for every operation.
    pub fn fits(&self, value_count: usize, matrix_value_count: usize) -> (result: bool)
        requires
            self.wf(),
        ensures
            result == (value_count >= self.spec_required_values() && matrix_value_count
                >= self.spec_required_matrix_values()),
            result ==> forall|i: int|
                0 <= i < self.spec_ops().len() ==> (
                #[trigger] self.spec_ops()[i]).spec_source().value() < value_count
                    && self.spec_ops()[i].spec_destination().value() < matrix_value_count,
    {
        proof {
            lemma_needed(self.spec_ops());
        }
        value_count as u64 >= self.required_values && matrix_value_count as u64
            >= self.required_matrix_values
    }
}

/// What operations need covers each of them.
proof fn lemma_needed(ops: Seq<MatrixAdd>)
    ensures
        forall|i: int|
            0 <= i < ops.len() ==> (#[trigger] ops[i]).spec_source().value() < values_needed(ops)
                && ops[i].spec_destination().value() < entries_needed(ops),
    decreases ops.len(),
{
    if ops.len() > 0 {
        lemma_needed(ops.drop_last());
        assert forall|i: int| 0 <= i < ops.len() implies (#[trigger] ops[i]).spec_source().value()
            < values_needed(ops) && ops[i].spec_destination().value() < entries_needed(ops) by {
            if i < ops.len() - 1 {
                assert(ops.drop_last()[i] == ops[i]);
            }
        }
    }
}

} // verus!
