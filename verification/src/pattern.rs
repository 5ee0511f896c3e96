//! Which entries of a sparse matrix can differ from zero, column by column.

use vstd::prelude::*;

verus! {

/// The number of an unknown: a row or a column of the matrix.
#[derive(Debug, Clone, Copy, PartialEq, Eq, PartialOrd, Ord, Hash, Structural)]
pub struct UnknownIndex {
    raw: u32,
}

impl UnknownIndex {
    pub closed spec fn value(self) -> u32 {
        self.raw
    }

    pub fn new(index: u32) -> (result: Self)
        ensures
            result.value() == index,
    {
        UnknownIndex { raw: index }
    }

    pub fn get(self) -> (result: u32)
        ensures
            result == self.value(),
    {
        self.raw
    }

    pub fn index(self) -> (result: usize)
        ensures
            result == self.value(),
    {
        self.raw as usize
    }
}

/// The place of an entry among the values of the matrix.
#[derive(Debug, Clone, Copy, PartialEq, Eq, PartialOrd, Ord, Hash, Structural)]
pub struct MatrixSlot {
    raw: u32,
}

impl MatrixSlot {
    pub closed spec fn value(self) -> u32 {
        self.raw
    }

    pub fn index(self) -> (result: usize)
        ensures
            result == self.value(),
    {
        self.raw as usize
    }

    /// The place with the number `index`.
    pub(crate) fn from_raw(index: u32) -> (result: Self)
        ensures
            result.value() == index,
    {
        MatrixSlot { raw: index }
    }

    fn from_index(index: usize) -> (result: Self)
        requires
            index <= u32::MAX,
        ensures
            result.value() == index,
    {
        MatrixSlot { raw: index as u32 }
    }
}

/// Why a pattern cannot be built.
#[derive(Debug, Clone, Copy, PartialEq, Eq, Structural)]
pub enum PatternError {
    DimensionTooLarge { dimension: usize, max: usize },
    IndexOutOfBounds { index: UnknownIndex, dimension: usize },
    TooManyNonZeros { nnz: usize, max: usize },
}

/// Whether one coordinate, column first, comes before another.
pub open spec fn precedes(a: (u32, u32), b: (u32, u32)) -> bool {
    a.0 < b.0 || (a.0 == b.0 && a.1 < b.1)
}

/// Whether no coordinate comes before an earlier one.
pub open spec fn ordered(items: Seq<(u32, u32)>) -> bool {
    forall|i: int, j: int|
        0 <= i < j < items.len() ==> !precedes(#[trigger] items[j], #[trigger] items[i])
}

/// Whether each coordinate comes before all later ones.
pub open spec fn ascending(items: Seq<(u32, u32)>) -> bool {
    forall|i: int, j: int|
        0 <= i < j < items.len() ==> precedes(#[trigger] items[i], #[trigger] items[j])
}

/// `slice::sort_unstable` on pairs of numbers: the same pairs, those with smaller first numbers
/// first, and among those with equal first numbers those with smaller second numbers first.
#[verifier::external_body]
pub(crate) fn sort_coordinates(items: &mut Vec<(u32, u32)>)
    ensures
        final(items)@.to_multiset() == old(items)@.to_multiset(),
        ordered(final(items)@),
{
    items.sort_unstable();
}

/// Whether two sequences hold the same items.
pub open spec fn same_items(a: Seq<(u32, u32)>, b: Seq<(u32, u32)>) -> bool {
    forall|x: (u32, u32)| #[trigger] a.contains(x) <==> b.contains(x)
}

/// Leaves one of each run of equal coordinates.
pub(crate) fn dedup_coordinates(items: &Vec<(u32, u32)>) -> (result: Vec<(u32, u32)>)
    requires
        ordered(items@),
    ensures
        ascending(result@),
        same_items(result@, items@),
        result@.len() == items@.to_set().len(),
{
    let mut kept: Vec<(u32, u32)> = Vec::new();
    let mut index: usize = 0;
    while index < items.len()
        invariant
            index <= items@.len(),
            ordered(items@),
            ascending(kept@),
            kept@.len() > 0 <==> index > 0,
            kept@.len() > 0 ==> kept@.last() == items@[index - 1],
            same_items(kept@, items@.take(index as int)),
        decreases items@.len() - index,
    {
        let item = items[index];
        let ghost before = kept@;
        let ghost taken = items@.take(index as int);
        proof {
            assert(items@.take(index + 1) =~= taken.push(item));
            crate::traversal::lemma_push_contains(taken, item);
            crate::traversal::lemma_push_contains(before, item);
        }
        if kept.len() == 0 || kept[kept.len() - 1].0 != item.0 || kept[kept.len() - 1].1 != item.1 {
            kept.push(item);
            proof {
                assert forall|i: int, j: int|
                    0 <= i < j < kept@.len() implies precedes(
                    #[trigger] kept@[i],
                    #[trigger] kept@[j],
                ) by {
                    if j == before.len() {
                        let last = before.last();
                        assert(last == items@[index - 1]);
                        assert(!precedes(items@[index as int], items@[index - 1]));
                        assert(precedes(last, item));
                        if i < before.len() - 1 {
                            assert(precedes(before[i], before[before.len() - 1]));
                        }
                    } else {
                        assert(precedes(before[i], before[j]));
                    }
                }
            }
        } else {
            assert(before.contains(item)) by {
                assert(before[before.len() - 1] == item);
            }
        }
        index = index + 1;
    }
    proof {
        assert(items@.take(items@.len() as int) =~= items@);
        assert(kept@.no_duplicates()) by {
            assert forall|i: int, j: int|
                0 <= i < kept@.len() && 0 <= j < kept@.len() && i != j implies kept@[i]
                != kept@[j] by {
                if i < j {
                    assert(precedes(kept@[i], kept@[j]));
                } else {
                    assert(precedes(kept@[j], kept@[i]));
                }
            }
        }
        kept@.unique_seq_to_set();
        assert(kept@.to_set() =~= items@.to_set()) by {
            assert forall|x: (u32, u32)| kept@.to_set().contains(x) == items@.to_set().contains(
                x,
            ) by {
                assert(kept@.contains(x) <==> items@.contains(x));
            }
        }
    }
    kept
}

/// A pattern in the making.
#[derive(Debug)]
pub struct PatternBuilder {
    dimension: u32,
    coordinates: Vec<(u32, u32)>,
}

impl PatternBuilder {
    pub const MAX_DIMENSION: usize = 0x7FFF_FFFF;

    pub closed spec fn spec_dimension(self) -> int {
        self.dimension as int
    }

    /// The requested coordinates, column first, in the order of the requests.
    pub closed spec fn requests(self) -> Seq<(u32, u32)> {
        self.coordinates@
    }

    /// All requests are inside the matrix.
    pub open spec fn wf(self) -> bool {
        &&& 0 <= self.spec_dimension() <= Self::MAX_DIMENSION
        &&& forall|i: int|
            0 <= i < self.requests().len() ==> (#[trigger] self.requests()[i]).0
                < self.spec_dimension() && self.requests()[i].1 < self.spec_dimension()
    }

    pub fn new(dimension: usize) -> (result: Result<Self, PatternError>)
        ensures
            match result {
                Ok(builder) => {
                    &&& dimension <= Self::MAX_DIMENSION
                    &&& builder.wf()
                    &&& builder.spec_dimension() == dimension
                    &&& builder.requests() == Seq::<(u32, u32)>::empty()
                },
                Err(error) => {
                    &&& dimension > Self::MAX_DIMENSION
                    &&& error == PatternError::DimensionTooLarge {
                        dimension,
                        max: Self::MAX_DIMENSION,
                    }
                },
            },
    {
        Self::with_capacity(dimension, 0)
    }

    /// A pattern in the making, with room for a number of requests.
    pub fn with_capacity(dimension: usize, requested_entries: usize) -> (result: Result<
        Self,
        PatternError,
    >)
        ensures
            match result {
                Ok(builder) => {
                    &&& dimension <= Self::MAX_DIMENSION
                    &&& builder.wf()
                    &&& builder.spec_dimension() == dimension
                    &&& builder.requests() == Seq::<(u32, u32)>::empty()
                },
                Err(error) => {
                    &&& dimension > Self::MAX_DIMENSION
                    &&& error == PatternError::DimensionTooLarge {
                        dimension,
                        max: Self::MAX_DIMENSION,
                    }
                },
            },
    {
        if dimension > Self::MAX_DIMENSION {
            return Err(
                PatternError::DimensionTooLarge { dimension, max: Self::MAX_DIMENSION },
            );
        }
        Ok(
            PatternBuilder {
                dimension: dimension as u32,
                coordinates: Vec::with_capacity(requested_entries),
            },
        )
    }

    pub fn dimension(&self) -> (result: usize)
        ensures
            result == self.spec_dimension(),
    {
        self.dimension as usize
    }

    pub fn requested_entry_count(&self) -> (result: usize)
        ensures
            result == self.requests().len(),
    {
        self.coordinates.len()
    }

    /// What is wrong with a request, if anything is.
    pub open spec fn request_refusal(self, row: UnknownIndex, column: UnknownIndex) -> Option<
        PatternError,
    > {
        if row.value() >= self.spec_dimension() {
            Some(
                PatternError::IndexOutOfBounds {
                    index: row,
                    dimension: self.spec_dimension() as usize,
                },
            )
        } else if column.value() >= self.spec_dimension() {
            Some(
                PatternError::IndexOutOfBounds {
                    index: column,
                    dimension: self.spec_dimension() as usize,
                },
            )
        } else {
            None
        }
    }

    /// Requests an entry.
    pub fn request(&mut self, row: UnknownIndex, column: UnknownIndex) -> (result: Result<
        (),
        PatternError,
    >)
        requires
            old(self).wf(),
        ensures
            final(self).wf(),
            final(self).spec_dimension() == old(self).spec_dimension(),
            match old(self).request_refusal(row, column) {
                Some(error) => {
                    &&& result == Err::<(), _>(error)
                    &&& final(self).requests() == old(self).requests()
                },
                None => {
                    &&& result is Ok
                    &&& final(self).requests() == old(self).requests().push(
                        (column.value(), row.value()),
                    )
                },
            },
    {
        match self.validate_index(row) {
            Ok(_) => {},
            Err(error) => {
                return Err(error);
            },
        }
        match self.validate_index(column) {
            Ok(_) => {},
            Err(error) => {
                return Err(error);
            },
        }
        self.coordinates.push((column.get(), row.get()));
        proof {
            assert forall|i: int| 0 <= i < self.requests().len() implies (
            #[trigger] self.requests()[i]).0 < self.spec_dimension() && self.requests()[i].1
                < self.spec_dimension() by {
                if i < old(self).requests().len() {
                    assert(self.requests()[i] == old(self).requests()[i]);
                }
            }
        }
        Ok(())
    }

    fn validate_index(&self, index: UnknownIndex) -> (result: Result<(), PatternError>)
        ensures
            if index.value() >= self.spec_dimension() {
                result == Err::<(), _>(
                    PatternError::IndexOutOfBounds {
                        index,
                        dimension: self.spec_dimension() as usize,
                    },
                )
            } else {
                result is Ok
            },
    {
        if index.get() >= self.dimension {
            return Err(
                PatternError::IndexOutOfBounds { index, dimension: self.dimension as usize },
            );
        }
        Ok(())
    }

    /// Builds the pattern: an entry for each requested coordinate.
    pub fn finish(self) -> (result: Result<MnaPattern, PatternError>)
        requires
            self.wf(),
        ensures
            match result {
                Ok(pattern) => {
                    &&& self.requests().to_set().len() <= u32::MAX
                    &&& pattern.wf()
                    &&& pattern.spec_dimension() == self.spec_dimension()
                    &&& pattern.spec_nnz() == self.requests().to_set().len()
                    &&& forall|row: u32, column: u32|
                        #![trigger pattern.has_entry(row, column)]
                        #![trigger self.requests().contains((column, row))]
                        pattern.has_entry(row, column) <==> self.requests().contains((column, row))
                },
                Err(error) => {
                    &&& self.requests().to_set().len() > u32::MAX
                    &&& error == PatternError::TooManyNonZeros {
                        nnz: self.requests().to_set().len() as usize,
                        max: u32::MAX as usize,
                    }
                },
            },
    {
        let mut coordinates = self.coordinates;
        let ghost requested = coordinates@;
        sort_coordinates(&mut coordinates);
        let ghost sorted = coordinates@;
        proof {
            assert forall|x: (u32, u32)| #[trigger] sorted.contains(x) <==> requested.contains(
                x,
            ) by {
                sorted.to_multiset_ensures();
                requested.to_multiset_ensures();
                assert(sorted.to_multiset().count(x) == requested.to_multiset().count(x));
            }
            assert(sorted.to_set() =~= requested.to_set());
        }
        let entries = dedup_coordinates(&coordinates);
        let nnz: usize = entries.len();
        if nnz > u32::MAX as usize {
            return Err(PatternError::TooManyNonZeros { nnz, max: u32::MAX as usize });
        }
        let dimension: usize = self.dimension as usize;
        proof {
            assert forall|k: int| 0 <= k < entries@.len() implies (#[trigger] entries@[k]).0
                < dimension && entries@[k].1 < dimension by {
                assert(entries@.contains(entries@[k]));
                assert(sorted.contains(entries@[k]));
                assert(requested.contains(entries@[k]));
                let i = choose|i: int| 0 <= i < requested.len() && requested[i] == entries@[k];
                assert(self.requests()[i] == entries@[k]);
            }
        }
        let pattern = compress(&entries, dimension);
        proof {
            assert forall|row: u32, column: u32|
                pattern.has_entry(row, column) <==> #[trigger] self.requests().contains(
                    (column, row),
                ) by {
                assert(entries@.contains((column, row)) <==> sorted.contains((column, row)));
                assert(sorted.contains((column, row)) <==> requested.contains((column, row)));
            }
        }
        Ok(pattern)
    }
}

/// The columns of ascending coordinates, one behind the other.
fn compress(entries: &Vec<(u32, u32)>, dimension: usize) -> (result: MnaPattern)
    requires
        ascending(entries@),
        entries@.len() <= u32::MAX,
        dimension <= PatternBuilder::MAX_DIMENSION,
        forall|k: int|
            0 <= k < entries@.len() ==> (#[trigger] entries@[k]).0 < dimension && entries@[k].1
                < dimension,
    ensures
        result.wf(),
        result.spec_dimension() == dimension,
        result.spec_nnz() == entries@.len(),
        forall|row: u32, column: u32| #[trigger]
            result.has_entry(row, column) <==> entries@.contains((column, row)),
{
    let nnz: usize = entries.len();
    let mut column_ptrs: Vec<u32> = Vec::new();
    let mut row_indices: Vec<u32> = Vec::new();
    let mut position: usize = 0;
    let mut column: usize = 0;
    while column < dimension
        invariant
            column <= dimension <= PatternBuilder::MAX_DIMENSION,
            nnz == entries@.len() <= u32::MAX,
            ascending(entries@),
            position <= nnz,
            column_ptrs@.len() == column,
            row_indices@.len() == position,
            forall|k: int| 0 <= k < position ==> #[trigger] row_indices@[k] == entries@[k].1,
            forall|k: int| 0 <= k < position ==> (#[trigger] entries@[k]).0 < column,
            forall|k: int| position <= k < nnz ==> (#[trigger] entries@[k]).0 >= column,
            forall|c: int|
                0 <= c < column ==> (#[trigger] column_ptrs@[c]) <= position,
            forall|c: int, k: int|
                0 <= c < column && 0 <= k < nnz ==> (#[trigger] column_ptrs@[c] <= k <==> (
                #[trigger] entries@[k]).0 >= c),
        decreases dimension - column,
    {
        let ghost start = position;
        column_ptrs.push(position as u32);
        while position < nnz && entries[position].0 as usize == column
            invariant
                column < dimension <= PatternBuilder::MAX_DIMENSION,
                nnz == entries@.len() <= u32::MAX,
                ascending(entries@),
                start <= position <= nnz,
                row_indices@.len() == position,
                forall|k: int| 0 <= k < position ==> #[trigger] row_indices@[k] == entries@[k].1,
                forall|k: int| start <= k < position ==> (#[trigger] entries@[k]).0 == column,
            decreases nnz - position,
        {
            row_indices.push(entries[position].1);
            position = position + 1;
        }
        proof {
            assert forall|k: int| position <= k < nnz implies (#[trigger] entries@[k]).0 >= column
                + 1 by {
                if position < k {
                    assert(precedes(entries@[position as int], entries@[k]));
                }
                assert(entries@[position as int].0 >= column);
            }
            assert forall|k: int| 0 <= k < position implies (#[trigger] entries@[k]).0 < column
                + 1 by {}
            assert forall|c: int, k: int|
                0 <= c < column + 1 && 0 <= k < nnz implies (#[trigger] column_ptrs@[c] <= k
                <==> (#[trigger] entries@[k]).0 >= c) by {}
        }
        column = column + 1;
    }
    column_ptrs.push(nnz as u32);
    let pattern = MnaPattern { column_ptrs, row_indices };
    proof {
        assert(position == nnz) by {
            if position < nnz {
                assert(entries@[position as int].0 >= dimension);
            }
        }
        let ptrs = pattern.column_ptrs@;
        assert forall|c: int, k: int|
            0 <= c <= dimension && 0 <= k < nnz implies (#[trigger] ptrs[c] <= k <==> (
        #[trigger] entries@[k]).0 >= c) by {}
        assert(ptrs[0] == 0) by {
            if nnz > 0 && dimension > 0 {
                assert(ptrs[0] <= 0 <==> entries@[0].0 >= 0);
            }
            if nnz > 0 && dimension == 0 {
                assert(entries@[0].0 < dimension);
            }
            if nnz == 0 && dimension > 0 {
                assert(column_ptrs@[0] <= position);
            }
        }
        assert forall|c: int, d: int| 0 <= c <= d <= dimension implies (#[trigger] ptrs[c]) <= (
        #[trigger] ptrs[d]) by {
            if ptrs[c] > ptrs[d] {
                let k = ptrs[d] as int;
                assert(ptrs[c] <= nnz);
                assert(k < nnz);
                assert(ptrs[d] <= k <==> entries@[k].0 >= d);
                assert(ptrs[c] <= k <==> entries@[k].0 >= c);
            }
        }
        assert forall|k: int, l: int| 0 <= k < l < nnz && same_column(ptrs, k, l) implies (
        #[trigger] pattern.row_indices@[k]) < (#[trigger] pattern.row_indices@[l]) by {
            let c = choose|c: int|
                0 <= c < ptrs.len() - 1 && (#[trigger] ptrs[c]) <= k && l < ptrs[c + 1];
            assert(ptrs[c] <= k <==> entries@[k].0 >= c);
            assert(ptrs[c + 1] <= l <==> entries@[l].0 >= c + 1);
            assert(precedes(entries@[k], entries@[l]));
        }
        assert forall|row: u32, column: u32| #[trigger]
            pattern.has_entry(row, column) <==> entries@.contains((column, row)) by {
            if pattern.has_entry(row, column) {
                let k = choose|k: int| #[trigger] pattern.entry_at(row, column, k);
                assert(ptrs[column as int] <= k <==> entries@[k].0 >= column);
                assert(ptrs[column + 1] <= k <==> entries@[k].0 >= column + 1);
                assert(entries@[k] == (column, row));
            }
            if entries@.contains((column, row)) {
                let k = choose|k: int| 0 <= k < entries@.len() && entries@[k] == (column, row);
                assert(ptrs[column as int] <= k <==> entries@[k].0 >= column);
                assert(ptrs[column + 1] <= k <==> entries@[k].0 >= column + 1);
                assert(pattern.entry_at(row, column, k));
            }
        }
    }
    pattern
}

/// Whether two places are in one column.
pub open spec fn same_column(ptrs: Seq<u32>, k: int, l: int) -> bool {
    exists|c: int| 0 <= c < ptrs.len() - 1 && (#[trigger] ptrs[c]) <= k && l < ptrs[c + 1]
}

/// Whether columns follow one another and rows ascend in each.
pub open spec fn is_compressed(ptrs: Seq<u32>, rows: Seq<u32>) -> bool {
    &&& 1 <= ptrs.len() <= PatternBuilder::MAX_DIMENSION + 1
    &&& rows.len() <= u32::MAX
    &&& ptrs[0] == 0
    &&& ptrs[ptrs.len() - 1] == rows.len()
    &&& forall|c: int, d: int|
        0 <= c <= d < ptrs.len() ==> (#[trigger] ptrs[c]) <= (#[trigger] ptrs[d])
    &&& forall|k: int| 0 <= k < rows.len() ==> (#[trigger] rows[k]) < ptrs.len() - 1
    &&& forall|k: int, l: int|
        0 <= k < l < rows.len() && same_column(ptrs, k, l) ==> (#[trigger] rows[k]) < (
        #[trigger] rows[l])
}

/// The entries of a square matrix that can differ from zero, column by column, and in each column
/// from the first row to the last.
#[derive(Debug)]
pub struct MnaPattern {
    column_ptrs: Vec<u32>,
    row_indices: Vec<u32>,
}

impl MnaPattern {
    pub closed spec fn spec_dimension(self) -> int {
        self.column_ptrs@.len() - 1
    }

    pub closed spec fn spec_nnz(self) -> int {
        self.row_indices@.len() as int
    }

    /// For each column the place of its first entry, and then the number of entries.
    pub closed spec fn spec_ptrs(self) -> Seq<u32> {
        self.column_ptrs@
    }

    /// For each entry its row.
    pub closed spec fn spec_rows(self) -> Seq<u32> {
        self.row_indices@
    }

    pub open spec fn wf(self) -> bool {
        &&& is_compressed(self.spec_ptrs(), self.spec_rows())
        &&& self.spec_dimension() == self.spec_ptrs().len() - 1
        &&& self.spec_nnz() == self.spec_rows().len()
    }

    /// Whether the entry of a row and a column is at a place.
    pub open spec fn entry_at(self, row: u32, column: u32, slot: int) -> bool {
        &&& column < self.spec_dimension()
        &&& self.spec_ptrs()[column as int] <= slot < self.spec_ptrs()[column + 1]
        &&& slot < self.spec_nnz()
        &&& self.spec_rows()[slot] == row
    }

    /// Whether the entry of a row and a column can differ from zero.
    pub open spec fn has_entry(self, row: u32, column: u32) -> bool {
        exists|slot: int| #[trigger] self.entry_at(row, column, slot)
    }

    pub fn dimension(&self) -> (result: usize)
        requires
            self.wf(),
        ensures
            result == self.spec_dimension(),
    {
        self.column_ptrs.len() - 1
    }

    pub fn nnz(&self) -> (result: usize)
        ensures
            result == self.spec_nnz(),
    {
        self.row_indices.len()
    }

    /// The place of an entry that can differ from zero.
    pub fn slot(&self, row: UnknownIndex, column: UnknownIndex) -> (result: Option<MatrixSlot>)
        requires
            self.wf(),
        ensures
            match result {
                Some(slot) => {
                    &&& self.entry_at(row.value(), column.value(), slot.value() as int)
                    &&& slot.value() < self.spec_nnz()
                },
                None => !self.has_entry(row.value(), column.value()),
            },
    {
        let dimension: usize = self.dimension();
        if row.index() >= dimension || column.index() >= dimension {
            proof {
                if self.has_entry(row.value(), column.value()) {
                    let k = choose|k: int| #[trigger]
                        self.entry_at(row.value(), column.value(), k);
                    assert(self.row_indices@[k] < dimension);
                }
            }
            return None;
        }
        let at: usize = column.index();
        let wanted: u32 = row.get();
        let start: usize = self.column_ptrs[at] as usize;
        let end: usize = self.column_ptrs[at + 1] as usize;
        let ghost rows = self.row_indices@;
        let ghost ptrs = self.column_ptrs@;
        assert(ptrs[at as int] <= ptrs[at + 1]);
        assert(ptrs[at + 1] <= ptrs[ptrs.len() - 1]);
        let mut low: usize = start;
        let mut high: usize = end;
        while low < high
            invariant
                self.wf(),
                rows == self.row_indices@,
                ptrs == self.column_ptrs@,
                at < ptrs.len() - 1,
                start == ptrs[at as int],
                end == ptrs[at + 1],
                start <= low <= high <= end <= rows.len(),
                forall|k: int| start <= k < low ==> (#[trigger] rows[k]) < wanted,
                forall|k: int| high <= k < end ==> (#[trigger] rows[k]) > wanted,
                wanted == row.value(),
                at == column.value(),
                rows.len() <= u32::MAX,
            decreases high - low,
        {
            let middle: usize = low + (high - low) / 2;
            let found: u32 = self.row_indices[middle];
            if found == wanted {
                assert(self.entry_at(wanted, column.value(), middle as int));
                return Some(MatrixSlot::from_index(middle));
            }
            if found < wanted {
                proof {
                    assert forall|k: int| start <= k < middle + 1 implies (#[trigger] rows[k])
                        < wanted by {
                        if k < middle {
                            assert(ptrs[at as int] <= k && middle < ptrs[at + 1]);
                            assert(same_column(ptrs, k, middle as int));
                            assert(rows[k] < rows[middle as int]);
                        }
                    }
                }
                low = middle + 1;
            } else {
                proof {
                    assert forall|k: int| middle <= k < end implies (#[trigger] rows[k])
                        > wanted by {
                        if middle < k {
                            assert(ptrs[at as int] <= middle && k < ptrs[at + 1]);
                            assert(same_column(ptrs, middle as int, k));
                            assert(rows[middle as int] < rows[k]);
                        }
                    }
                }
                high = middle;
            }
        }
        proof {
            if self.has_entry(row.value(), column.value()) {
                let k = choose|k: int| #[trigger] self.entry_at(row.value(), column.value(), k);
                assert(start <= k < end);
                assert(rows[k] == wanted);
            }
        }
        None
    }

    /// For each column the place of its first entry, and then the number of entries.
    pub fn column_ptrs(&self) -> (result: &[u32])
        ensures
            result@ == self.spec_ptrs(),
    {
        self.column_ptrs.as_slice()
    }

    /// For each entry its row.
    pub fn row_indices(&self) -> (result: &[u32])
        ensures
            result@ == self.spec_rows(),
    {
        self.row_indices.as_slice()
    }
}

/// Each place holds one entry, different entries are at different places, and the places are those
/// below the number of entries: what `slot` gives for requested coordinates numbers them without
/// gaps.
pub proof fn law_slots_number_the_entries(pattern: MnaPattern, slot: int)
    requires
        pattern.wf(),
        0 <= slot < pattern.spec_nnz(),
    ensures
        exists|row: u32, column: u32| #[trigger] pattern.entry_at(row, column, slot),
        forall|r: u32, c: u32, s: u32, d: u32|
            #![trigger pattern.entry_at(r, c, slot), pattern.entry_at(s, d, slot)]
            pattern.entry_at(r, c, slot) && pattern.entry_at(s, d, slot) ==> r == s && c == d,
        forall|r: u32, c: u32, other: int| #[trigger]
            pattern.entry_at(r, c, slot) && #[trigger] pattern.entry_at(r, c, other) ==> other
                == slot,
{
    let ptrs = pattern.column_ptrs@;
    let rows = pattern.row_indices@;
    let column = lemma_column_of(ptrs, slot, ptrs.len() - 1);
    assert(pattern.entry_at(rows[slot], column as u32, slot));
    assert forall|r: u32, c: u32, s: u32, d: u32|
        #![trigger pattern.entry_at(r, c, slot), pattern.entry_at(s, d, slot)]
        pattern.entry_at(r, c, slot) && pattern.entry_at(s, d, slot) implies r == s && c == d by {
        if c < d {
            assert(ptrs[c + 1] <= ptrs[d as int]);
        }
        if d < c {
            assert(ptrs[d + 1] <= ptrs[c as int]);
        }
    }
    assert forall|r: u32, c: u32, other: int| #[trigger]
        pattern.entry_at(r, c, slot) && #[trigger] pattern.entry_at(r, c, other) implies other
        == slot by {
        if other < slot {
            assert(ptrs[c as int] <= other && slot < ptrs[c + 1]);
            assert(same_column(ptrs, other, slot));
            assert(rows[other] < rows[slot]);
        }
        if slot < other {
            assert(ptrs[c as int] <= slot && other < ptrs[c + 1]);
            assert(same_column(ptrs, slot, other));
            assert(rows[slot] < rows[other]);
        }
    }
}

/// The column that a place is in.
proof fn lemma_column_of(ptrs: Seq<u32>, slot: int, upto: int) -> (column: int)
    requires
        0 < upto < ptrs.len() || (upto == 0 && slot < 0),
        ptrs.len() <= 0x8000_0000,
        ptrs.len() > 0,
        ptrs[0] == 0,
        0 <= slot < ptrs[upto],
    ensures
        0 <= column < upto,
        ptrs[column] <= slot < ptrs[column + 1],
    decreases upto,
{
    if ptrs[upto - 1] <= slot {
        upto - 1
    } else {
        lemma_column_of(ptrs, slot, upto - 1)
    }
}

/// Places ascend with columns, and in a column with rows.
proof fn lemma_places_ascend(pattern: MnaPattern, a: (u32, u32), k: int, b: (u32, u32), l: int)
    requires
        pattern.wf(),
        pattern.entry_at(a.1, a.0, k),
        pattern.entry_at(b.1, b.0, l),
        k < l,
    ensures
        precedes(a, b),
{
    let ptrs = pattern.column_ptrs@;
    let rows = pattern.row_indices@;
    if b.0 < a.0 {
        assert(ptrs[b.0 + 1] <= ptrs[a.0 as int]);
    } else if a.0 == b.0 {
        assert(ptrs[a.0 as int] <= k && l < ptrs[a.0 + 1]);
        assert(same_column(ptrs, k, l));
        assert(rows[k] < rows[l]);
    }
}

/// Patterns with the same entries have the same ones at the first places.
proof fn lemma_same_places(a: MnaPattern, b: MnaPattern, count: int)
    requires
        a.wf(),
        b.wf(),
        forall|row: u32, column: u32| #[trigger]
            a.has_entry(row, column) == b.has_entry(row, column),
        0 <= count <= a.spec_nnz(),
    ensures
        count <= b.spec_nnz(),
        forall|row: u32, column: u32, slot: int|
            slot < count ==> #[trigger] a.entry_at(row, column, slot) == b.entry_at(
                row,
                column,
                slot,
            ),
    decreases count,
{
    if count > 0 {
        let k = count - 1;
        lemma_same_places(a, b, k);
        law_slots_number_the_entries(a, k);
        let (row, column) = choose|row: u32, column: u32| #[trigger] a.entry_at(row, column, k);
        assert(a.has_entry(row, column));
        let place = choose|slot: int| #[trigger] b.entry_at(row, column, slot);
        assert(b.has_entry(row, column));
        assert(b.entry_at(row, column, place));
        if place < k {
            assert(a.entry_at(row, column, place));
        }
        law_slots_number_the_entries(b, k);
        let (r, c) = choose|r: u32, c: u32| #[trigger] b.entry_at(r, c, k);
        if k < place {
            lemma_places_ascend(b, (c, r), k, (column, row), place);
            assert(b.has_entry(r, c));
            assert(a.has_entry(r, c));
            let other = choose|slot: int| #[trigger] a.entry_at(r, c, slot);
            if other < k {
                assert(b.entry_at(r, c, other));
            } else if other > k {
                lemma_places_ascend(a, (column, row), k, (c, r), other);
            } else {
                assert(a.entry_at(r, c, k));
            }
        }
        assert(place == k);
        assert forall|x: u32, y: u32, slot: int| slot < count implies #[trigger] a.entry_at(
            x,
            y,
            slot,
        ) == b.entry_at(x, y, slot) by {
            if slot == k {
                if a.entry_at(x, y, k) {
                    assert(x == row && y == column);
                }
                if b.entry_at(x, y, k) {
                    assert(x == row && y == column);
                }
            }
        }
    }
}

/// A pattern is determined by its dimension and its entries: in which order they were requested, how
/// often, and how much room there was does not matter.
pub proof fn law_patterns_are_determined_by_their_entries(a: MnaPattern, b: MnaPattern)
    requires
        a.wf(),
        b.wf(),
        a.spec_dimension() == b.spec_dimension(),
        forall|row: u32, column: u32| #[trigger]
            a.has_entry(row, column) == b.has_entry(row, column),
    ensures
        a.spec_ptrs() == b.spec_ptrs(),
        a.spec_rows() == b.spec_rows(),
{
    lemma_same_places(a, b, a.spec_nnz());
    lemma_same_places(b, a, b.spec_nnz());
    let (p, q) = (a.column_ptrs@, b.column_ptrs@);
    assert forall|k: int| 0 <= k < a.row_indices@.len() implies a.row_indices@[k]
        == b.row_indices@[k] by {
        let column = lemma_column_of(p, k, p.len() - 1);
        assert(a.entry_at(a.row_indices@[k], column as u32, k));
        assert(b.entry_at(a.row_indices@[k], column as u32, k));
    }
    assert(a.row_indices@ =~= b.row_indices@);
    assert forall|c: int| 0 <= c < p.len() implies p[c] == q[c] by {
        lemma_column_starts(a, b, c);
        lemma_column_starts(b, a, c);
    }
    assert(p =~= q);
}

proof fn lemma_column_starts(a: MnaPattern, b: MnaPattern, column: int)
    requires
        a.wf(),
        b.wf(),
        a.spec_dimension() == b.spec_dimension(),
        a.spec_nnz() == b.spec_nnz(),
        forall|r: u32, c: u32, slot: int|
            slot < a.spec_nnz() ==> #[trigger] a.entry_at(r, c, slot) == b.entry_at(r, c, slot),
        0 <= column <= a.spec_dimension(),
    ensures
        a.spec_ptrs()[column] >= b.spec_ptrs()[column],
{
    let (p, q) = (a.column_ptrs@, b.column_ptrs@);
    let slot = p[column] as int;
    if slot < q[column] {
        assert(q[column] <= q[q.len() - 1]);
        let c = lemma_column_of(q, slot, column);
        let row = b.row_indices@[slot];
        assert(b.entry_at(row, c as u32, slot));
        assert(a.entry_at(row, c as u32, slot));
        assert(p[c + 1] <= p[column]);
    }
}

/// The coordinates of the entries at the first places, column first.
spec fn first_entries(pattern: MnaPattern, count: int) -> Set<(u32, u32)> {
    Set::new(
        |e: (u32, u32)| exists|k: int| k < count && #[trigger] pattern.entry_at(e.1, e.0, k),
    )
}

proof fn lemma_first_entries(pattern: MnaPattern, count: int)
    requires
        pattern.wf(),
        0 <= count <= pattern.spec_nnz(),
    ensures
        first_entries(pattern, count).finite(),
        first_entries(pattern, count).len() == count,
    decreases count,
{
    if count == 0 {
        assert forall|e: (u32, u32), k: int| k < 0 implies !#[trigger] pattern.entry_at(
            e.1,
            e.0,
            k,
        ) by {}
        assert(first_entries(pattern, 0) =~= Set::empty());
    } else {
        let k = count - 1;
        lemma_first_entries(pattern, k);
        law_slots_number_the_entries(pattern, k);
        let (row, column) = choose|row: u32, column: u32| #[trigger]
            pattern.entry_at(row, column, k);
        let before = first_entries(pattern, k);
        assert(!before.contains((column, row))) by {
            if before.contains((column, row)) {
                let other = choose|l: int| l < k && #[trigger] pattern.entry_at(row, column, l);
                assert(other == k);
            }
        }
        assert(first_entries(pattern, count) =~= before.insert((column, row))) by {
            assert forall|e: (u32, u32)| first_entries(pattern, count).contains(e) <==> before.insert(
                (column, row),
            ).contains(e) by {
                if first_entries(pattern, count).contains(e) {
                    let l = choose|l: int| l < count && #[trigger] pattern.entry_at(e.1, e.0, l);
                    if l == k {
                        assert(e.1 == row && e.0 == column);
                    }
                }
                if e == (column, row) {
                    assert(pattern.entry_at(e.1, e.0, k));
                }
                if before.contains(e) {
                    let l = choose|l: int| l < k && #[trigger] pattern.entry_at(e.1, e.0, l);
                    assert(pattern.entry_at(e.1, e.0, l));
                }
            }
        }
    }
}

/// The place of a requested entry is its rank among the requested ones, column by column and from
/// the first row to the last: the number of those that come before it.
pub proof fn law_slots_are_ranks(
    requests: Seq<(u32, u32)>,
    pattern: MnaPattern,
    row: u32,
    column: u32,
    slot: int,
)
    requires
        pattern.wf(),
        forall|r: u32, c: u32|
            #![trigger pattern.has_entry(r, c)]
            #![trigger requests.contains((c, r))]
            pattern.has_entry(r, c) <==> requests.contains((c, r)),
        pattern.entry_at(row, column, slot),
    ensures
        requests.contains((column, row)),
        slot == requests.to_set().filter(
            |e: (u32, u32)| precedes(e, (column, row)),
        ).len(),
        slot < pattern.spec_nnz(),
{
    let earlier = requests.to_set().filter(|e: (u32, u32)| precedes(e, (column, row)));
    assert(pattern.has_entry(row, column));
    lemma_first_entries(pattern, slot);
    assert(earlier =~= first_entries(pattern, slot)) by {
        assert forall|e: (u32, u32)| earlier.contains(e) <==> first_entries(
            pattern,
            slot,
        ).contains(e) by {
            if earlier.contains(e) {
                assert(requests.contains((e.0, e.1)));
                assert(pattern.has_entry(e.1, e.0));
                let k = choose|k: int| #[trigger] pattern.entry_at(e.1, e.0, k);
                if k > slot {
                    lemma_places_ascend(pattern, (column, row), slot, e, k);
                }
                law_slots_number_the_entries(pattern, slot);
                assert(k < slot);
            }
            if first_entries(pattern, slot).contains(e) {
                let k = choose|k: int| k < slot && #[trigger] pattern.entry_at(e.1, e.0, k);
                lemma_places_ascend(pattern, e, k, (column, row), slot);
                assert(pattern.has_entry(e.1, e.0));
                assert(requests.contains((e.0, e.1)));
            }
        }
    }
}

} // verus!
