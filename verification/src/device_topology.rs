//! The islands of device components, kept alongside the chunks of the device arena.

use crate::ids::IslandId;
use crate::stride::{
    cell, lemma_cell_inside, lemma_cells_apart, lemma_row_inside, swap_remove_stride,
};
use vstd::prelude::*;

verus! {

/// The number of rows that a chunk holds at most.
pub const DEVICE_CHUNK_ROWS: usize = 64;

/// For each row of a device chunk, the island of each component.
#[derive(Debug)]
pub struct DeviceTopologyChunk {
    partition_count: usize,
    row_count: u8,
    component_islands: Vec<IslandId>,
}

impl DeviceTopologyChunk {
    pub closed spec fn partitions(self) -> int {
        self.partition_count as int
    }

    pub closed spec fn rows(self) -> int {
        self.row_count as int
    }

    /// The island of a component.
    pub closed spec fn island(self, row: int, partition: int) -> u32 {
        cell(self.component_islands@, self.partition_count as int, row, partition).value()
    }

    /// The rows have equal lengths.
    pub closed spec fn wf(self) -> bool {
        &&& self.row_count <= DEVICE_CHUNK_ROWS
        &&& self.component_islands@.len() == self.row_count * self.partition_count
    }

    /// A chunk without rows.
    pub fn new(partition_count: usize) -> (result: Self)
        ensures
            result.wf(),
            result.rows() == 0,
            result.partitions() == partition_count,
    {
        DeviceTopologyChunk { partition_count, row_count: 0, component_islands: Vec::new() }
    }

    pub fn partition_count(&self) -> (result: usize)
        ensures
            result == self.partitions(),
    {
        self.partition_count
    }

    pub fn row_count(&self) -> (result: usize)
        ensures
            result == self.rows(),
    {
        self.row_count as usize
    }

    /// Appends a row.
    pub fn push_row(&mut self, islands: &[IslandId])
        requires
            old(self).wf(),
            old(self).rows() < DEVICE_CHUNK_ROWS,
            islands@.len() == old(self).partitions(),
        ensures
            final(self).wf(),
            final(self).partitions() == old(self).partitions(),
            final(self).rows() == old(self).rows() + 1,
            forall|r: int, p: int|
                0 <= r < final(self).rows() && 0 <= p < final(self).partitions()
                    ==> #[trigger] final(self).island(r, p) == if r == old(self).rows() {
                    islands@[p].value()
                } else {
                    old(self).island(r, p)
                },
    {
        let ghost before = self.component_islands@;
        let mut index: usize = 0;
        while index < islands.len()
            invariant
                index <= islands@.len(),
                self.partition_count == old(self).partition_count,
                self.row_count == old(self).row_count,
                self.component_islands@ == before + islands@.take(index as int),
            decreases islands@.len() - index,
        {
            self.component_islands.push(islands[index]);
            index = index + 1;
            assert(self.component_islands@ =~= before + islands@.take(index as int));
        }
        self.row_count = self.row_count + 1;
        proof {
            let n = old(self).rows();
            let pc = self.partitions();
            assert(islands@.take(islands@.len() as int) =~= islands@);
            assert((n + 1) * pc == n * pc + pc) by (nonlinear_arith);
            assert forall|r: int, p: int|
                0 <= r < self.rows() && 0 <= p < pc implies #[trigger] self.island(r, p) == if r
                == n {
                islands@[p].value()
            } else {
                old(self).island(r, p)
            } by {
                if r < n {
                    lemma_cell_inside(n, pc, r, p);
                }
            }
        }
    }

    /// The islands of the components of a row.
    pub fn row_islands(&self, row: usize) -> (result: &[IslandId])
        requires
            self.wf(),
            row < self.rows(),
        ensures
            result@.len() == self.partitions(),
            forall|p: int|
                0 <= p < result@.len() ==> (#[trigger] result@[p]).value() == self.island(
                    row as int,
                    p,
                ),
    {
        let total: usize = self.component_islands.len();
        proof {
            let n = self.row_count as int;
            let pc = self.partition_count as int;
            lemma_row_inside(n, pc, row as int);
            lemma_row_inside(n, pc, row + 1);
            assert((row + 1) * pc == row * pc + pc) by (nonlinear_arith);
        }
        let start: usize = row * self.partition_count;
        vstd::slice::slice_subrange(
            self.component_islands.as_slice(),
            start,
            start + self.partition_count,
        )
    }

    /// The island of a component.
    pub fn component_island(&self, row: usize, partition: usize) -> (result: IslandId)
        requires
            self.wf(),
            row < self.rows(),
            partition < self.partitions(),
        ensures
            result.value() == self.island(row as int, partition as int),
            result.value() != 0,
    {
        let total: usize = self.component_islands.len();
        proof {
            lemma_cell_inside(
                self.row_count as int,
                self.partition_count as int,
                row as int,
                partition as int,
            );
            lemma_row_inside(self.row_count as int, self.partition_count as int, row as int);
        }
        let result = self.component_islands[row * self.partition_count + partition];
        let number: u32 = result.get();
        result
    }

    /// Moves a component to another island.
    pub fn set_component_island(&mut self, row: usize, partition: usize, island: IslandId)
        requires
            old(self).wf(),
            row < old(self).rows(),
            partition < old(self).partitions(),
        ensures
            final(self).wf(),
            final(self).rows() == old(self).rows(),
            final(self).partitions() == old(self).partitions(),
            forall|r: int, p: int|
                0 <= r < final(self).rows() && 0 <= p < final(self).partitions()
                    ==> #[trigger] final(self).island(r, p) == if r == row && p == partition {
                    island.value()
                } else {
                    old(self).island(r, p)
                },
    {
        let total: usize = self.component_islands.len();
        proof {
            lemma_cell_inside(
                self.row_count as int,
                self.partition_count as int,
                row as int,
                partition as int,
            );
            lemma_row_inside(self.row_count as int, self.partition_count as int, row as int);
        }
        let index: usize = row * self.partition_count + partition;
        self.component_islands.set(index, island);
        proof {
            let n = self.rows();
            let pc = self.partitions();
            assert forall|r: int, p: int| 0 <= r < n && 0 <= p < pc implies #[trigger] self.island(
                r,
                p,
            ) == if r == row && p == partition {
                island.value()
            } else {
                old(self).island(r, p)
            } by {
                lemma_cell_inside(n, pc, r, p);
                if r * pc + p == index {
                    lemma_cells_apart(pc, r, p, row as int, partition as int);
                }
            }
        }
    }

    /// Takes a row out and moves the last one there.
    pub fn remove_row(&mut self, row: usize)
        requires
            old(self).wf(),
            row < old(self).rows(),
        ensures
            final(self).wf(),
            final(self).rows() == old(self).rows() - 1,
            final(self).partitions() == old(self).partitions(),
            forall|r: int, p: int|
                0 <= r < final(self).rows() && 0 <= p < final(self).partitions()
                    ==> #[trigger] final(self).island(r, p) == old(self).island(
                    if r == row {
                        old(self).rows() - 1
                    } else {
                        r
                    },
                    p,
                ),
    {
        let row_count: usize = self.row_count as usize;
        swap_remove_stride(&mut self.component_islands, row, row_count, self.partition_count);
        self.row_count = self.row_count - 1;
    }
}

} // verus!
