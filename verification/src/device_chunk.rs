//! Chunks of devices with one definition. A device is a row: its connections and its parameters.

use crate::connection::ConnectionRef;
use crate::definition::DeviceDefinition;
use crate::float_bits::{is_finite, is_finite_bits};
use crate::ids::{DefinitionId, DeviceId, ParameterId, TerminalId};
use crate::stride::{
    cell, lemma_cell_inside, lemma_cells_apart, lemma_row_inside, swap_remove_stride,
};
use vstd::prelude::*;

verus! {

/// The number of rows that a chunk holds at most.
pub const DEVICE_CHUNK_CAPACITY: usize = 64;

/// The pattern that stands in place of a parameter without a value. No parameter can have it as a
/// value, since it is not finite.
pub const UNASSIGNED_PARAMETER: u64 = 0x7FF0_0000_0000_0000;

/// What a network knows of one device.
#[verifier::ext_equal]
pub struct DeviceModel {
    pub definition: DefinitionId,
    pub terminals: Seq<Option<ConnectionRef>>,
    pub parameters: Seq<u64>,
}

/// A device that has just been added: nothing connected, no parameter assigned.
pub open spec fn blank_device(definition: DefinitionId, terminals: nat, parameters: nat) -> DeviceModel {
    DeviceModel {
        definition,
        terminals: Seq::new(terminals, |i: int| None),
        parameters: Seq::new(parameters, |i: int| UNASSIGNED_PARAMETER),
    }
}

/// Rows of devices with one definition.
#[derive(Debug)]
pub struct DeviceChunk {
    definition_id: DefinitionId,
    terminal_count: usize,
    parameter_count: usize,
    device_ids: Vec<DeviceId>,
    terminals: Vec<Option<ConnectionRef>>,
    parameters: Vec<u64>,
}

impl DeviceChunk {
    pub closed spec fn spec_definition(self) -> DefinitionId {
        self.definition_id
    }

    pub closed spec fn spec_terminal_count(self) -> int {
        self.terminal_count as int
    }

    pub closed spec fn spec_parameter_count(self) -> int {
        self.parameter_count as int
    }

    /// The number of rows.
    pub closed spec fn rows(self) -> int {
        self.device_ids@.len() as int
    }

    /// The number of the device in a row.
    pub closed spec fn device_at(self, row: int) -> u32 {
        self.device_ids@[row].value()
    }

    /// What stands in a row.
    pub closed spec fn row(self, row: int) -> DeviceModel {
        DeviceModel {
            definition: self.definition_id,
            terminals: Seq::new(
                self.terminal_count as nat,
                |t: int| cell(self.terminals@, self.terminal_count as int, row, t),
            ),
            parameters: Seq::new(
                self.parameter_count as nat,
                |p: int| cell(self.parameters@, self.parameter_count as int, row, p),
            ),
        }
    }

    /// The rows have equal lengths, and every parameter is finite or unassigned.
    pub closed spec fn wf(self) -> bool {
        &&& self.device_ids@.len() <= DEVICE_CHUNK_CAPACITY
        &&& self.terminals@.len() == self.device_ids@.len() * self.terminal_count
        &&& self.parameters@.len() == self.device_ids@.len() * self.parameter_count
        &&& forall|i: int|
            0 <= i < self.parameters@.len() ==> is_finite(#[trigger] self.parameters@[i])
                || self.parameters@[i] == UNASSIGNED_PARAMETER
    }

    /// The shape of the rows of a chunk.
    pub broadcast proof fn lemma_row(self, row: int)
        ensures
            #![trigger self.row(row)]
            self.row(row).definition == self.spec_definition(),
            self.row(row).terminals.len() == self.spec_terminal_count(),
            self.row(row).parameters.len() == self.spec_parameter_count(),
    {
    }

    /// A chunk holds no more rows than its capacity.
    pub proof fn lemma_wf(self)
        requires
            self.wf(),
        ensures
            0 <= self.rows() <= DEVICE_CHUNK_CAPACITY,
            0 <= self.spec_terminal_count() <= usize::MAX,
            0 <= self.spec_parameter_count() <= usize::MAX,
    {
    }

    /// A chunk without rows.
    pub fn new(definition_id: DefinitionId, definition: &DeviceDefinition) -> (result: Self)
        ensures
            result.wf(),
            result.rows() == 0,
            result.spec_definition() == definition_id,
            result.spec_terminal_count() == definition.spec_terminals().len(),
            result.spec_parameter_count() == definition.spec_parameters().len(),
    {
        let terminal_count: usize = definition.terminals().len();
        let parameter_count: usize = definition.parameters().len();
        DeviceChunk {
            definition_id,
            terminal_count,
            parameter_count,
            device_ids: Vec::new(),
            terminals: Vec::new(),
            parameters: Vec::new(),
        }
    }

    pub fn definition_id(&self) -> (result: DefinitionId)
        ensures
            result == self.spec_definition(),
    {
        self.definition_id
    }

    pub fn terminal_count(&self) -> (result: usize)
        ensures
            result == self.spec_terminal_count(),
    {
        self.terminal_count
    }

    pub fn parameter_count(&self) -> (result: usize)
        ensures
            result == self.spec_parameter_count(),
    {
        self.parameter_count
    }

    /// The number of rows.
    pub fn len(&self) -> (result: usize)
        ensures
            result == self.rows(),
    {
        self.device_ids.len()
    }

    /// Whether no further row fits.
    pub fn is_full(&self) -> (result: bool)
        ensures
            result == (self.rows() == DEVICE_CHUNK_CAPACITY),
    {
        self.device_ids.len() == DEVICE_CHUNK_CAPACITY
    }

    /// The device in a row.
    pub fn device_id(&self, row: usize) -> (result: DeviceId)
        requires
            row < self.rows(),
        ensures
            result.value() == self.device_at(row as int),
            result.value() != 0,
    {
        let result = self.device_ids[row];
        let number: u32 = result.get();
        result
    }

    /// The number of terminals of all rows together.
    pub closed spec fn terminal_cells(self) -> int {
        self.terminals@.len() as int
    }

    /// The number of parameters of all rows together.
    pub closed spec fn parameter_cells(self) -> int {
        self.parameters@.len() as int
    }

    /// The number of terminals of all rows together.
    pub fn stored_terminals(&self) -> (result: usize)
        ensures
            result == self.terminal_cells(),
            self.wf() ==> result == self.rows() * self.spec_terminal_count(),
    {
        self.terminals.len()
    }

    /// The number of parameters of all rows together.
    pub fn stored_parameters(&self) -> (result: usize)
        ensures
            result == self.parameter_cells(),
            self.wf() ==> result == self.rows() * self.spec_parameter_count(),
    {
        self.parameters.len()
    }

    /// Appends a blank row for a device, unless the chunk is full. The rows of a chunk have to fit
    /// the address space.
    pub fn push_empty_row(&mut self, device: DeviceId) -> (result: bool)
        requires
            old(self).wf(),
        ensures
            final(self).wf(),
            final(self).spec_definition() == old(self).spec_definition(),
            final(self).spec_terminal_count() == old(self).spec_terminal_count(),
            final(self).spec_parameter_count() == old(self).spec_parameter_count(),
            result == (old(self).rows() < DEVICE_CHUNK_CAPACITY),
            !result ==> *final(self) == *old(self),
            result ==> {
                &&& final(self).rows() == old(self).rows() + 1
                &&& final(self).device_at(old(self).rows()) == device.value()
                &&& final(self).row(old(self).rows()) == blank_device(
                    old(self).spec_definition(),
                    old(self).spec_terminal_count() as nat,
                    old(self).spec_parameter_count() as nat,
                )
                &&& forall|r: int|
                    0 <= r < old(self).rows() ==> #[trigger] final(self).row(r) == old(self).row(r)
                &&& forall|r: int|
                    0 <= r < old(self).rows() ==> #[trigger] final(self).device_at(r) == old(
                        self,
                    ).device_at(r)
            },
    {
        if self.is_full() {
            return false;
        }
        let rows: usize = self.device_ids.len();
        self.device_ids.push(device);
        let mut terminal: usize = 0;
        while terminal < self.terminal_count
            invariant
                terminal <= self.terminal_count,
                self.definition_id == old(self).definition_id,
                self.terminal_count == old(self).terminal_count,
                self.parameter_count == old(self).parameter_count,
                self.device_ids@ == old(self).device_ids@.push(device),
                self.parameters@ == old(self).parameters@,
                self.terminals@ == old(self).terminals@ + Seq::new(
                    terminal as nat,
                    |i: int| None::<ConnectionRef>,
                ),
            decreases self.terminal_count - terminal,
        {
            self.terminals.push(None);
            terminal = terminal + 1;
            assert(self.terminals@ =~= old(self).terminals@ + Seq::new(
                terminal as nat,
                |i: int| None::<ConnectionRef>,
            ));
        }
        let mut parameter: usize = 0;
        while parameter < self.parameter_count
            invariant
                parameter <= self.parameter_count,
                self.definition_id == old(self).definition_id,
                self.terminal_count == old(self).terminal_count,
                self.parameter_count == old(self).parameter_count,
                self.device_ids@ == old(self).device_ids@.push(device),
                self.terminals@ == old(self).terminals@ + Seq::new(
                    self.terminal_count as nat,
                    |i: int| None::<ConnectionRef>,
                ),
                self.parameters@ == old(self).parameters@ + Seq::new(
                    parameter as nat,
                    |i: int| UNASSIGNED_PARAMETER,
                ),
            decreases self.parameter_count - parameter,
        {
            self.parameters.push(UNASSIGNED_PARAMETER);
            parameter = parameter + 1;
            assert(self.parameters@ =~= old(self).parameters@ + Seq::new(
                parameter as nat,
                |i: int| UNASSIGNED_PARAMETER,
            ));
        }
        proof {
            let tc = self.terminal_count as int;
            let pc = self.parameter_count as int;
            let n = rows as int;
            assert((n + 1) * tc == n * tc + tc) by (nonlinear_arith);
            assert((n + 1) * pc == n * pc + pc) by (nonlinear_arith);
            assert forall|r: int| 0 <= r < n implies #[trigger] self.row(r) == old(self).row(r) by {
                assert forall|t: int| 0 <= t < tc implies self.row(r).terminals[t] == old(self).row(
                    r,
                ).terminals[t] by {
                    lemma_cell_inside(n, tc, r, t);
                }
                assert forall|p: int| 0 <= p < pc implies self.row(r).parameters[p] == old(
                    self,
                ).row(r).parameters[p] by {
                    lemma_cell_inside(n, pc, r, p);
                }
                assert(self.row(r) =~= old(self).row(r));
            }
            assert(self.row(n) =~= blank_device(self.definition_id, tc as nat, pc as nat));
        }
        true
    }

    /// Whether the rows have equal lengths and every parameter is finite or unassigned.
    pub fn is_well_formed(&self) -> (result: bool)
        ensures
            result == self.wf(),
    {
        if self.device_ids.len() > DEVICE_CHUNK_CAPACITY {
            return false;
        }
        let rows: u128 = self.device_ids.len() as u128;
        proof {
            assert(rows * self.terminal_count <= 64 * usize::MAX) by (nonlinear_arith)
                requires
                    rows <= 64,
                    0 <= self.terminal_count <= usize::MAX,
            ;
            assert(rows * self.parameter_count <= 64 * usize::MAX) by (nonlinear_arith)
                requires
                    rows <= 64,
                    0 <= self.parameter_count <= usize::MAX,
            ;
        }
        if self.terminals.len() as u128 != rows * self.terminal_count as u128 {
            return false;
        }
        if self.parameters.len() as u128 != rows * self.parameter_count as u128 {
            return false;
        }
        let mut index: usize = 0;
        while index < self.parameters.len()
            invariant
                index <= self.parameters@.len(),
                forall|i: int|
                    0 <= i < index ==> is_finite(#[trigger] self.parameters@[i])
                        || self.parameters@[i] == UNASSIGNED_PARAMETER,
            decreases self.parameters@.len() - index,
        {
            let value: u64 = self.parameters[index];
            if !is_finite_bits(value) && value != UNASSIGNED_PARAMETER {
                return false;
            }
            index = index + 1;
        }
        true
    }

    fn terminal_index(&self, row: usize, terminal: TerminalId) -> (result: Option<usize>)
        requires
            self.wf(),
            row < self.rows(),
        ensures
            terminal.value() >= self.spec_terminal_count() ==> result is None,
            terminal.value() < self.spec_terminal_count() ==> (result matches Some(index) && index
                == row * self.terminal_count + terminal.value() && index < self.terminals@.len()),
    {
        if terminal.index() < self.terminal_count {
            let total: usize = self.terminals.len();
            proof {
                lemma_cell_inside(
                    self.device_ids@.len() as int,
                    self.terminal_count as int,
                    row as int,
                    terminal.value() as int,
                );
                lemma_row_inside(
                    self.device_ids@.len() as int,
                    self.terminal_count as int,
                    row as int,
                );
            }
            Some(row * self.terminal_count + terminal.index())
        } else {
            None
        }
    }

    fn parameter_index(&self, row: usize, parameter: ParameterId) -> (result: Option<usize>)
        requires
            self.wf(),
            row < self.rows(),
        ensures
            parameter.value() >= self.spec_parameter_count() ==> result is None,
            parameter.value() < self.spec_parameter_count() ==> (result matches Some(index)
                && index == row * self.parameter_count + parameter.value() && index
                < self.parameters@.len()),
    {
        if parameter.index() < self.parameter_count {
            let total: usize = self.parameters.len();
            proof {
                lemma_cell_inside(
                    self.device_ids@.len() as int,
                    self.parameter_count as int,
                    row as int,
                    parameter.value() as int,
                );
                lemma_row_inside(
                    self.device_ids@.len() as int,
                    self.parameter_count as int,
                    row as int,
                );
            }
            Some(row * self.parameter_count + parameter.index())
        } else {
            None
        }
    }

    /// The connection of a terminal, where the terminal exists.
    pub fn terminal(&self, row: usize, terminal: TerminalId) -> (result: Option<
        Option<ConnectionRef>,
    >)
        requires
            self.wf(),
            row < self.rows(),
        ensures
            result == if terminal.value() < self.spec_terminal_count() {
                Some(self.row(row as int).terminals[terminal.value() as int])
            } else {
                None
            },
    {
        match self.terminal_index(row, terminal) {
            Some(index) => Some(self.terminals[index]),
            None => None,
        }
    }

    /// The value of a parameter, where the parameter exists; the pattern for no value included.
    pub fn raw_parameter(&self, row: usize, parameter: ParameterId) -> (result: Option<u64>)
        requires
            self.wf(),
            row < self.rows(),
        ensures
            result == if parameter.value() < self.spec_parameter_count() {
                Some(self.row(row as int).parameters[parameter.value() as int])
            } else {
                None
            },
    {
        match self.parameter_index(row, parameter) {
            Some(index) => Some(self.parameters[index]),
            None => None,
        }
    }

    /// The connections of a row.
    pub fn row_terminals(&self, row: usize) -> (result: &[Option<ConnectionRef>])
        requires
            self.wf(),
            row < self.rows(),
        ensures
            result@ == self.row(row as int).terminals,
    {
        let total: usize = self.terminals.len();
        proof {
            let n = self.device_ids@.len() as int;
            let tc = self.terminal_count as int;
            lemma_row_inside(n, tc, row as int);
            lemma_row_inside(n, tc, row + 1);
            assert((row + 1) * tc == row * tc + tc) by (nonlinear_arith);
        }
        let start: usize = row * self.terminal_count;
        let result = vstd::slice::slice_subrange(
            self.terminals.as_slice(),
            start,
            start + self.terminal_count,
        );
        assert(result@ =~= self.row(row as int).terminals);
        result
    }

    /// Replaces the connection of a terminal.
    pub fn set_terminal(
        &mut self,
        row: usize,
        terminal: TerminalId,
        connection: Option<ConnectionRef>,
    )
        requires
            old(self).wf(),
            row < old(self).rows(),
            terminal.value() < old(self).spec_terminal_count(),
        ensures
            final(self).wf(),
            final(self).rows() == old(self).rows(),
            final(self).spec_definition() == old(self).spec_definition(),
            final(self).spec_terminal_count() == old(self).spec_terminal_count(),
            final(self).spec_parameter_count() == old(self).spec_parameter_count(),
            forall|r: int| #[trigger] final(self).device_at(r) == old(self).device_at(r),
            final(self).row(row as int) == (DeviceModel {
                terminals: old(self).row(row as int).terminals.update(
                    terminal.value() as int,
                    connection,
                ),
                ..old(self).row(row as int)
            }),
            forall|r: int|
                0 <= r < old(self).rows() && r != row ==> #[trigger] final(self).row(r) == old(
                    self,
                ).row(r),
    {
        if let Some(index) = self.terminal_index(row, terminal) {
            self.terminals.set(index, connection);
            proof {
                let n = self.device_ids@.len() as int;
                let tc = self.terminal_count as int;
                let changed = DeviceModel {
                    terminals: old(self).row(row as int).terminals.update(
                        terminal.value() as int,
                        connection,
                    ),
                    ..old(self).row(row as int)
                };
                assert forall|r: int, t: int|
                    0 <= r < n && 0 <= t < tc && (r != row || t != terminal.value()) implies cell(
                    self.terminals@,
                    tc,
                    r,
                    t,
                ) == cell(old(self).terminals@, tc, r, t) by {
                    lemma_cell_inside(n, tc, r, t);
                    if r * tc + t == index {
                        lemma_cells_apart(tc, r, t, row as int, terminal.value() as int);
                    }
                }
                assert(self.row(row as int) =~= changed);
                assert forall|r: int| 0 <= r < n && r != row implies #[trigger] self.row(r) == old(
                    self,
                ).row(r) by {
                    assert(self.row(r) =~= old(self).row(r));
                }
            }
        }
    }

    /// Replaces the value of a parameter.
    pub fn set_parameter(&mut self, row: usize, parameter: ParameterId, value: u64)
        requires
            old(self).wf(),
            row < old(self).rows(),
            parameter.value() < old(self).spec_parameter_count(),
            is_finite(value),
        ensures
            final(self).wf(),
            final(self).rows() == old(self).rows(),
            final(self).spec_definition() == old(self).spec_definition(),
            final(self).spec_terminal_count() == old(self).spec_terminal_count(),
            final(self).spec_parameter_count() == old(self).spec_parameter_count(),
            forall|r: int| #[trigger] final(self).device_at(r) == old(self).device_at(r),
            final(self).row(row as int) == (DeviceModel {
                parameters: old(self).row(row as int).parameters.update(
                    parameter.value() as int,
                    value,
                ),
                ..old(self).row(row as int)
            }),
            forall|r: int|
                0 <= r < old(self).rows() && r != row ==> #[trigger] final(self).row(r) == old(
                    self,
                ).row(r),
    {
        if let Some(index) = self.parameter_index(row, parameter) {
            self.parameters.set(index, value);
            proof {
                let n = self.device_ids@.len() as int;
                let pc = self.parameter_count as int;
                let changed = DeviceModel {
                    parameters: old(self).row(row as int).parameters.update(
                        parameter.value() as int,
                        value,
                    ),
                    ..old(self).row(row as int)
                };
                assert forall|r: int, p: int|
                    0 <= r < n && 0 <= p < pc && (r != row || p != parameter.value()) implies cell(
                    self.parameters@,
                    pc,
                    r,
                    p,
                ) == cell(old(self).parameters@, pc, r, p) by {
                    lemma_cell_inside(n, pc, r, p);
                    if r * pc + p == index {
                        lemma_cells_apart(pc, r, p, row as int, parameter.value() as int);
                    }
                }
                assert(self.row(row as int) =~= changed);
                assert forall|r: int| 0 <= r < n && r != row implies #[trigger] self.row(r) == old(
                    self,
                ).row(r) by {
                    assert(self.row(r) =~= old(self).row(r));
                }
            }
        }
    }

    /// Takes a row out and moves the last one there; gives the device that moved, if one did.
    pub fn remove_row(&mut self, row: usize) -> (result: Option<DeviceId>)
        requires
            old(self).wf(),
            row < old(self).rows(),
        ensures
            final(self).wf(),
            final(self).rows() == old(self).rows() - 1,
            final(self).spec_definition() == old(self).spec_definition(),
            final(self).spec_terminal_count() == old(self).spec_terminal_count(),
            final(self).spec_parameter_count() == old(self).spec_parameter_count(),
            row == old(self).rows() - 1 ==> result is None,
            row != old(self).rows() - 1 ==> (result matches Some(moved) && moved.value() == old(
                self,
            ).device_at(old(self).rows() - 1) && moved.value() != 0),
            forall|r: int|
                0 <= r < old(self).rows() - 1 ==> #[trigger] final(self).row(r) == old(self).row(
                    if r == row {
                        old(self).rows() - 1
                    } else {
                        r
                    },
                ),
            forall|r: int|
                0 <= r < old(self).rows() - 1 ==> #[trigger] final(self).device_at(r) == old(
                    self,
                ).device_at(
                    if r == row {
                        old(self).rows() - 1
                    } else {
                        r
                    },
                ),
    {
        let row_count: usize = self.device_ids.len();
        let last_row: usize = row_count - 1;
        let moved_device = if row != last_row {
            let moved = self.device_ids[last_row];
            let number: u32 = moved.get();
            self.device_ids.set(row, moved);
            Some(moved)
        } else {
            None
        };
        swap_remove_stride(&mut self.terminals, row, row_count, self.terminal_count);
        let ghost before = self.parameters@;
        swap_remove_stride(&mut self.parameters, row, row_count, self.parameter_count);
        self.device_ids.pop();
        proof {
            let n = row_count as int;
            let pc = self.parameter_count as int;
            assert forall|r: int| 0 <= r < n - 1 implies #[trigger] self.row(r) == old(self).row(
                if r == row {
                    n - 1
                } else {
                    r
                },
            ) by {
                let from = if r == row {
                    n - 1
                } else {
                    r
                };
                assert(self.row(r) =~= old(self).row(from));
            }
            assert forall|i: int| 0 <= i < self.parameters@.len() implies is_finite(
                #[trigger] self.parameters@[i],
            ) || self.parameters@[i] == UNASSIGNED_PARAMETER by {
                lemma_split(i, n - 1, pc);
                let r = i / pc;
                let p = i % pc;
                let from = if r == row {
                    n - 1
                } else {
                    r
                };
                assert(cell(self.parameters@, pc, r, p) == cell(before, pc, from, p));
                lemma_cell_inside(n, pc, from, p);
            }
        }
        moved_device
    }
}

/// Every place in a table is a cell.
proof fn lemma_split(index: int, rows: int, stride: int)
    requires
        0 <= index < rows * stride,
        0 <= stride,
    ensures
        stride > 0,
        0 <= index / stride < rows,
        0 <= index % stride < stride,
        index == (index / stride) * stride + index % stride,
{
    assert(stride > 0) by (nonlinear_arith)
        requires
            0 <= index < rows * stride,
            0 <= stride,
    ;
    vstd::arithmetic::div_mod::lemma_fundamental_div_mod(index, stride);
    vstd::arithmetic::div_mod::lemma_mod_bound(index, stride);
    assert((index / stride) * stride == stride * (index / stride)) by (nonlinear_arith);
    assert(0 <= index / stride < rows) by (nonlinear_arith)
        requires
            0 <= index < rows * stride,
            stride > 0,
            index == stride * (index / stride) + index % stride,
            0 <= index % stride < stride,
    ;
}

} // verus!
