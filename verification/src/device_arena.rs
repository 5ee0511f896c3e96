//! The arena that keeps the devices of a network: a directory by device number over chunks of rows.

use crate::connection::{ConnectionRef, ConnectionType};
use crate::definition::DeviceDefinition;
use crate::device_chunk::{
    blank_device, DeviceChunk, DeviceModel, DEVICE_CHUNK_CAPACITY, UNASSIGNED_PARAMETER,
};
use crate::float_bits::is_finite;
use crate::ids::{DefinitionId, DeviceId, ParameterId, TerminalId, MAX_PACKED_ID};
use crate::network_error::NetworkModelError;
use crate::registry::DefinitionRegistry;
use vstd::prelude::*;

verus! {

broadcast use DeviceChunk::lemma_row;

/// The number of chunks that a packed locator can tell apart.
pub const MAX_DEVICE_CHUNKS: usize = 0x200_0000;

/// The first directory entry that stands for a device kept elsewhere.
pub const FIRST_UNLOADED_ENTRY: u32 = 0x8000_0001;

/// A chunk and a row, in one word: the row takes the lower six bits.
#[derive(Debug, Clone, Copy, PartialEq, Eq, Structural)]
pub struct DeviceLocator {
    packed: u32,
}

impl DeviceLocator {
    pub closed spec fn spec_chunk(self) -> int {
        self.packed as int / 64
    }

    pub closed spec fn spec_row(self) -> int {
        self.packed as int % 64
    }

    #[verifier::type_invariant]
    spec fn in_lower_half(self) -> bool {
        self.packed < 0x8000_0000
    }

    /// The locator of a row; none where chunk or row are out of range.
    pub fn new(chunk_index: usize, row: usize) -> (result: Option<Self>)
        ensures
            (chunk_index >= MAX_DEVICE_CHUNKS || row >= DEVICE_CHUNK_CAPACITY) ==> result is None,
            (chunk_index < MAX_DEVICE_CHUNKS && row < DEVICE_CHUNK_CAPACITY) ==> (result matches Some(
                locator,
            ) && locator.spec_chunk() == chunk_index && locator.spec_row() == row),
    {
        if chunk_index >= MAX_DEVICE_CHUNKS || row >= DEVICE_CHUNK_CAPACITY {
            return None;
        }
        Some(DeviceLocator { packed: chunk_index as u32 * 64 + row as u32 })
    }

    pub fn chunk_index(self) -> (result: usize)
        ensures
            result == self.spec_chunk(),
            result < MAX_DEVICE_CHUNKS,
    {
        proof {
            use_type_invariant(self);
        }
        (self.packed / 64) as usize
    }

    pub fn row(self) -> (result: usize)
        ensures
            result == self.spec_row(),
            result < DEVICE_CHUNK_CAPACITY,
    {
        (self.packed % 64) as usize
    }
}

/// What the directory knows of a device number: zero where it is free, the locator plus one where
/// the device is resident, and a larger number where it is kept elsewhere.
#[derive(Debug, Clone, Copy, PartialEq, Eq, Structural)]
pub struct DeviceDirectoryEntry {
    raw: u32,
}

impl DeviceDirectoryEntry {
    pub closed spec fn spec_raw(self) -> u32 {
        self.raw
    }

    pub open spec fn spec_resident(self) -> bool {
        0 < self.spec_raw() < FIRST_UNLOADED_ENTRY
    }

    pub open spec fn spec_chunk(self) -> int {
        (self.spec_raw() - 1) / 64
    }

    pub open spec fn spec_row(self) -> int {
        (self.spec_raw() - 1) % 64
    }

    pub fn unassigned() -> (result: Self)
        ensures
            result.spec_raw() == 0,
    {
        DeviceDirectoryEntry { raw: 0 }
    }

    pub fn from_raw(raw: u32) -> (result: Self)
        ensures
            result.spec_raw() == raw,
    {
        DeviceDirectoryEntry { raw }
    }

    pub fn raw(self) -> (result: u32)
        ensures
            result == self.spec_raw(),
    {
        self.raw
    }

    pub fn resident(locator: DeviceLocator) -> (result: Self)
        ensures
            result.spec_resident(),
            result.spec_chunk() == locator.spec_chunk(),
            result.spec_row() == locator.spec_row(),
    {
        let packed: u32 = (locator.chunk_index() * 64 + locator.row()) as u32;
        DeviceDirectoryEntry { raw: packed + 1 }
    }

    pub fn is_unassigned(self) -> (result: bool)
        ensures
            result == (self.spec_raw() == 0),
    {
        self.raw == 0
    }

    pub fn resident_locator(self) -> (result: Option<DeviceLocator>)
        ensures
            !self.spec_resident() ==> result is None,
            self.spec_resident() ==> (result matches Some(locator) && locator.spec_chunk()
                == self.spec_chunk() && locator.spec_row() == self.spec_row()),
    {
        if self.raw == 0 || self.raw >= FIRST_UNLOADED_ENTRY {
            return None;
        }
        let packed: u32 = self.raw - 1;
        DeviceLocator::new((packed / 64) as usize, (packed % 64) as usize)
    }

    pub fn unloaded_record_index(self) -> (result: Option<u32>)
        ensures
            result == if self.spec_raw() < FIRST_UNLOADED_ENTRY {
                None
            } else {
                Some((self.spec_raw() - FIRST_UNLOADED_ENTRY) as u32)
            },
    {
        if self.raw < FIRST_UNLOADED_ENTRY {
            return None;
        }
        Some(self.raw - FIRST_UNLOADED_ENTRY)
    }
}

/// Where a resident device is kept.
#[derive(Debug, Clone, Copy, PartialEq, Eq, Structural)]
pub struct DeviceLocation {
    chunk_index: u32,
    row: u8,
}

impl DeviceLocation {
    pub closed spec fn spec_chunk(self) -> int {
        self.chunk_index as int
    }

    pub closed spec fn spec_row(self) -> int {
        self.row as int
    }

    pub fn new(chunk_index: u32, row: u8) -> (result: Self)
        ensures
            result.spec_chunk() == chunk_index,
            result.spec_row() == row,
    {
        DeviceLocation { chunk_index, row }
    }

    pub fn chunk_index(self) -> (result: u32)
        ensures
            result == self.spec_chunk(),
    {
        self.chunk_index
    }

    pub fn row(self) -> (result: u8)
        ensures
            result == self.spec_row(),
    {
        self.row
    }
}

/// Where a device was put.
#[derive(Debug, Clone, Copy, PartialEq, Eq, Structural)]
pub struct DeviceInsertResult {
    chunk_index: u32,
    row: u8,
    created_chunk: bool,
}

impl DeviceInsertResult {
    pub closed spec fn spec_chunk(self) -> int {
        self.chunk_index as int
    }

    pub closed spec fn spec_row(self) -> int {
        self.row as int
    }

    pub closed spec fn spec_created(self) -> bool {
        self.created_chunk
    }

    pub fn chunk_index(self) -> (result: u32)
        ensures
            result == self.spec_chunk(),
    {
        self.chunk_index
    }

    pub fn row(self) -> (result: u8)
        ensures
            result == self.spec_row(),
    {
        self.row
    }

    pub fn created_chunk(self) -> (result: bool)
        ensures
            result == self.spec_created(),
    {
        self.created_chunk
    }

    pub fn location(self) -> (result: DeviceLocation)
        ensures
            result.spec_chunk() == self.spec_chunk(),
            result.spec_row() == self.spec_row(),
    {
        DeviceLocation::new(self.chunk_index, self.row)
    }
}

/// A chunk that moved into the place of an emptied one.
#[derive(Debug, Clone, Copy, PartialEq, Eq, Structural)]
pub struct DeviceChunkRelocation {
    from_chunk: u32,
    to_chunk: u32,
}

impl DeviceChunkRelocation {
    pub closed spec fn spec_from(self) -> int {
        self.from_chunk as int
    }

    pub closed spec fn spec_to(self) -> int {
        self.to_chunk as int
    }

    pub fn from_chunk(self) -> (result: u32)
        ensures
            result == self.spec_from(),
    {
        self.from_chunk
    }

    pub fn to_chunk(self) -> (result: u32)
        ensures
            result == self.spec_to(),
    {
        self.to_chunk
    }
}

/// Where a removed device was, and what moved into its place.
#[derive(Debug, Clone, Copy, PartialEq, Eq, Structural)]
pub struct DeviceRemoveResult {
    removed_chunk: u32,
    removed_row: u8,
    moved_device: Option<DeviceId>,
    chunk_relocation: Option<DeviceChunkRelocation>,
}

impl DeviceRemoveResult {
    pub closed spec fn spec_chunk(self) -> int {
        self.removed_chunk as int
    }

    pub closed spec fn spec_row(self) -> int {
        self.removed_row as int
    }

    pub closed spec fn spec_moved(self) -> Option<DeviceId> {
        self.moved_device
    }

    pub closed spec fn spec_relocation(self) -> Option<DeviceChunkRelocation> {
        self.chunk_relocation
    }

    pub fn removed_chunk(self) -> (result: u32)
        ensures
            result == self.spec_chunk(),
    {
        self.removed_chunk
    }

    pub fn removed_row(self) -> (result: u8)
        ensures
            result == self.spec_row(),
    {
        self.removed_row
    }

    pub fn moved_device(self) -> (result: Option<DeviceId>)
        ensures
            result == self.spec_moved(),
    {
        self.moved_device
    }

    pub fn chunk_relocation(self) -> (result: Option<DeviceChunkRelocation>)
        ensures
            result == self.spec_relocation(),
    {
        self.chunk_relocation
    }
}

/// The devices of a network.
#[derive(Debug)]
pub struct DeviceArena {
    directory: Vec<DeviceDirectoryEntry>,
    chunks: Vec<DeviceChunk>,
    active_chunks: Vec<Option<u32>>,
}

impl DeviceArena {
    /// The number of device numbers that have been given out.
    pub closed spec fn spec_directory_len(self) -> int {
        self.directory@.len() as int
    }

    /// Whether a device number is taken, by a resident device or by one kept elsewhere.
    pub closed spec fn assigned(self, device: u32) -> bool {
        1 <= device <= self.directory@.len() && self.directory@[device - 1].spec_raw() != 0
    }

    /// Whether a device is kept in the arena.
    pub closed spec fn resident(self, device: u32) -> bool {
        1 <= device <= self.directory@.len() && self.directory@[device - 1].spec_resident()
    }

    /// The chunk that a resident device is kept in.
    pub closed spec fn chunk_of(self, device: u32) -> int {
        self.directory@[device - 1].spec_chunk()
    }

    /// The row that a resident device is kept in.
    pub closed spec fn row_of(self, device: u32) -> int {
        self.directory@[device - 1].spec_row()
    }

    pub closed spec fn spec_chunk_count(self) -> int {
        self.chunks@.len() as int
    }

    /// The number of rows of a chunk.
    pub closed spec fn rows(self, chunk: int) -> int {
        self.chunks@[chunk].rows()
    }

    /// The definition of the devices in a chunk.
    pub closed spec fn spec_chunk_definition(self, chunk: int) -> DefinitionId {
        self.chunks@[chunk].spec_definition()
    }

    /// The device in a row of a chunk.
    pub closed spec fn device_at(self, chunk: int, row: int) -> u32 {
        self.chunks@[chunk].device_at(row)
    }

    /// The chunk that insertion of a device with this definition is to try first.
    pub closed spec fn hint(self, definition: DefinitionId) -> Option<int> {
        let index = definition.value() - 1;
        if 0 <= index < self.active_chunks@.len() {
            match self.active_chunks@[index] {
                Some(chunk) => Some(chunk as int),
                None => None,
            }
        } else {
            None
        }
    }

    /// What is known of a resident device.
    pub closed spec fn device_model(self, device: u32) -> DeviceModel {
        self.chunks@[self.chunk_of(device)].row(self.row_of(device))
    }

    /// The resident devices.
    pub open spec fn view(self) -> Map<u32, DeviceModel> {
        Map::new(|device: u32| self.resident(device), |device: u32| self.device_model(device))
    }

    /// Whether a chunk can take another device with this definition.
    pub open spec fn takes(self, chunk: int, definition: DefinitionId) -> bool {
        self.spec_chunk_definition(chunk) == definition && self.rows(chunk)
            < DEVICE_CHUNK_CAPACITY
    }

    /// Directory, chunks and insertion hints agree.
    pub closed spec fn wf(self) -> bool {
        &&& self.chunks@.len() <= MAX_DEVICE_CHUNKS
        &&& self.directory@.len() <= MAX_PACKED_ID
        &&& forall|c: int|
            0 <= c < self.chunks@.len() ==> {
                &&& (#[trigger] self.chunks@[c]).wf()
                &&& self.chunks@[c].rows() > 0
                &&& 1 <= self.chunks@[c].spec_definition().value() <= self.active_chunks@.len()
            }
        &&& forall|device: u32| #[trigger]
            self.resident(device) ==> {
                &&& 0 <= self.chunk_of(device) < self.chunks@.len()
                &&& 0 <= self.row_of(device) < self.rows(self.chunk_of(device))
                &&& self.device_at(self.chunk_of(device), self.row_of(device)) == device
            }
        &&& forall|c: int, r: int|
            0 <= c < self.chunks@.len() && 0 <= r < self.chunks@[c].rows() ==> {
                let device = #[trigger] self.device_at(c, r);
                &&& self.resident(device)
                &&& self.chunk_of(device) == c
                &&& self.row_of(device) == r
            }
        &&& forall|i: int|
            0 <= i < self.active_chunks@.len() ==> (#[trigger] self.active_chunks@[i] matches Some(
                c,
            ) ==> {
                &&& c < self.chunks@.len()
                &&& self.chunks@[c as int].spec_definition().value() == i + 1
                &&& self.chunks@[c as int].rows() < DEVICE_CHUNK_CAPACITY
            })
    }

    /// The rows of every chunk have the shape that the chunk's definition gives them.
    pub closed spec fn fits(self, definitions: DefinitionRegistry) -> bool {
        forall|c: int| 0 <= c < self.chunks@.len() ==> #[trigger] self.chunk_fits(c, definitions)
    }

    pub closed spec fn chunk_fits(self, chunk: int, definitions: DefinitionRegistry) -> bool {
        let id = self.chunks@[chunk].spec_definition().value();
        &&& definitions.knows(id)
        &&& self.chunks@[chunk].spec_terminal_count() == definitions.definition(
            id,
        ).spec_terminals().len()
        &&& self.chunks@[chunk].spec_parameter_count() == definitions.definition(
            id,
        ).spec_parameters().len()
    }

    /// What a well-formed arena lets its users rely on.
    pub proof fn lemma_wf(self)
        requires
            self.wf(),
        ensures
            0 <= self.spec_chunk_count() <= MAX_DEVICE_CHUNKS,
            0 <= self.spec_directory_len() <= MAX_PACKED_ID,
            forall|c: int|
                0 <= c < self.spec_chunk_count() ==> 0 < #[trigger] self.rows(c)
                    <= DEVICE_CHUNK_CAPACITY,
            forall|device: u32| #[trigger]
                self.resident(device) ==> {
                    &&& self.assigned(device)
                    &&& 1 <= device <= self.spec_directory_len()
                    &&& 0 <= self.chunk_of(device) < self.spec_chunk_count()
                    &&& 0 <= self.row_of(device) < self.rows(self.chunk_of(device))
                    &&& self.device_at(self.chunk_of(device), self.row_of(device)) == device
                    &&& self.spec_chunk_definition(self.chunk_of(device)) == self.device_model(
                        device,
                    ).definition
                },
            forall|c: int, r: int|
                0 <= c < self.spec_chunk_count() && 0 <= r < self.rows(c) ==> {
                    let device = #[trigger] self.device_at(c, r);
                    &&& self.resident(device)
                    &&& self.chunk_of(device) == c
                    &&& self.row_of(device) == r
                },
    {
        assert forall|c: int| 0 <= c < self.spec_chunk_count() implies 0 < #[trigger] self.rows(c)
            <= DEVICE_CHUNK_CAPACITY by {
            self.chunks@[c].lemma_wf();
        }
    }

    /// What the rows of a resident device look like.
    pub proof fn lemma_fits(self, definitions: DefinitionRegistry, device: u32)
        requires
            self.wf(),
            self.fits(definitions),
            self.resident(device),
        ensures
            definitions.knows(self.device_model(device).definition.value()),
            self.device_model(device).terminals.len() == definitions.definition(
                self.device_model(device).definition.value(),
            ).spec_terminals().len(),
            self.device_model(device).parameters.len() == definitions.definition(
                self.device_model(device).definition.value(),
            ).spec_parameters().len(),
    {
        assert(self.chunk_fits(self.chunk_of(device), definitions));
    }

    /// An arena without devices.
    pub fn new() -> (result: Self)
        ensures
            result.wf(),
            forall|definitions: DefinitionRegistry| result.fits(definitions),
            result.spec_directory_len() == 0,
            result.spec_chunk_count() == 0,
            result@ == Map::<u32, DeviceModel>::empty(),
            forall|device: u32| !#[trigger] result.assigned(device),
            forall|device: u32| !#[trigger] result.resident(device),
            forall|definition: DefinitionId| #[trigger] result.hint(definition) is None,
            forall|definition: DefinitionId| #[trigger]
                result.insertion_choice(definition) is None,
    {
        let result = DeviceArena {
            directory: Vec::new(),
            chunks: Vec::new(),
            active_chunks: Vec::new(),
        };
        assert(result@ =~= Map::<u32, DeviceModel>::empty());
        result
    }

    /// An arena without devices, with room for a number of them in its directory.
    pub fn with_directory_capacity(capacity: usize) -> (result: Self)
        ensures
            result.wf(),
            forall|definitions: DefinitionRegistry| result.fits(definitions),
            result.spec_directory_len() == 0,
            result.spec_chunk_count() == 0,
            result@ == Map::<u32, DeviceModel>::empty(),
            forall|device: u32| !#[trigger] result.assigned(device),
            forall|device: u32| !#[trigger] result.resident(device),
            forall|definition: DefinitionId| #[trigger] result.hint(definition) is None,
            forall|definition: DefinitionId| #[trigger]
                result.insertion_choice(definition) is None,
    {
        let result = DeviceArena {
            directory: Vec::with_capacity(capacity),
            chunks: Vec::new(),
            active_chunks: Vec::new(),
        };
        assert(result@ =~= Map::<u32, DeviceModel>::empty());
        result
    }

    pub fn directory_len(&self) -> (result: usize)
        ensures
            result == self.spec_directory_len(),
    {
        self.directory.len()
    }

    pub fn chunk_count(&self) -> (result: usize)
        ensures
            result == self.spec_chunk_count(),
    {
        self.chunks.len()
    }

    pub fn chunk_len(&self, chunk_index: usize) -> (result: usize)
        requires
            chunk_index < self.spec_chunk_count(),
        ensures
            result == self.rows(chunk_index as int),
    {
        self.chunks[chunk_index].len()
    }

    pub fn chunk_definition(&self, chunk_index: usize) -> (result: DefinitionId)
        requires
            chunk_index < self.spec_chunk_count(),
        ensures
            result == self.spec_chunk_definition(chunk_index as int),
    {
        self.chunks[chunk_index].definition_id()
    }

    /// The device in a row of a chunk.
    pub fn device_in(&self, chunk_index: usize, row: usize) -> (result: DeviceId)
        requires
            chunk_index < self.spec_chunk_count(),
            row < self.rows(chunk_index as int),
        ensures
            result.value() == self.device_at(chunk_index as int, row as int),
            result.value() != 0,
    {
        self.chunks[chunk_index].device_id(row)
    }

    pub fn is_assigned(&self, device: DeviceId) -> (result: bool)
        ensures
            result == self.assigned(device.value()),
    {
        let index: usize = device.index();
        index < self.directory.len() && !self.directory[index].is_unassigned()
    }

    pub fn resident_locator(&self, device: DeviceId) -> (result: Result<
        DeviceLocator,
        NetworkModelError,
    >)
        ensures
            self.resident(device.value()) ==> (result matches Ok(locator) && locator.spec_chunk()
                == self.chunk_of(device.value()) && locator.spec_row() == self.row_of(
                device.value(),
            )),
            !self.resident(device.value()) ==> result == Err::<DeviceLocator, _>(
                NetworkModelError::IdNotAssigned {
                    ty: ConnectionType::Device,
                    id: device.value(),
                },
            ),
    {
        let index: usize = device.index();
        if index < self.directory.len() {
            if let Some(locator) = self.directory[index].resident_locator() {
                return Ok(locator);
            }
        }
        Err(NetworkModelError::IdNotAssigned { ty: ConnectionType::Device, id: device.get() })
    }

    /// A chunk that insertion is to try first takes the definition.
    pub(crate) proof fn lemma_hint(self, definition: DefinitionId)
        requires
            self.wf(),
        ensures
            self.hint(definition) matches Some(chunk) ==> 0 <= chunk < self.spec_chunk_count()
                && self.takes(chunk, definition),
    {
        broadcast use DefinitionId::lemma_value_injective;

        let index = definition.value() - 1;
        if let Some(chunk) = self.hint(definition) {
            assert(self.active_chunks@[index] matches Some(c) && c == chunk);
            assert(self.chunks@[chunk].spec_definition().value() == definition.value());
        }
    }

    /// The first chunk that takes the definition, from `from` on.
    pub open spec fn first_taking(self, definition: DefinitionId, from: int) -> Option<int>
        decreases self.spec_chunk_count() - from,
    {
        if from >= self.spec_chunk_count() {
            None
        } else if self.takes(from, definition) {
            Some(from)
        } else {
            self.first_taking(definition, from + 1)
        }
    }

    /// The chunk that a device with this definition goes to, where an existing one takes it.
    pub open spec fn insertion_choice(self, definition: DefinitionId) -> Option<int> {
        match self.hint(definition) {
            Some(chunk) => Some(chunk),
            None => self.first_taking(definition, 0),
        }
    }

    fn ensure_active_slot(&mut self, definition: DefinitionId)
        requires
            old(self).wf(),
        ensures
            final(self).wf(),
            final(self).directory == old(self).directory,
            final(self).chunks == old(self).chunks,
            definition.value() <= final(self).active_chunks@.len(),
            definition.value() != 0,
            forall|id: DefinitionId| #[trigger] final(self).hint(id) == old(self).hint(id),
    {
        let index: usize = definition.index();
        let ghost before = self.active_chunks@;
        while self.active_chunks.len() <= index
            invariant
                self.directory == old(self).directory,
                self.chunks == old(self).chunks,
                before == old(self).active_chunks@,
                before.len() <= self.active_chunks@.len(),
                forall|i: int|
                    0 <= i < self.active_chunks@.len() ==> #[trigger] self.active_chunks@[i]
                        == if i < before.len() {
                        before[i]
                    } else {
                        None
                    },
            decreases index + 1 - self.active_chunks.len(),
        {
            self.active_chunks.push(None);
        }
        assert forall|device: u32| #[trigger] self.resident(device) implies old(self).resident(
            device,
        ) && self.chunk_of(device) == old(self).chunk_of(device) && self.row_of(device) == old(
            self,
        ).row_of(device) by {}
        assert forall|c: int, r: int| true implies #[trigger] self.device_at(c, r) == old(
            self,
        ).device_at(c, r) by {}
        assert forall|device: u32| #[trigger] old(self).resident(device) implies self.resident(
            device,
        ) by {}
    }

    /// The chunk that a device with this definition goes to, where an existing one takes it.
    fn insertion_chunk(&mut self, definition: DefinitionId) -> (result: Option<usize>)
        requires
            old(self).wf(),
        ensures
            final(self).wf(),
            final(self).directory == old(self).directory,
            final(self).chunks == old(self).chunks,
            definition.value() <= final(self).active_chunks@.len(),
            definition.value() != 0,
            match result {
                Some(index) => {
                    &&& old(self).insertion_choice(definition) == Some(index as int)
                    &&& index < old(self).spec_chunk_count()
                    &&& old(self).takes(index as int, definition)
                },
                None => old(self).insertion_choice(definition) is None,
            },
            forall|id: DefinitionId|
                id != definition || result is None ==> #[trigger] final(self).hint(id) == old(
                    self,
                ).hint(id),
    {
        broadcast use DefinitionId::lemma_value_injective;

        self.ensure_active_slot(definition);
        if let Some(index) = self.active_chunks[definition.index()] {
            assert(self.hint(definition) == Some(index as int));
            return Some(index as usize);
        }
        assert(self.hint(definition) is None);
        let mut index: usize = 0;
        while index < self.chunks.len()
            invariant
                index <= self.chunks@.len(),
                self.wf(),
                self.directory == old(self).directory,
                self.chunks == old(self).chunks,
                1 <= definition.value() <= self.active_chunks@.len(),
                old(self).hint(definition) is None,
                forall|id: DefinitionId| #[trigger] self.hint(id) == old(self).hint(id),
                old(self).first_taking(definition, 0) == old(self).first_taking(
                    definition,
                    index as int,
                ),
            decreases self.chunks@.len() - index,
        {
            let chunk = &self.chunks[index];
            proof {
                chunk.lemma_wf();
            }
            if chunk.definition_id().get() == definition.get() && !chunk.is_full() {
                let ghost before = *self;
                proof {
                    DefinitionId::lemma_value_injective(chunk.spec_definition(), definition);
                }
                assert(old(self).takes(index as int, definition));
                self.active_chunks.set(definition.index(), Some(index as u32));
                assert forall|id: DefinitionId| id != definition implies #[trigger] self.hint(id)
                    == old(self).hint(id) by {
                    DefinitionId::lemma_value_injective(id, definition);
                    assert(before.hint(id) == old(self).hint(id));
                }
                assert forall|device: u32| #[trigger] self.resident(device) implies before.resident(
                    device,
                ) && self.chunk_of(device) == before.chunk_of(device) && self.row_of(device)
                    == before.row_of(device) by {}
                assert forall|device: u32| #[trigger] before.resident(
                    device,
                ) implies self.resident(device) by {}
                assert forall|c: int, r: int| true implies #[trigger] self.device_at(c, r)
                    == before.device_at(c, r) by {}
                return Some(index);
            }
            index = index + 1;
        }
        None
    }

    /// The chunk that a device with this definition would go to, where an existing one takes it.
    pub fn planned_chunk(&self, definition: DefinitionId) -> (result: Option<usize>)
        requires
            self.wf(),
        ensures
            match result {
                Some(index) => self.insertion_choice(definition) == Some(index as int) && index
                    < self.spec_chunk_count(),
                None => self.insertion_choice(definition) is None,
            },
    {
        let slot: usize = definition.index();
        if slot < self.active_chunks.len() {
            if let Some(index) = self.active_chunks[slot] {
                assert(self.hint(definition) == Some(index as int));
                return Some(index as usize);
            }
        }
        assert(self.hint(definition) is None);
        let mut index: usize = 0;
        while index < self.chunks.len()
            invariant
                index <= self.chunks@.len(),
                self.wf(),
                self.first_taking(definition, 0) == self.first_taking(definition, index as int),
                self.hint(definition) is None,
            decreases self.chunks@.len() - index,
        {
            let chunk = &self.chunks[index];
            proof {
                chunk.lemma_wf();
                DefinitionId::lemma_value_injective(chunk.spec_definition(), definition);
            }
            if chunk.definition_id().get() == definition.get() && !chunk.is_full() {
                return Some(index);
            }
            index = index + 1;
        }
        None
    }

    /// Adds a device: to a chunk that takes it, or to a new one.
    pub fn insert(
        &mut self,
        device: DeviceId,
        definition_id: DefinitionId,
        definition: &DeviceDefinition,
    ) -> (result: Result<DeviceInsertResult, NetworkModelError>)
        requires
            old(self).wf(),
            device.value() <= MAX_PACKED_ID,
            device.value() - 1 <= old(self).spec_directory_len(),
            !old(self).assigned(device.value()),
            forall|c: int|
                0 <= c < old(self).spec_chunk_count() && (#[trigger] old(
                    self,
                ).spec_chunk_definition(c)) == definition_id ==> old(self).shaped_as(c, *definition),
        ensures
            final(self).wf(),
            match result {
                Ok(insert) => {
                    &&& insert.spec_chunk() == match old(self).insertion_choice(definition_id) {
                        Some(chunk) => chunk,
                        None => old(self).spec_chunk_count(),
                    }
                    &&& insert.spec_created() == (old(self).insertion_choice(definition_id) is None)
                    &&& insert.spec_row() == if insert.spec_created() {
                        0
                    } else {
                        old(self).rows(insert.spec_chunk())
                    }
                    &&& old(self).inserted(*final(self), device.value(), definition_id, insert)
                    &&& final(self)@ == old(self)@.insert(
                        device.value(),
                        blank_device(
                            definition_id,
                            definition.spec_terminals().len(),
                            definition.spec_parameters().len(),
                        ),
                    )
                    &&& forall|definitions: DefinitionRegistry|
                        old(self).fits(definitions) && definitions.knows(definition_id.value())
                            && definitions.definition(definition_id.value()) == *definition
                            ==> #[trigger] final(self).fits(definitions)
                },
                Err(error) => {
                    &&& error == NetworkModelError::DeviceArenaExhausted
                    &&& old(self).insertion_choice(definition_id) is None
                    &&& old(self).spec_chunk_count() >= MAX_DEVICE_CHUNKS
                    &&& final(self)@ == old(self)@
                    &&& old(self).same_places(*final(self))
                    &&& forall|definitions: DefinitionRegistry|
                        old(self).fits(definitions) ==> #[trigger] final(self).fits(definitions)
                },
            },
    {
        broadcast use DefinitionId::lemma_value_injective;

        let device_index: usize = device.index();
        let mut created_chunk = false;
        let choice = self.insertion_chunk(definition_id);
        let ghost chosen = *self;
        let chunk_index: usize = match choice {
            Some(index) => index,
            None => {
                if self.chunks.len() >= MAX_DEVICE_CHUNKS {
                    assert(self@ =~= old(self)@);
                    proof {
                        assert forall|definitions: DefinitionRegistry|
                            old(self).fits(definitions) implies #[trigger] self.fits(
                            definitions,
                        ) by {
                            assert forall|c: int|
                                0 <= c < self.chunks@.len() implies #[trigger] self.chunk_fits(
                                c,
                                definitions,
                            ) by {
                                assert(old(self).chunk_fits(c, definitions));
                            }
                        }
                    }
                    return Err(NetworkModelError::DeviceArenaExhausted);
                }
                let index: usize = self.chunks.len();
                self.chunks.push(DeviceChunk::new(definition_id, definition));
                created_chunk = true;
                index
            },
        };
        let ghost mid = *self;
        let row: usize = self.chunks[chunk_index].len();
        let inserted = self.chunks[chunk_index].push_empty_row(device);
        let locator = DeviceLocator::new(chunk_index, row).unwrap();
        let entry = DeviceDirectoryEntry::resident(locator);
        if device_index == self.directory.len() {
            self.directory.push(entry);
        } else {
            self.directory.set(device_index, entry);
        }
        let active = if self.chunks[chunk_index].is_full() {
            None
        } else {
            Some(chunk_index as u32)
        };
        self.active_chunks.set(definition_id.index(), active);
        let result = DeviceInsertResult {
            chunk_index: chunk_index as u32,
            row: row as u8,
            created_chunk,
        };
        proof {
            let d = device.value();
            let k = chunk_index as int;
            assert forall|id: DefinitionId| #[trigger] self.hint(id) == if id != definition_id {
                old(self).hint(id)
            } else if row + 1 < DEVICE_CHUNK_CAPACITY {
                Some(k)
            } else {
                None
            } by {
                DefinitionId::lemma_value_injective(id, definition_id);
                if id != definition_id {
                    assert(chosen.hint(id) == old(self).hint(id));
                }
            }
            assert forall|x: u32| x != d implies #[trigger] self.resident(x) == old(self).resident(
                x,
            ) by {}
            assert forall|x: u32| x != d && old(self).resident(x) implies {
                &&& #[trigger] self.chunk_of(x) == old(self).chunk_of(x)
                &&& self.row_of(x) == old(self).row_of(x)
                &&& self.device_model(x) == old(self).device_model(x)
            } by {
                assert(old(self).resident(x));
                let c = old(self).chunk_of(x);
                assert(self.chunk_of(x) == c);
                if c == k {
                    assert(self.chunks@[k].row(old(self).row_of(x)) == mid.chunks@[k].row(
                        old(self).row_of(x),
                    ));
                }
            }
            assert forall|c: int, r: int|
                0 <= c < self.chunks@.len() && 0 <= r < self.chunks@[c].rows() implies {
                let x = #[trigger] self.device_at(c, r);
                &&& self.resident(x)
                &&& self.chunk_of(x) == c
                &&& self.row_of(x) == r
            } by {
                if c == k && r == row {
                } else {
                    assert(self.device_at(c, r) == old(self).device_at(c, r));
                }
            }
            assert forall|x: u32| #[trigger] self.resident(x) implies {
                &&& 0 <= self.chunk_of(x) < self.chunks@.len()
                &&& 0 <= self.row_of(x) < self.rows(self.chunk_of(x))
                &&& self.device_at(self.chunk_of(x), self.row_of(x)) == x
            } by {
                if x != d {
                    assert(old(self).resident(x));
                    assert(self.chunk_of(x) == old(self).chunk_of(x));
                }
            }
            assert forall|i: int| 0 <= i < self.active_chunks@.len() implies (
            #[trigger] self.active_chunks@[i] matches Some(c) ==> {
                &&& c < self.chunks@.len()
                &&& self.chunks@[c as int].spec_definition().value() == i + 1
                &&& self.chunks@[c as int].rows() < DEVICE_CHUNK_CAPACITY
            }) by {
                if i != definition_id.value() - 1 {
                    assert(self.active_chunks@[i] == mid.active_chunks@[i]);
                }
            }
            assert forall|c: int| 0 <= c < self.chunks@.len() implies {
                &&& (#[trigger] self.chunks@[c]).wf()
                &&& self.chunks@[c].rows() > 0
                &&& 1 <= self.chunks@[c].spec_definition().value() <= self.active_chunks@.len()
            } by {
                if c != k {
                    assert(self.chunks@[c] == mid.chunks@[c]);
                }
                self.chunks@[c].lemma_wf();
            }
            assert(self@ =~= old(self)@.insert(
                d,
                blank_device(
                    definition_id,
                    definition.spec_terminals().len(),
                    definition.spec_parameters().len(),
                ),
            ));
            assert forall|definitions: DefinitionRegistry|
                old(self).fits(definitions) && definitions.knows(definition_id.value())
                    && definitions.definition(definition_id.value())
                    == *definition implies #[trigger] self.fits(definitions) by {
                assert forall|c: int| 0 <= c < self.chunks@.len() implies #[trigger] self.chunk_fits(
                    c,
                    definitions,
                ) by {
                    if c != k || !created_chunk {
                        assert(old(self).chunk_fits(c, definitions));
                    }
                }
            }
        }
        Ok(result)
    }

    /// Whether the rows of a chunk have the shape that a definition gives them.
    pub closed spec fn shaped_as(self, chunk: int, definition: DeviceDefinition) -> bool {
        &&& self.chunks@[chunk].spec_terminal_count() == definition.spec_terminals().len()
        &&& self.chunks@[chunk].spec_parameter_count() == definition.spec_parameters().len()
    }

    /// In an arena that fits the definitions, the chunks of a definition have its shape.
    pub proof fn lemma_shaped(self, definitions: DefinitionRegistry, chunk: int)
        requires
            self.fits(definitions),
            0 <= chunk < self.spec_chunk_count(),
        ensures
            definitions.knows(self.spec_chunk_definition(chunk).value()),
            self.shaped_as(
                chunk,
                definitions.definition(self.spec_chunk_definition(chunk).value()),
            ),
    {
        assert(self.chunk_fits(chunk, definitions));
    }

    /// Whether `after` keeps every device where this arena keeps it.
    pub open spec fn same_places(self, after: Self) -> bool {
        &&& after.spec_directory_len() == self.spec_directory_len()
        &&& after.spec_chunk_count() == self.spec_chunk_count()
        &&& forall|c: int|
            0 <= c < self.spec_chunk_count() ==> #[trigger] after.rows(c) == self.rows(c)
        &&& forall|c: int|
            0 <= c < self.spec_chunk_count() ==> #[trigger] after.spec_chunk_definition(c)
                == self.spec_chunk_definition(c)
        &&& forall|x: u32| #[trigger] after.resident(x) == self.resident(x)
        &&& forall|x: u32| #[trigger] after.assigned(x) == self.assigned(x)
        &&& forall|x: u32|
            self.resident(x) ==> #[trigger] after.chunk_of(x) == self.chunk_of(x)
        &&& forall|x: u32| self.resident(x) ==> #[trigger] after.row_of(x) == self.row_of(x)
        &&& forall|id: DefinitionId| #[trigger] after.hint(id) == self.hint(id)
    }

    /// Whether `after` keeps every device where this arena keeps it, and one more device where
    /// `insert` says.
    pub open spec fn inserted(
        self,
        after: Self,
        device: u32,
        definition: DefinitionId,
        insert: DeviceInsertResult,
    ) -> bool {
        &&& after.spec_directory_len() == if device > self.spec_directory_len() {
            device as int
        } else {
            self.spec_directory_len()
        }
        &&& after.spec_chunk_count() == self.spec_chunk_count() + if insert.spec_created() {
            1int
        } else {
            0
        }
        &&& 0 <= insert.spec_chunk() < after.spec_chunk_count()
        &&& insert.spec_created() ==> insert.spec_chunk() == self.spec_chunk_count()
        &&& forall|c: int|
            0 <= c < after.spec_chunk_count() ==> #[trigger] after.rows(c) == if c
                == insert.spec_chunk() {
                insert.spec_row() + 1
            } else {
                self.rows(c)
            }
        &&& !insert.spec_created() ==> insert.spec_row() == self.rows(insert.spec_chunk())
        &&& insert.spec_created() ==> insert.spec_row() == 0
        &&& forall|c: int|
            0 <= c < self.spec_chunk_count() ==> #[trigger] after.spec_chunk_definition(c)
                == self.spec_chunk_definition(c)
        &&& after.spec_chunk_definition(insert.spec_chunk()) == definition
        &&& forall|x: u32| #[trigger] after.resident(x) == (self.resident(x) || x == device)
        &&& forall|x: u32| #[trigger] after.assigned(x) == (self.assigned(x) || x == device)
        &&& after.chunk_of(device) == insert.spec_chunk()
        &&& after.row_of(device) == insert.spec_row()
        &&& forall|x: u32|
            self.resident(x) ==> #[trigger] after.chunk_of(x) == self.chunk_of(x)
        &&& forall|x: u32| self.resident(x) ==> #[trigger] after.row_of(x) == self.row_of(x)
        &&& forall|id: DefinitionId| #[trigger]
            after.hint(id) == if id != definition {
                self.hint(id)
            } else if insert.spec_row() + 1 < DEVICE_CHUNK_CAPACITY {
                Some(insert.spec_chunk())
            } else {
                None
            }
    }

    /// The device, where it is resident.
    pub fn device(&self, device: DeviceId) -> (result: Result<DeviceView<'_>, NetworkModelError>)
        requires
            self.wf(),
        ensures
            self.resident(device.value()) ==> (result matches Ok(view) && view.wf() && view@
                == self.device_model(device.value())),
            !self.resident(device.value()) ==> result == Err::<DeviceView<'_>, _>(
                NetworkModelError::IdNotAssigned {
                    ty: ConnectionType::Device,
                    id: device.value(),
                },
            ),
    {
        match self.resident_locator(device) {
            Ok(locator) => Ok(
                DeviceView { chunk: &self.chunks[locator.chunk_index()], row: locator.row() },
            ),
            Err(error) => Err(error),
        }
    }

    /// Where the device is kept.
    pub fn location(&self, device: DeviceId) -> (result: Result<DeviceLocation, NetworkModelError>)
        requires
            self.wf(),
        ensures
            self.resident(device.value()) ==> (result matches Ok(location) && location.spec_chunk()
                == self.chunk_of(device.value()) && location.spec_row() == self.row_of(
                device.value(),
            )),
            !self.resident(device.value()) ==> result == Err::<DeviceLocation, _>(
                NetworkModelError::IdNotAssigned {
                    ty: ConnectionType::Device,
                    id: device.value(),
                },
            ),
    {
        match self.resident_locator(device) {
            Ok(locator) => Ok(
                DeviceLocation::new(locator.chunk_index() as u32, locator.row() as u8),
            ),
            Err(error) => Err(error),
        }
    }

    /// The value of a parameter at a place: none where the place or the parameter does not exist,
    /// and none inside where no value is assigned.
    pub fn parameter_at(&self, location: DeviceLocation, parameter: ParameterId) -> (result: Option<
        Option<u64>,
    >)
        requires
            self.wf(),
        ensures
            result == self.spec_parameter_at(location, parameter),
    {
        let chunk_index: usize = location.chunk_index() as usize;
        let row: usize = location.row() as usize;
        if chunk_index >= self.chunks.len() || row >= self.chunks[chunk_index].len() {
            return None;
        }
        match self.chunks[chunk_index].raw_parameter(row, parameter) {
            Some(value) => Some(decode_parameter(value)),
            None => None,
        }
    }

    /// The value of a parameter at a place.
    pub closed spec fn spec_parameter_at(
        self,
        location: DeviceLocation,
        parameter: ParameterId,
    ) -> Option<Option<u64>> {
        let chunk = location.spec_chunk();
        if chunk < self.spec_chunk_count() && location.spec_row() < self.rows(chunk)
            && parameter.value() < self.chunks@[chunk].spec_parameter_count() {
            Some(
                assigned_value(
                    self.chunks@[chunk].row(location.spec_row()).parameters[parameter.value() as int],
                ),
            )
        } else {
            None
        }
    }

    /// The value of a parameter at the place of a resident device is that of the device.
    pub proof fn law_parameters_are_found_by_place(
        self,
        location: DeviceLocation,
        device: u32,
        parameter: ParameterId,
    )
        requires
            self.wf(),
            self.resident(device),
            location.spec_chunk() == self.chunk_of(device),
            location.spec_row() == self.row_of(device),
        ensures
            self.spec_parameter_at(location, parameter) == if parameter.value()
                < self.device_model(device).parameters.len() {
                Some(
                    assigned_value(self.device_model(device).parameters[parameter.value() as int]),
                )
            } else {
                None
            },
    {
    }

    /// Assigns a value to a parameter of a device.
    pub fn set_parameter(&mut self, device: DeviceId, parameter: ParameterId, value: u64) -> (result:
        Result<(), NetworkModelError>)
        requires
            old(self).wf(),
            is_finite(value),
        ensures
            final(self).wf(),
            old(self).same_places(*final(self)),
            forall|definitions: DefinitionRegistry|
                old(self).fits(definitions) ==> #[trigger] final(self).fits(definitions),
            if !old(self).resident(device.value()) {
                &&& result == Err::<(), _>(
                    NetworkModelError::IdNotAssigned {
                        ty: ConnectionType::Device,
                        id: device.value(),
                    },
                )
                &&& *final(self) == *old(self)
            } else {
                let model = old(self).device_model(device.value());
                if parameter.value() >= model.parameters.len() {
                    &&& result == Err::<(), _>(NetworkModelError::InvalidParameter { parameter })
                    &&& *final(self) == *old(self)
                } else {
                    &&& result is Ok
                    &&& final(self)@ == old(self)@.insert(
                        device.value(),
                        DeviceModel {
                            parameters: model.parameters.update(parameter.value() as int, value),
                            ..model
                        },
                    )
                }
            },
    {
        let locator = match self.resident_locator(device) {
            Ok(locator) => locator,
            Err(error) => {
                return Err(error);
            },
        };
        let chunk_index: usize = locator.chunk_index();
        let row: usize = locator.row();
        if parameter.index() >= self.chunks[chunk_index].parameter_count() {
            return Err(NetworkModelError::InvalidParameter { parameter });
        }
        self.chunks[chunk_index].set_parameter(row, parameter, value);
        proof {
            let model = old(self).device_model(device.value());
            self.lemma_row_changed(
                *old(self),
                device.value(),
                DeviceModel {
                    parameters: model.parameters.update(parameter.value() as int, value),
                    ..model
                },
            );
        }
        Ok(())
    }

    /// One row that changes leaves everything else of a well-formed arena as it was.
    proof fn lemma_row_changed(self, before: Self, device: u32, model: DeviceModel)
        requires
            before.wf(),
            before.resident(device),
            self.directory == before.directory,
            self.active_chunks == before.active_chunks,
            self.chunks@.len() == before.chunks@.len(),
            forall|c: int|
                0 <= c < before.chunks@.len() && c != before.chunk_of(device) ==> #[trigger] self.chunks@[c]
                    == before.chunks@[c],
            ({
                let chunk = self.chunks@[before.chunk_of(device)];
                let old_chunk = before.chunks@[before.chunk_of(device)];
                &&& chunk.wf()
                &&& chunk.rows() == old_chunk.rows()
                &&& chunk.spec_definition() == old_chunk.spec_definition()
                &&& chunk.spec_terminal_count() == old_chunk.spec_terminal_count()
                &&& chunk.spec_parameter_count() == old_chunk.spec_parameter_count()
                &&& forall|r: int| #[trigger] chunk.device_at(r) == old_chunk.device_at(r)
                &&& chunk.row(before.row_of(device)) == model
                &&& forall|r: int|
                    0 <= r < old_chunk.rows() && r != before.row_of(device) ==> #[trigger] chunk.row(
                        r,
                    ) == old_chunk.row(r)
            }),
        ensures
            self.wf(),
            before.same_places(self),
            self@ == before@.insert(device, model),
            forall|definitions: DefinitionRegistry|
                before.fits(definitions) ==> #[trigger] self.fits(definitions),
    {
        let k = before.chunk_of(device);
        assert forall|x: u32| #[trigger] self.resident(x) == before.resident(x) by {}
        assert forall|c: int, r: int|
            0 <= c < self.chunks@.len() implies #[trigger] self.device_at(c, r) == before.device_at(
            c,
            r,
        ) by {
            if c != k {
                assert(self.chunks@[c] == before.chunks@[c]);
            }
        }
        assert forall|c: int| 0 <= c < self.chunks@.len() implies #[trigger] self.rows(c)
            == before.rows(c) by {
            if c != k {
                assert(self.chunks@[c] == before.chunks@[c]);
            }
        }
        assert forall|c: int| 0 <= c < self.chunks@.len() implies {
            &&& (#[trigger] self.chunks@[c]).wf()
            &&& self.chunks@[c].rows() > 0
            &&& self.chunks@[c].spec_definition() == before.chunks@[c].spec_definition()
            &&& 1 <= self.chunks@[c].spec_definition().value() <= self.active_chunks@.len()
        } by {
            assert(before.chunks@[c].rows() > 0);
        }
        assert forall|x: u32| #[trigger] self.resident(x) implies {
            &&& 0 <= self.chunk_of(x) < self.chunks@.len()
            &&& 0 <= self.row_of(x) < self.rows(self.chunk_of(x))
            &&& self.device_at(self.chunk_of(x), self.row_of(x)) == x
        } by {
            assert(before.resident(x));
        }
        assert forall|x: u32| before.resident(x) && x != device implies #[trigger] self.device_model(
            x,
        ) == before.device_model(x) by {
            let c = before.chunk_of(x);
            let r = before.row_of(x);
            assert(before.device_at(c, r) == x);
            if c != k {
                assert(self.chunks@[c] == before.chunks@[c]);
            } else {
                assert(r != before.row_of(device));
                assert(self.chunks@[k].row(r) == before.chunks@[k].row(r));
            }
        }
        assert(self@ =~= before@.insert(device, model));
        assert forall|definitions: DefinitionRegistry| before.fits(
            definitions,
        ) implies #[trigger] self.fits(definitions) by {
            assert forall|c: int| 0 <= c < self.chunks@.len() implies #[trigger] self.chunk_fits(
                c,
                definitions,
            ) by {
                assert(before.chunk_fits(c, definitions));
                assert(self.chunks@[c].wf());
            }
        }
    }

    /// The connection of a terminal.
    pub fn terminal_connection(&self, device: DeviceId, terminal: TerminalId) -> (result: Result<
        Option<ConnectionRef>,
        NetworkModelError,
    >)
        requires
            self.wf(),
        ensures
            result == self.spec_terminal_connection(device.value(), terminal.value()),
    {
        let locator = match self.resident_locator(device) {
            Ok(locator) => locator,
            Err(error) => {
                return Err(error);
            },
        };
        match self.chunks[locator.chunk_index()].terminal(locator.row(), terminal) {
            Some(connection) => Ok(connection),
            None => Err(NetworkModelError::InvalidTerminal),
        }
    }

    /// The connection of a terminal, or why there is none to ask for.
    pub open spec fn spec_terminal_connection(self, device: u32, terminal: u32) -> Result<
        Option<ConnectionRef>,
        NetworkModelError,
    > {
        if !self.resident(device) {
            Err(NetworkModelError::IdNotAssigned { ty: ConnectionType::Device, id: device })
        } else if terminal >= self.device_model(device).terminals.len() {
            Err(NetworkModelError::InvalidTerminal)
        } else {
            Ok(self.device_model(device).terminals[terminal as int])
        }
    }

    /// Gives a connection to a terminal that has none.
    pub fn attach_terminal(
        &mut self,
        device: DeviceId,
        terminal: TerminalId,
        connection: ConnectionRef,
    ) -> (result: Result<(), NetworkModelError>)
        requires
            old(self).wf(),
        ensures
            final(self).wf(),
            old(self).same_places(*final(self)),
            forall|definitions: DefinitionRegistry|
                old(self).fits(definitions) ==> #[trigger] final(self).fits(definitions),
            match old(self).spec_terminal_connection(device.value(), terminal.value()) {
                Err(error) => result == Err::<(), _>(error) && *final(self) == *old(self),
                Ok(Some(_)) => result == Err::<(), _>(NetworkModelError::TerminalAlreadyConnected)
                    && *final(self) == *old(self),
                Ok(None) => {
                    let model = old(self).device_model(device.value());
                    &&& result is Ok
                    &&& final(self)@ == old(self)@.insert(
                        device.value(),
                        DeviceModel {
                            terminals: model.terminals.update(
                                terminal.value() as int,
                                Some(connection),
                            ),
                            ..model
                        },
                    )
                },
            },
    {
        let locator = match self.resident_locator(device) {
            Ok(locator) => locator,
            Err(error) => {
                return Err(error);
            },
        };
        let chunk_index: usize = locator.chunk_index();
        let row: usize = locator.row();
        match self.chunks[chunk_index].terminal(row, terminal) {
            None => {
                return Err(NetworkModelError::InvalidTerminal);
            },
            Some(Some(_)) => {
                return Err(NetworkModelError::TerminalAlreadyConnected);
            },
            Some(None) => {},
        }
        self.chunks[chunk_index].set_terminal(row, terminal, Some(connection));
        proof {
            let model = old(self).device_model(device.value());
            self.lemma_row_changed(
                *old(self),
                device.value(),
                DeviceModel {
                    terminals: model.terminals.update(terminal.value() as int, Some(connection)),
                    ..model
                },
            );
        }
        Ok(())
    }

    /// Takes the connection of a terminal away and gives what it was.
    pub fn detach_terminal(&mut self, device: DeviceId, terminal: TerminalId) -> (result: Result<
        Option<ConnectionRef>,
        NetworkModelError,
    >)
        requires
            old(self).wf(),
        ensures
            final(self).wf(),
            old(self).same_places(*final(self)),
            forall|definitions: DefinitionRegistry|
                old(self).fits(definitions) ==> #[trigger] final(self).fits(definitions),
            result == old(self).spec_terminal_connection(device.value(), terminal.value()),
            result is Err ==> *final(self) == *old(self),
            result is Ok ==> {
                let model = old(self).device_model(device.value());
                final(self)@ == old(self)@.insert(
                    device.value(),
                    DeviceModel {
                        terminals: model.terminals.update(terminal.value() as int, None),
                        ..model
                    },
                )
            },
    {
        let locator = match self.resident_locator(device) {
            Ok(locator) => locator,
            Err(error) => {
                return Err(error);
            },
        };
        let chunk_index: usize = locator.chunk_index();
        let row: usize = locator.row();
        let removed = match self.chunks[chunk_index].terminal(row, terminal) {
            None => {
                return Err(NetworkModelError::InvalidTerminal);
            },
            Some(connection) => connection,
        };
        self.chunks[chunk_index].set_terminal(row, terminal, None);
        proof {
            let model = old(self).device_model(device.value());
            self.lemma_row_changed(
                *old(self),
                device.value(),
                DeviceModel {
                    terminals: model.terminals.update(terminal.value() as int, None),
                    ..model
                },
            );
        }
        Ok(removed)
    }

    /// The place of a device once `device` has been removed.
    pub open spec fn place_after_removal(self, device: u32, other: u32) -> (int, int) {
        let k = self.chunk_of(device);
        let c = self.chunk_of(other);
        let r = self.row_of(other);
        if self.rows(k) == 1 {
            if c == self.spec_chunk_count() - 1 {
                (k, r)
            } else {
                (c, r)
            }
        } else if c == k && r == self.rows(k) - 1 {
            (k, self.row_of(device))
        } else {
            (c, r)
        }
    }

    /// The chunk that insertion is to try first once a device has been removed: the chunk that lost a
    /// device and is still there, and else the one that it was, where that is now.
    pub open spec fn hint_after_removal(self, device: u32, definition: DefinitionId) -> Option<
        int,
    > {
        let k = self.chunk_of(device);
        let last = self.spec_chunk_count() - 1;
        if self.rows(k) > 1 {
            if definition == self.spec_chunk_definition(k) {
                Some(k)
            } else {
                self.hint(definition)
            }
        } else if self.hint(definition) == Some(k) {
            None
        } else if self.hint(definition) == Some(last) {
            Some(k)
        } else {
            self.hint(definition)
        }
    }

    /// Whether `after` is this arena without `device`: the last row of its chunk has moved into its
    /// place, or, where the chunk has become empty, the last chunk has.
    pub open spec fn removed(self, after: Self, device: u32, result: DeviceRemoveResult) -> bool {
        let k = self.chunk_of(device);
        let last = self.spec_chunk_count() - 1;
        &&& result.spec_chunk() == k
        &&& result.spec_row() == self.row_of(device)
        &&& if self.row_of(device) == self.rows(k) - 1 {
            result.spec_moved() is None
        } else {
            result.spec_moved() matches Some(moved) && moved.value() == self.device_at(
                k,
                self.rows(k) - 1,
            )
        }
        &&& if self.rows(k) == 1 && k != last {
            result.spec_relocation() matches Some(relocation) && relocation.spec_from() == last
                && relocation.spec_to() == k
        } else {
            result.spec_relocation() is None
        }
        &&& after.spec_directory_len() == self.spec_directory_len()
        &&& after.spec_chunk_count() == if self.rows(k) == 1 {
            last
        } else {
            last + 1
        }
        &&& forall|c: int|
            0 <= c < after.spec_chunk_count() ==> #[trigger] after.rows(c) == if c != k {
                self.rows(c)
            } else if self.rows(k) == 1 {
                self.rows(last)
            } else {
                self.rows(k) - 1
            }
        &&& forall|c: int|
            0 <= c < after.spec_chunk_count() ==> #[trigger] after.spec_chunk_definition(c)
                == self.spec_chunk_definition(
                if c == k && self.rows(k) == 1 {
                    last
                } else {
                    c
                },
            )
        &&& forall|x: u32| #[trigger] after.resident(x) == (self.resident(x) && x != device)
        &&& forall|x: u32| #[trigger] after.assigned(x) == (self.assigned(x) && x != device)
        &&& forall|x: u32|
            self.resident(x) && x != device ==> #[trigger] after.chunk_of(x)
                == self.place_after_removal(device, x).0
        &&& forall|x: u32|
            self.resident(x) && x != device ==> #[trigger] after.row_of(x)
                == self.place_after_removal(device, x).1
        &&& forall|id: DefinitionId| #[trigger]
            after.hint(id) == self.hint_after_removal(device, id)
    }

    /// Removes a device. The last row of its chunk moves into its place; a chunk that becomes empty
    /// is replaced by the last chunk.
    #[verifier::spinoff_prover]
    #[verifier::rlimit(60)]
    pub fn remove(&mut self, device: DeviceId) -> (result: Result<
        DeviceRemoveResult,
        NetworkModelError,
    >)
        requires
            old(self).wf(),
        ensures
            final(self).wf(),
            forall|definitions: DefinitionRegistry|
                old(self).fits(definitions) ==> #[trigger] final(self).fits(definitions),
            match result {
                Ok(removal) => {
                    &&& old(self).resident(device.value())
                    &&& old(self).removed(*final(self), device.value(), removal)
                    &&& final(self)@ == old(self)@.remove(device.value())
                },
                Err(error) => {
                    &&& !old(self).resident(device.value())
                    &&& error == NetworkModelError::IdNotAssigned {
                        ty: ConnectionType::Device,
                        id: device.value(),
                    }
                    &&& *final(self) == *old(self)
                },
            },
    {
        broadcast use DefinitionId::lemma_value_injective;

        let locator = match self.resident_locator(device) {
            Ok(locator) => locator,
            Err(error) => {
                return Err(error);
            },
        };
        let chunk_index: usize = locator.chunk_index();
        let row: usize = locator.row();
        let removed_chunk: u32 = chunk_index as u32;
        let removed_row: u8 = row as u8;
        let ghost d = device.value();
        let ghost k = chunk_index as int;
        let ghost last_row = old(self).rows(k) - 1;
        proof {
            old(self).lemma_wf();
            assert(old(self).resident(d));
        }
        let removed_definition = self.chunks[chunk_index].definition_id();
        let moved_device = self.chunks[chunk_index].remove_row(row);
        self.directory.set(device.index(), DeviceDirectoryEntry::unassigned());
        if let Some(moved) = moved_device {
            assert(old(self).device_at(k, last_row) == moved.value());
            assert(old(self).resident(moved.value()));
            self.directory.set(moved.index(), DeviceDirectoryEntry::resident(locator));
        }
        let ghost mid = *self;
        proof {
            // While the chunk keeps a row, only the row that moved has a new place.
            assert forall|x: u32| #[trigger] mid.resident(x) == (old(self).resident(x) && x != d) by {
                assert(old(self).device_at(k, last_row) == old(self).device_at(k, last_row));
            }
            assert forall|c: int, r: int|
                0 <= c < mid.chunks@.len() && 0 <= r < mid.chunks@[c].rows() implies {
                let x = #[trigger] mid.device_at(c, r);
                &&& mid.resident(x)
                &&& mid.chunk_of(x) == c
                &&& mid.row_of(x) == r
            } by {
                let from = if c == k && r == row {
                    last_row
                } else {
                    r
                };
                assert(mid.device_at(c, r) == old(self).device_at(c, from));
                assert(old(self).resident(old(self).device_at(c, from)));
                assert(old(self).device_at(k, last_row) == old(self).device_at(k, last_row));
            }
            assert forall|x: u32| #[trigger] mid.resident(x) implies {
                let from = (old(self).chunk_of(x), old(self).row_of(x));
                let place = if from.0 == k && from.1 == last_row {
                    (k, row as int)
                } else {
                    from
                };
                &&& mid.chunk_of(x) == place.0
                &&& mid.row_of(x) == place.1
                &&& 0 <= place.0 < mid.chunks@.len()
                &&& 0 <= place.1 < mid.chunks@[place.0].rows()
                &&& mid.device_at(place.0, place.1) == x
                &&& mid.chunks@[place.0].row(place.1) == old(self).device_model(x)
            } by {
                assert(old(self).resident(x));
                assert(old(self).device_at(old(self).chunk_of(x), old(self).row_of(x)) == x);
                assert(old(self).device_at(k, last_row) == old(self).device_at(k, last_row));
            }
            assert forall|c: int| 0 <= c < mid.chunks@.len() implies {
                &&& (#[trigger] mid.chunks@[c]).wf()
                &&& mid.chunks@[c].spec_definition() == old(self).chunks@[c].spec_definition()
                &&& mid.chunks@[c].spec_terminal_count()
                    == old(self).chunks@[c].spec_terminal_count()
                &&& mid.chunks@[c].spec_parameter_count()
                    == old(self).chunks@[c].spec_parameter_count()
                &&& c != k ==> mid.chunks@[c].rows() == old(self).chunks@[c].rows() > 0
            } by {
                assert(old(self).chunks@[c].wf());
            }
        }
        if self.chunks[chunk_index].len() != 0 {
            self.active_chunks.set(removed_definition.index(), Some(removed_chunk));
            let result = DeviceRemoveResult {
                removed_chunk,
                removed_row,
                moved_device,
                chunk_relocation: None,
            };
            proof {
                assert forall|c: int, r: int| true implies #[trigger] self.device_at(c, r)
                    == mid.device_at(c, r) by {}
                assert forall|x: u32| true implies #[trigger] self.resident(x) == mid.resident(
                    x,
                ) by {}
                assert forall|c: int| 0 <= c < self.chunks@.len() implies {
                    &&& (#[trigger] self.chunks@[c]).wf()
                    &&& self.chunks@[c].rows() > 0
                    &&& 1 <= self.chunks@[c].spec_definition().value() <= self.active_chunks@.len()
                } by {
                    assert(mid.chunks@[c].wf());
                    assert(old(self).chunks@[c].wf());
                }
                assert(self@ =~= old(self)@.remove(d)) by {
                    assert forall|x: u32| self@.dom().contains(x) implies self@[x]
                        == old(self)@.remove(d)[x] by {
                        assert(mid.resident(x));
                    }
                }
                self.lemma_fits_shrunk(*old(self), Seq::new(self.chunks@.len(), |c: int| c));
                assert forall|x: u32|
                    old(self).resident(x) && x != d implies #[trigger] self.chunk_of(x) == old(
                    self,
                ).place_after_removal(d, x).0 by {
                    assert(mid.resident(x));
                }
                assert forall|x: u32|
                    old(self).resident(x) && x != d implies #[trigger] self.row_of(x) == old(
                    self,
                ).place_after_removal(d, x).1 by {
                    assert(mid.resident(x));
                }
                assert(self.wf());
            }
            return Ok(result);
        }
        assert(last_row == 0 && row == 0);
        if self.active_chunks[removed_definition.index()] == Some(removed_chunk) {
            self.active_chunks.set(removed_definition.index(), None);
        }
        let last_chunk_index: usize = self.chunks.len() - 1;
        let ghost cleared = *self;
        proof {
            assert forall|i: int| 0 <= i < cleared.active_chunks@.len() implies (
            #[trigger] cleared.active_chunks@[i] matches Some(c) ==> {
                &&& c < cleared.chunks@.len()
                &&& c != k
                &&& cleared.chunks@[c as int].spec_definition().value() == i + 1
                &&& cleared.chunks@[c as int].rows() < DEVICE_CHUNK_CAPACITY
            }) by {
                assert(old(self).active_chunks@[i] == mid.active_chunks@[i]);
                if let Some(c) = cleared.active_chunks@[i] {
                    assert(old(self).active_chunks@[i] == Some(c));
                    if c == k {
                        assert(old(self).chunks@[k].spec_definition().value() == i + 1);
                    } else {
                        assert(mid.chunks@[c as int].rows() == old(self).chunks@[c as int].rows());
                    }
                }
            }
        }
        if chunk_index == last_chunk_index {
            self.chunks.pop();
            let result = DeviceRemoveResult {
                removed_chunk,
                removed_row,
                moved_device,
                chunk_relocation: None,
            };
            proof {
                assert forall|c: int, r: int|
                    0 <= c < self.chunks@.len() implies #[trigger] self.device_at(c, r)
                    == mid.device_at(c, r) by {}
                assert forall|x: u32| true implies #[trigger] self.resident(x) == mid.resident(
                    x,
                ) by {}
                assert forall|x: u32| #[trigger] self.resident(x) implies {
                    &&& self.chunk_of(x) == mid.chunk_of(x) == old(self).chunk_of(x)
                    &&& self.row_of(x) == mid.row_of(x) == old(self).row_of(x)
                    &&& self.chunk_of(x) < self.chunks@.len()
                    &&& self.device_model(x) == old(self).device_model(x)
                } by {
                    assert(mid.resident(x));
                    if old(self).chunk_of(x) == k {
                        assert(mid.chunks@[k].rows() == 0);
                    }
                }
                assert forall|c: int| 0 <= c < self.chunks@.len() implies {
                    &&& (#[trigger] self.chunks@[c]).wf()
                    &&& self.chunks@[c].rows() > 0
                    &&& 1 <= self.chunks@[c].spec_definition().value() <= self.active_chunks@.len()
                } by {
                    assert(self.chunks@[c] == mid.chunks@[c]);
                    assert(old(self).chunks@[c].wf());
                }
                assert forall|i: int| 0 <= i < self.active_chunks@.len() implies (
                #[trigger] self.active_chunks@[i] matches Some(c) ==> {
                    &&& c < self.chunks@.len()
                    &&& self.chunks@[c as int].spec_definition().value() == i + 1
                    &&& self.chunks@[c as int].rows() < DEVICE_CHUNK_CAPACITY
                }) by {
                    assert(cleared.active_chunks@[i] == self.active_chunks@[i]);
                    if let Some(c) = self.active_chunks@[i] {
                        assert(self.chunks@[c as int] == cleared.chunks@[c as int]);
                    }
                }
                assert(self@ =~= old(self)@.remove(d)) by {
                    assert forall|x: u32| self@.dom().contains(x) implies self@[x]
                        == old(self)@.remove(d)[x] by {
                        assert(self.resident(x));
                    }
                }
                self.lemma_fits_shrunk(*old(self), Seq::new(self.chunks@.len(), |c: int| c));
                assert(old(self).removed(*self, d, result));
            }
            return Ok(result);
        }
        let moved_from_chunk: u32 = last_chunk_index as u32;
        let moved_definition = self.chunks[last_chunk_index].definition_id();
        self.chunks.swap_remove(chunk_index);
        let ghost moved_chunks = self.chunks@;
        let ghost moved_rows = moved_chunks[k].rows();
        assert(moved_chunks[k] == mid.chunks@[last_chunk_index as int]);
        let ghost before_moves = self.directory@;
        proof {
            mid.chunks@[last_chunk_index as int].lemma_wf();
            assert forall|r: int| 0 <= r < moved_rows implies {
                let x = #[trigger] moved_chunks[k].device_at(r);
                &&& mid.resident(x)
                &&& mid.chunk_of(x) == last_chunk_index
                &&& mid.row_of(x) == r
                &&& x != d
            } by {
                assert(mid.device_at(last_chunk_index as int, r) == moved_chunks[k].device_at(r));
            }
        }
        let mut moved_row: usize = 0;
        while moved_row < self.chunks[chunk_index].len()
            invariant
                self.chunks@ == moved_chunks,
                self.active_chunks@ == cleared.active_chunks@,
                k == chunk_index < last_chunk_index,
                moved_chunks.len() == last_chunk_index,
                last_chunk_index < MAX_DEVICE_CHUNKS,
                moved_rows == moved_chunks[k].rows() <= DEVICE_CHUNK_CAPACITY,
                0 <= moved_row <= moved_rows,
                self.directory@.len() == before_moves.len(),
                before_moves == mid.directory@,
                forall|r: int|
                    0 <= r < moved_rows ==> {
                        let x = #[trigger] moved_chunks[k].device_at(r);
                        &&& mid.resident(x)
                        &&& mid.chunk_of(x) == last_chunk_index
                        &&& mid.row_of(x) == r
                    },
                forall|x: u32|
                    #[trigger] mid.resident(x) && mid.chunk_of(x) == last_chunk_index ==> {
                        &&& 1 <= x <= before_moves.len()
                        &&& 0 <= mid.row_of(x)
                        &&& moved_chunks[k].device_at(mid.row_of(x)) == x
                    },
                forall|x: u32|
                    mid.resident(x) && mid.chunk_of(x) == last_chunk_index && 0 <= mid.row_of(x)
                        < moved_row ==> {
                        &&& (#[trigger] self.directory@[x - 1]).spec_resident()
                        &&& self.directory@[x - 1].spec_chunk() == k
                        &&& self.directory@[x - 1].spec_row() == mid.row_of(x)
                    },
                forall|i: int|
                    0 <= i < before_moves.len() && !(mid.resident((i + 1) as u32) && mid.chunk_of(
                        (i + 1) as u32,
                    ) == last_chunk_index && mid.row_of((i + 1) as u32) < moved_row)
                        ==> #[trigger] self.directory@[i] == before_moves[i],
            decreases moved_rows - moved_row,
        {
            let moved = self.chunks[chunk_index].device_id(moved_row);
            assert(moved_chunks[k].device_at(moved_row as int) == moved.value());
            assert(mid.resident(moved.value()));
            let moved_locator = DeviceLocator::new(chunk_index, moved_row).unwrap();
            let ghost directory = self.directory@;
            self.directory.set(moved.index(), DeviceDirectoryEntry::resident(moved_locator));
            assert forall|x: u32|
                mid.resident(x) && mid.chunk_of(x) == last_chunk_index && 0 <= mid.row_of(x)
                    < moved_row + 1 implies {
                &&& (#[trigger] self.directory@[x - 1]).spec_resident()
                &&& self.directory@[x - 1].spec_chunk() == k
                &&& self.directory@[x - 1].spec_row() == mid.row_of(x)
            } by {
                assert(mid.resident(x));
                if x != moved.value() {
                    assert(self.directory@[x - 1] == directory[x - 1]);
                }
            }
            moved_row = moved_row + 1;
        }
        if self.active_chunks[moved_definition.index()] == Some(moved_from_chunk) {
            self.active_chunks.set(moved_definition.index(), Some(removed_chunk));
        }
        let result = DeviceRemoveResult {
            removed_chunk,
            removed_row,
            moved_device,
            chunk_relocation: Some(
                DeviceChunkRelocation { from_chunk: moved_from_chunk, to_chunk: removed_chunk },
            ),
        };
        proof {
            let last = last_chunk_index as int;
            assert forall|x: u32| true implies #[trigger] self.resident(x) == mid.resident(x) by {
                if 1 <= x <= self.directory@.len() {
                    assert(self.directory@[x - 1] == self.directory@[x - 1]);
                    if mid.resident(x) && mid.chunk_of(x) == last {
                        assert(mid.row_of(x) < moved_rows);
                    }
                }
            }
            assert forall|x: u32| #[trigger] self.resident(x) implies {
                &&& self.chunk_of(x) == if old(self).chunk_of(x) == last {
                    k
                } else {
                    old(self).chunk_of(x)
                }
                &&& self.row_of(x) == old(self).row_of(x)
                &&& 0 <= self.chunk_of(x) < self.chunks@.len()
                &&& 0 <= self.row_of(x) < self.rows(self.chunk_of(x))
                &&& self.device_at(self.chunk_of(x), self.row_of(x)) == x
                &&& self.device_model(x) == old(self).device_model(x)
            } by {
                assert(mid.resident(x));
                assert(self.directory@[x - 1] == self.directory@[x - 1]);
                if mid.chunk_of(x) == k {
                    assert(mid.chunks@[k].rows() == 0);
                }
                if mid.chunk_of(x) == last {
                    assert(mid.row_of(x) < moved_rows);
                }
            }
            assert forall|c: int, r: int|
                0 <= c < self.chunks@.len() && 0 <= r < self.chunks@[c].rows() implies {
                let x = #[trigger] self.device_at(c, r);
                &&& self.resident(x)
                &&& self.chunk_of(x) == c
                &&& self.row_of(x) == r
            } by {
                let from = if c == k {
                    last
                } else {
                    c
                };
                assert(self.device_at(c, r) == mid.device_at(from, r));
                assert(mid.resident(mid.device_at(from, r)));
                assert(self.resident(self.device_at(c, r)));
            }
            assert forall|c: int| 0 <= c < self.chunks@.len() implies {
                &&& (#[trigger] self.chunks@[c]).wf()
                &&& self.chunks@[c].rows() > 0
                &&& 1 <= self.chunks@[c].spec_definition().value() <= self.active_chunks@.len()
            } by {
                let from = if c == k {
                    last
                } else {
                    c
                };
                assert(self.chunks@[c] == mid.chunks@[from]);
                assert(old(self).chunks@[from].wf());
            }
            assert forall|i: int| 0 <= i < self.active_chunks@.len() implies (
            #[trigger] self.active_chunks@[i] matches Some(c) ==> {
                &&& c < self.chunks@.len()
                &&& self.chunks@[c as int].spec_definition().value() == i + 1
                &&& self.chunks@[c as int].rows() < DEVICE_CHUNK_CAPACITY
            }) by {
                assert(cleared.active_chunks@[i] == cleared.active_chunks@[i]);
                if let Some(c) = cleared.active_chunks@[i] {
                    if c == last {
                        assert(cleared.chunks@[last].spec_definition().value() == i + 1);
                        assert(i == moved_definition.value() - 1);
                    } else {
                        assert(self.chunks@[c as int] == cleared.chunks@[c as int]);
                    }
                }
            }
            assert(self@ =~= old(self)@.remove(d)) by {
                assert forall|x: u32| self@.dom().contains(x) implies self@[x]
                    == old(self)@.remove(d)[x] by {
                    assert(self.resident(x));
                }
            }
            self.lemma_fits_shrunk(
                *old(self),
                Seq::new(
                    self.chunks@.len(),
                    |c: int|
                        if c == k {
                            last
                        } else {
                            c
                        },
                ),
            );
            assert(old(self).removed(*self, d, result));
        }
        Ok(result)
    }

    /// Whether directory, chunks and insertion hints agree, and the chunks fit the definitions.
    pub fn is_consistent(&self, definitions: &DefinitionRegistry) -> (result: bool)
        ensures
            result == (self.wf() && self.fits(*definitions)),
    {
        if self.chunks.len() > MAX_DEVICE_CHUNKS || self.directory.len() > MAX_PACKED_ID as usize {
            return false;
        }
        let mut chunk_index: usize = 0;
        while chunk_index < self.chunks.len()
            invariant
                chunk_index <= self.chunks@.len() <= MAX_DEVICE_CHUNKS,
                forall|c: int|
                    0 <= c < chunk_index ==> {
                        &&& (#[trigger] self.chunks@[c]).wf()
                        &&& self.chunks@[c].rows() > 0
                        &&& 1 <= self.chunks@[c].spec_definition().value()
                            <= self.active_chunks@.len()
                    },
                forall|c: int|
                    0 <= c < chunk_index ==> #[trigger] self.chunk_fits(c, *definitions),
                forall|c: int, r: int|
                    0 <= c < chunk_index && 0 <= r < self.chunks@[c].rows() ==> {
                        let device = #[trigger] self.device_at(c, r);
                        &&& self.resident(device)
                        &&& self.chunk_of(device) == c
                        &&& self.row_of(device) == r
                    },
            decreases self.chunks@.len() - chunk_index,
        {
            let chunk = &self.chunks[chunk_index];
            if !chunk.is_well_formed() || chunk.len() == 0 {
                return false;
            }
            if chunk.definition_id().index() >= self.active_chunks.len() {
                return false;
            }
            let fits = match definitions.get(chunk.definition_id()) {
                Some(definition) => chunk.terminal_count() == definition.terminals().len()
                    && chunk.parameter_count() == definition.parameters().len(),
                None => false,
            };
            if !fits {
                assert(!self.chunk_fits(chunk_index as int, *definitions));
                return false;
            }
            let mut row: usize = 0;
            while row < chunk.len()
                invariant
                    chunk_index < self.chunks@.len(),
                    *chunk == self.chunks@[chunk_index as int],
                    row <= chunk.rows(),
                    forall|r: int|
                        0 <= r < row ==> {
                            let device = #[trigger] self.device_at(chunk_index as int, r);
                            &&& self.resident(device)
                            &&& self.chunk_of(device) == chunk_index
                            &&& self.row_of(device) == r
                        },
                decreases chunk.rows() - row,
            {
                let device = chunk.device_id(row);
                let found = match self.resident_locator(device) {
                    Ok(locator) => locator.chunk_index() == chunk_index && locator.row() == row,
                    Err(_) => false,
                };
                if !found {
                    assert(self.device_at(chunk_index as int, row as int) == device.value());
                    return false;
                }
                row = row + 1;
            }
            chunk_index = chunk_index + 1;
        }
        let mut index: usize = 0;
        while index < self.directory.len()
            invariant
                index <= self.directory@.len() <= MAX_PACKED_ID,
                forall|device: u32| #[trigger]
                    self.resident(device) && device <= index ==> {
                        &&& 0 <= self.chunk_of(device) < self.chunks@.len()
                        &&& 0 <= self.row_of(device) < self.rows(self.chunk_of(device))
                        &&& self.device_at(self.chunk_of(device), self.row_of(device)) == device
                    },
            decreases self.directory@.len() - index,
        {
            let number: u32 = index as u32 + 1;
            if let Some(locator) = self.directory[index].resident_locator() {
                let known = locator.chunk_index() < self.chunks.len() && locator.row()
                    < self.chunks[locator.chunk_index()].len()
                    && self.chunks[locator.chunk_index()].device_id(locator.row()).get() == number;
                if !known {
                    assert(self.resident(number));
                    return false;
                }
            }
            index = index + 1;
        }
        let mut slot: usize = 0;
        while slot < self.active_chunks.len()
            invariant
                slot <= self.active_chunks@.len(),
                forall|i: int|
                    0 <= i < slot ==> (#[trigger] self.active_chunks@[i] matches Some(c) ==> {
                        &&& c < self.chunks@.len()
                        &&& self.chunks@[c as int].spec_definition().value() == i + 1
                        &&& self.chunks@[c as int].rows() < DEVICE_CHUNK_CAPACITY
                    }),
            decreases self.active_chunks@.len() - slot,
        {
            if let Some(hint) = self.active_chunks[slot] {
                let open = (hint as usize) < self.chunks.len()
                    && self.chunks[hint as usize].definition_id().index() == slot
                    && self.chunks[hint as usize].len() < DEVICE_CHUNK_CAPACITY;
                if !open {
                    assert(self.active_chunks@[slot as int] == Some(hint));
                    return false;
                }
            }
            slot = slot + 1;
        }
        true
    }

    /// Chunks that keep their definition and shape keep fitting the definitions.
    proof fn lemma_fits_shrunk(self, before: Self, origins: Seq<int>)
        requires
            origins.len() == self.chunks@.len(),
            forall|c: int|
                0 <= c < self.chunks@.len() ==> {
                    let from = #[trigger] origins[c];
                    &&& 0 <= from < before.chunks@.len()
                    &&& self.chunks@[c].spec_definition() == before.chunks@[from].spec_definition()
                    &&& self.chunks@[c].spec_terminal_count()
                        == before.chunks@[from].spec_terminal_count()
                    &&& self.chunks@[c].spec_parameter_count()
                        == before.chunks@[from].spec_parameter_count()
                },
        ensures
            forall|definitions: DefinitionRegistry|
                before.fits(definitions) ==> #[trigger] self.fits(definitions),
    {
        assert forall|definitions: DefinitionRegistry| before.fits(
            definitions,
        ) implies #[trigger] self.fits(definitions) by {
            assert forall|c: int| 0 <= c < self.chunks@.len() implies #[trigger] self.chunk_fits(
                c,
                definitions,
            ) by {
                assert(before.chunk_fits(origins[c], definitions));
            }
        }
    }
}

/// The value of a parameter, where one is assigned.
pub open spec fn assigned_value(raw: u64) -> Option<u64> {
    if raw == UNASSIGNED_PARAMETER {
        None
    } else {
        Some(raw)
    }
}

fn decode_parameter(value: u64) -> (result: Option<u64>)
    ensures
        result == assigned_value(value),
{
    if value == UNASSIGNED_PARAMETER {
        None
    } else {
        Some(value)
    }
}

/// A resident device.
#[derive(Debug, Clone, Copy)]
pub struct DeviceView<'a> {
    chunk: &'a DeviceChunk,
    row: usize,
}

impl<'a> DeviceView<'a> {
    pub closed spec fn view(self) -> DeviceModel {
        self.chunk.row(self.row as int)
    }

    pub closed spec fn wf(self) -> bool {
        self.chunk.wf() && self.row < self.chunk.rows()
    }

    pub fn definition_id(&self) -> (result: DefinitionId)
        ensures
            result == self@.definition,
    {
        self.chunk.definition_id()
    }

    /// The connections of the terminals.
    pub fn terminals(&self) -> (result: &'a [Option<ConnectionRef>])
        requires
            self.wf(),
        ensures
            result@ == self@.terminals,
    {
        self.chunk.row_terminals(self.row)
    }

    /// The value of a parameter: none where there is no such parameter, and none inside where no
    /// value is assigned.
    pub fn parameter(&self, parameter: ParameterId) -> (result: Option<Option<u64>>)
        requires
            self.wf(),
        ensures
            result == if parameter.value() < self@.parameters.len() {
                Some(assigned_value(self@.parameters[parameter.value() as int]))
            } else {
                None
            },
    {
        match self.chunk.raw_parameter(self.row, parameter) {
            Some(value) => Some(decode_parameter(value)),
            None => None,
        }
    }

    /// The values of the parameters.
    pub fn parameters(&self) -> (result: Vec<Option<u64>>)
        requires
            self.wf(),
            self@.parameters.len() <= u32::MAX,
        ensures
            result@ == Seq::new(
                self@.parameters.len(),
                |i: int| assigned_value(self@.parameters[i]),
            ),
    {
        let count: usize = self.chunk.parameter_count();
        let mut values: Vec<Option<u64>> = Vec::new();
        let mut index: usize = 0;
        while index < count
            invariant
                index <= count <= u32::MAX,
                self.wf(),
                count == self@.parameters.len(),
                values.len() == index,
                forall|i: int|
                    0 <= i < index ==> #[trigger] values@[i] == assigned_value(self@.parameters[i]),
            decreases count - index,
        {
            values.push(self.parameter(ParameterId::new(index as u32)).unwrap());
            index = index + 1;
        }
        assert(values@ =~= Seq::new(
            self@.parameters.len(),
            |i: int| assigned_value(self@.parameters[i]),
        ));
        values
    }
}

} // verus!
