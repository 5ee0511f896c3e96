//! The codes and results that are handed over to callers in other languages.

use crate::ids::{DeviceId, ParameterId};
use crate::protocol::{
    built_from, draft_in, register_definition_buffer, DefinitionRegistrationError,
    DefinitionRegistrationErrorKind,
};
use crate::registry::DefinitionRegistry;
use vstd::prelude::*;

verus! {

/// Callers for another version cannot use the library.
pub const ABI_VERSION: u32 = 1;

/// Callers for an earlier revision can.
pub const ABI_REVISION: u32 = 2;

pub fn hynergy_abi_version() -> (result: u32)
    ensures
        result == ABI_VERSION,
{
    ABI_VERSION
}

pub fn hynergy_abi_revision() -> (result: u32)
    ensures
        result == ABI_REVISION,
{
    ABI_REVISION
}

/// How registering a definition ended.
#[derive(Debug, Clone, Copy, PartialEq, Eq, Structural)]
pub enum DefinitionRegistrationCode {
    Success,
    NullEngine,
    NullInput,
    NullResult,
    InputTooLarge,
    InvalidMagic,
    UnsupportedVersion,
    InvalidFlags,
    TruncatedInput,
    UnknownCommand,
    InvalidCommandLength,
    InvalidCount,
    UnknownValueKind,
    TrailingBytes,
    InvalidReserved,
    InvalidDefinitionId,
    UnknownDefinition,
    TerminalCountMismatch,
    ParameterCountMismatch,
    NodeOutOfRange,
    ParameterOutOfRange,
    ParameterConstraintViolation,
    NodeIdExhausted,
    ParameterIdExhausted,
    DefinitionIdExhausted,
    InvalidDefinition,
    InvalidPrimitiveParameters,
    UnusedInternalNode,
    DisconnectedInternalComponent,
    IncompatibleParameterConstraints,
    UnusedParameter,
    DevicePartitionIdExhausted,
    StateCountExhausted,
    InternalPanic,
}

impl DefinitionRegistrationCode {
    /// The number that stands for the code.
    pub open spec fn number(self) -> u32 {
        match self {
            DefinitionRegistrationCode::Success => 0,
            DefinitionRegistrationCode::NullEngine => 1,
            DefinitionRegistrationCode::NullInput => 2,
            DefinitionRegistrationCode::NullResult => 3,
            DefinitionRegistrationCode::InputTooLarge => 4,
            DefinitionRegistrationCode::InvalidMagic => 5,
            DefinitionRegistrationCode::UnsupportedVersion => 6,
            DefinitionRegistrationCode::InvalidFlags => 7,
            DefinitionRegistrationCode::TruncatedInput => 8,
            DefinitionRegistrationCode::UnknownCommand => 9,
            DefinitionRegistrationCode::InvalidCommandLength => 10,
            DefinitionRegistrationCode::InvalidCount => 11,
            DefinitionRegistrationCode::UnknownValueKind => 12,
            DefinitionRegistrationCode::TrailingBytes => 13,
            DefinitionRegistrationCode::InvalidReserved => 14,
            DefinitionRegistrationCode::InvalidDefinitionId => 15,
            DefinitionRegistrationCode::UnknownDefinition => 20,
            DefinitionRegistrationCode::TerminalCountMismatch => 21,
            DefinitionRegistrationCode::ParameterCountMismatch => 22,
            DefinitionRegistrationCode::NodeOutOfRange => 23,
            DefinitionRegistrationCode::ParameterOutOfRange => 24,
            DefinitionRegistrationCode::ParameterConstraintViolation => 25,
            DefinitionRegistrationCode::NodeIdExhausted => 26,
            DefinitionRegistrationCode::ParameterIdExhausted => 27,
            DefinitionRegistrationCode::DefinitionIdExhausted => 28,
            DefinitionRegistrationCode::InvalidDefinition => 29,
            DefinitionRegistrationCode::InvalidPrimitiveParameters => 30,
            DefinitionRegistrationCode::UnusedInternalNode => 31,
            DefinitionRegistrationCode::DisconnectedInternalComponent => 32,
            DefinitionRegistrationCode::IncompatibleParameterConstraints => 33,
            DefinitionRegistrationCode::UnusedParameter => 34,
            DefinitionRegistrationCode::DevicePartitionIdExhausted => 35,
            DefinitionRegistrationCode::StateCountExhausted => 36,
            DefinitionRegistrationCode::InternalPanic => u32::MAX,
        }
    }

    /// The number that stands for the code.
    pub fn value(self) -> (result: u32)
        ensures
            result == self.number(),
    {
        match self {
            DefinitionRegistrationCode::Success => 0,
            DefinitionRegistrationCode::NullEngine => 1,
            DefinitionRegistrationCode::NullInput => 2,
            DefinitionRegistrationCode::NullResult => 3,
            DefinitionRegistrationCode::InputTooLarge => 4,
            DefinitionRegistrationCode::InvalidMagic => 5,
            DefinitionRegistrationCode::UnsupportedVersion => 6,
            DefinitionRegistrationCode::InvalidFlags => 7,
            DefinitionRegistrationCode::TruncatedInput => 8,
            DefinitionRegistrationCode::UnknownCommand => 9,
            DefinitionRegistrationCode::InvalidCommandLength => 10,
            DefinitionRegistrationCode::InvalidCount => 11,
            DefinitionRegistrationCode::UnknownValueKind => 12,
            DefinitionRegistrationCode::TrailingBytes => 13,
            DefinitionRegistrationCode::InvalidReserved => 14,
            DefinitionRegistrationCode::InvalidDefinitionId => 15,
            DefinitionRegistrationCode::UnknownDefinition => 20,
            DefinitionRegistrationCode::TerminalCountMismatch => 21,
            DefinitionRegistrationCode::ParameterCountMismatch => 22,
            DefinitionRegistrationCode::NodeOutOfRange => 23,
            DefinitionRegistrationCode::ParameterOutOfRange => 24,
            DefinitionRegistrationCode::ParameterConstraintViolation => 25,
            DefinitionRegistrationCode::NodeIdExhausted => 26,
            DefinitionRegistrationCode::ParameterIdExhausted => 27,
            DefinitionRegistrationCode::DefinitionIdExhausted => 28,
            DefinitionRegistrationCode::InvalidDefinition => 29,
            DefinitionRegistrationCode::InvalidPrimitiveParameters => 30,
            DefinitionRegistrationCode::UnusedInternalNode => 31,
            DefinitionRegistrationCode::DisconnectedInternalComponent => 32,
            DefinitionRegistrationCode::IncompatibleParameterConstraints => 33,
            DefinitionRegistrationCode::UnusedParameter => 34,
            DefinitionRegistrationCode::DevicePartitionIdExhausted => 35,
            DefinitionRegistrationCode::StateCountExhausted => 36,
            DefinitionRegistrationCode::InternalPanic => u32::MAX,
        }
    }
}

/// How registering a definition ended, where it failed, and what the definition was registered
/// under.
#[derive(Debug, Clone, Copy, PartialEq, Eq, Structural)]
pub struct DefinitionRegistrationResult {
    pub code: u32,
    pub command_index: u32,
    pub byte_offset: u32,
    pub definition_id: u32,
}

impl DefinitionRegistrationResult {
    /// The words of the result, in the order in which they are handed over.
    pub open spec fn spec_words(self) -> Seq<u32> {
        seq![self.code, self.command_index, self.byte_offset, self.definition_id]
    }

    /// The words of the result, in the order in which they are handed over.
    pub fn words(self) -> (result: [u32; 4])
        ensures
            result@ == self.spec_words(),
    {
        let words = [self.code, self.command_index, self.byte_offset, self.definition_id];
        assert(words@ =~= self.spec_words());
        words
    }
}

/// A definition was registered.
pub open spec fn registered(definition_id: u32) -> DefinitionRegistrationResult {
    DefinitionRegistrationResult {
        code: DefinitionRegistrationCode::Success.number(),
        command_index: u32::MAX,
        byte_offset: u32::MAX,
        definition_id,
    }
}

/// A definition was not registered.
pub open spec fn not_registered(
    code: DefinitionRegistrationCode,
    command_index: u32,
    byte_offset: u32,
) -> DefinitionRegistrationResult {
    DefinitionRegistrationResult {
        code: code.number(),
        command_index,
        byte_offset,
        definition_id: u32::MAX,
    }
}

impl DefinitionRegistrationResult {
    pub fn success(definition_id: u32) -> (result: Self)
        ensures
            result == registered(definition_id),
    {
        DefinitionRegistrationResult {
            code: DefinitionRegistrationCode::Success.value(),
            command_index: u32::MAX,
            byte_offset: u32::MAX,
            definition_id,
        }
    }

    pub fn failure(
        code: DefinitionRegistrationCode,
        command_index: u32,
        byte_offset: u32,
    ) -> (result: Self)
        ensures
            result == not_registered(code, command_index, byte_offset),
    {
        DefinitionRegistrationResult {
            code: code.value(),
            command_index,
            byte_offset,
            definition_id: u32::MAX,
        }
    }
}

/// The code of an error.
pub open spec fn registration_code(
    kind: DefinitionRegistrationErrorKind,
) -> DefinitionRegistrationCode {
    match kind {
        DefinitionRegistrationErrorKind::InvalidMagic => DefinitionRegistrationCode::InvalidMagic,
        DefinitionRegistrationErrorKind::UnsupportedVersion => {
            DefinitionRegistrationCode::UnsupportedVersion
        },
        DefinitionRegistrationErrorKind::InvalidFlags => DefinitionRegistrationCode::InvalidFlags,
        DefinitionRegistrationErrorKind::InvalidReserved => {
            DefinitionRegistrationCode::InvalidReserved
        },
        DefinitionRegistrationErrorKind::TruncatedInput => {
            DefinitionRegistrationCode::TruncatedInput
        },
        DefinitionRegistrationErrorKind::UnknownCommand => {
            DefinitionRegistrationCode::UnknownCommand
        },
        DefinitionRegistrationErrorKind::InvalidCommandLength => {
            DefinitionRegistrationCode::InvalidCommandLength
        },
        DefinitionRegistrationErrorKind::InvalidCount => DefinitionRegistrationCode::InvalidCount,
        DefinitionRegistrationErrorKind::InvalidDefinitionId => {
            DefinitionRegistrationCode::InvalidDefinitionId
        },
        DefinitionRegistrationErrorKind::UnknownValueKind => {
            DefinitionRegistrationCode::UnknownValueKind
        },
        DefinitionRegistrationErrorKind::TrailingBytes => DefinitionRegistrationCode::TrailingBytes,
        DefinitionRegistrationErrorKind::UnknownDefinition => {
            DefinitionRegistrationCode::UnknownDefinition
        },
        DefinitionRegistrationErrorKind::TerminalCountMismatch => {
            DefinitionRegistrationCode::TerminalCountMismatch
        },
        DefinitionRegistrationErrorKind::ParameterCountMismatch => {
            DefinitionRegistrationCode::ParameterCountMismatch
        },
        DefinitionRegistrationErrorKind::NodeOutOfRange => {
            DefinitionRegistrationCode::NodeOutOfRange
        },
        DefinitionRegistrationErrorKind::ParameterOutOfRange => {
            DefinitionRegistrationCode::ParameterOutOfRange
        },
        DefinitionRegistrationErrorKind::ParameterConstraintViolation => {
            DefinitionRegistrationCode::ParameterConstraintViolation
        },
        DefinitionRegistrationErrorKind::NodeIdExhausted => {
            DefinitionRegistrationCode::NodeIdExhausted
        },
        DefinitionRegistrationErrorKind::ParameterIdExhausted => {
            DefinitionRegistrationCode::ParameterIdExhausted
        },
        DefinitionRegistrationErrorKind::DefinitionIdExhausted => {
            DefinitionRegistrationCode::DefinitionIdExhausted
        },
        DefinitionRegistrationErrorKind::InvalidDefinition => {
            DefinitionRegistrationCode::InvalidDefinition
        },
        DefinitionRegistrationErrorKind::InvalidPrimitiveParameters => {
            DefinitionRegistrationCode::InvalidPrimitiveParameters
        },
        DefinitionRegistrationErrorKind::UnusedInternalNode => {
            DefinitionRegistrationCode::UnusedInternalNode
        },
        DefinitionRegistrationErrorKind::DisconnectedInternalComponent => {
            DefinitionRegistrationCode::DisconnectedInternalComponent
        },
        DefinitionRegistrationErrorKind::IncompatibleParameterConstraints => {
            DefinitionRegistrationCode::IncompatibleParameterConstraints
        },
        DefinitionRegistrationErrorKind::UnusedParameter => {
            DefinitionRegistrationCode::UnusedParameter
        },
        DefinitionRegistrationErrorKind::DevicePartitionIdExhausted => {
            DefinitionRegistrationCode::DevicePartitionIdExhausted
        },
        DefinitionRegistrationErrorKind::StateCountExhausted => {
            DefinitionRegistrationCode::StateCountExhausted
        },
    }
}

fn code_of_registration(kind: DefinitionRegistrationErrorKind) -> (result:
    DefinitionRegistrationCode)
    ensures
        result == registration_code(kind),
{
    match kind {
        DefinitionRegistrationErrorKind::InvalidMagic => DefinitionRegistrationCode::InvalidMagic,
        DefinitionRegistrationErrorKind::UnsupportedVersion => {
            DefinitionRegistrationCode::UnsupportedVersion
        },
        DefinitionRegistrationErrorKind::InvalidFlags => DefinitionRegistrationCode::InvalidFlags,
        DefinitionRegistrationErrorKind::InvalidReserved => {
            DefinitionRegistrationCode::InvalidReserved
        },
        DefinitionRegistrationErrorKind::TruncatedInput => {
            DefinitionRegistrationCode::TruncatedInput
        },
        DefinitionRegistrationErrorKind::UnknownCommand => {
            DefinitionRegistrationCode::UnknownCommand
        },
        DefinitionRegistrationErrorKind::InvalidCommandLength => {
            DefinitionRegistrationCode::InvalidCommandLength
        },
        DefinitionRegistrationErrorKind::InvalidCount => DefinitionRegistrationCode::InvalidCount,
        DefinitionRegistrationErrorKind::InvalidDefinitionId => {
            DefinitionRegistrationCode::InvalidDefinitionId
        },
        DefinitionRegistrationErrorKind::UnknownValueKind => {
            DefinitionRegistrationCode::UnknownValueKind
        },
        DefinitionRegistrationErrorKind::TrailingBytes => DefinitionRegistrationCode::TrailingBytes,
        DefinitionRegistrationErrorKind::UnknownDefinition => {
            DefinitionRegistrationCode::UnknownDefinition
        },
        DefinitionRegistrationErrorKind::TerminalCountMismatch => {
            DefinitionRegistrationCode::TerminalCountMismatch
        },
        DefinitionRegistrationErrorKind::ParameterCountMismatch => {
            DefinitionRegistrationCode::ParameterCountMismatch
        },
        DefinitionRegistrationErrorKind::NodeOutOfRange => {
            DefinitionRegistrationCode::NodeOutOfRange
        },
        DefinitionRegistrationErrorKind::ParameterOutOfRange => {
            DefinitionRegistrationCode::ParameterOutOfRange
        },
        DefinitionRegistrationErrorKind::ParameterConstraintViolation => {
            DefinitionRegistrationCode::ParameterConstraintViolation
        },
        DefinitionRegistrationErrorKind::NodeIdExhausted => {
            DefinitionRegistrationCode::NodeIdExhausted
        },
        DefinitionRegistrationErrorKind::ParameterIdExhausted => {
            DefinitionRegistrationCode::ParameterIdExhausted
        },
        DefinitionRegistrationErrorKind::DefinitionIdExhausted => {
            DefinitionRegistrationCode::DefinitionIdExhausted
        },
        DefinitionRegistrationErrorKind::InvalidDefinition => {
            DefinitionRegistrationCode::InvalidDefinition
        },
        DefinitionRegistrationErrorKind::InvalidPrimitiveParameters => {
            DefinitionRegistrationCode::InvalidPrimitiveParameters
        },
        DefinitionRegistrationErrorKind::UnusedInternalNode => {
            DefinitionRegistrationCode::UnusedInternalNode
        },
        DefinitionRegistrationErrorKind::DisconnectedInternalComponent => {
            DefinitionRegistrationCode::DisconnectedInternalComponent
        },
        DefinitionRegistrationErrorKind::IncompatibleParameterConstraints => {
            DefinitionRegistrationCode::IncompatibleParameterConstraints
        },
        DefinitionRegistrationErrorKind::UnusedParameter => {
            DefinitionRegistrationCode::UnusedParameter
        },
        DefinitionRegistrationErrorKind::DevicePartitionIdExhausted => {
            DefinitionRegistrationCode::DevicePartitionIdExhausted
        },
        DefinitionRegistrationErrorKind::StateCountExhausted => {
            DefinitionRegistrationCode::StateCountExhausted
        },
    }
}

/// The result of an error: its code, and where it is.
pub open spec fn registration_failure(
    error: DefinitionRegistrationError,
) -> DefinitionRegistrationResult {
    not_registered(
        registration_code(error.spec_kind()),
        error.spec_command_index(),
        error.spec_byte_offset(),
    )
}

pub fn map_registration_error(error: DefinitionRegistrationError) -> (result:
    DefinitionRegistrationResult)
    ensures
        result == registration_failure(error),
{
    DefinitionRegistrationResult::failure(
        code_of_registration(error.kind()),
        error.command_index(),
        error.byte_offset(),
    )
}

/// What a caller left out, if anything.
pub open spec fn registration_gap(engine_missing: bool, input_missing: bool) -> Option<
    DefinitionRegistrationResult,
> {
    if engine_missing {
        Some(not_registered(DefinitionRegistrationCode::NullEngine, u32::MAX, u32::MAX))
    } else if input_missing {
        Some(not_registered(DefinitionRegistrationCode::NullInput, u32::MAX, u32::MAX))
    } else {
        None
    }
}

/// Tells what a caller left out, if anything.
pub fn check_registration(engine_missing: bool, input_missing: bool) -> (result: Option<
    DefinitionRegistrationResult,
>)
    ensures
        result == registration_gap(engine_missing, input_missing),
{
    if engine_missing {
        Some(
            DefinitionRegistrationResult::failure(
                DefinitionRegistrationCode::NullEngine,
                u32::MAX,
                u32::MAX,
            ),
        )
    } else if input_missing {
        Some(
            DefinitionRegistrationResult::failure(
                DefinitionRegistrationCode::NullInput,
                u32::MAX,
                u32::MAX,
            ),
        )
    } else {
        None
    }
}

/// Registers the definition that a buffer describes under the next identifier.
pub fn register_definition(registry: &mut DefinitionRegistry, input: &[u8]) -> (result:
    DefinitionRegistrationResult)
    requires
        old(registry).wf(),
    ensures
        final(registry).wf(),
        match draft_in(*old(registry), input@) {
            Err(error) => {
                &&& result == registration_failure(error)
                &&& final(registry).spec_definitions() == old(registry).spec_definitions()
            },
            Ok(draft) => if old(registry).spec_definitions().len() + 1 > u32::MAX {
                &&& result == not_registered(
                    DefinitionRegistrationCode::DefinitionIdExhausted,
                    u32::MAX,
                    u32::MAX,
                )
                &&& final(registry).spec_definitions() == old(registry).spec_definitions()
            } else {
                &&& result == registered((old(registry).spec_definitions().len() + 1) as u32)
                &&& final(registry).spec_definitions().len() == old(
                    registry,
                ).spec_definitions().len() + 1
                &&& final(registry).spec_definitions().drop_last() == old(
                    registry,
                ).spec_definitions()
                &&& built_from(*old(registry), draft, final(registry).spec_definitions().last())
            },
        },
{
    match register_definition_buffer(registry, input) {
        Ok(id) => DefinitionRegistrationResult::success(id.get()),
        Err(error) => map_registration_error(error),
    }
}

/// How making or unmaking a world ended.
#[derive(Debug, Clone, Copy, PartialEq, Eq, Structural)]
pub enum WorldCode {
    Success,
    NullEngine,
    NullResult,
    UnknownWorld,
    WorldIdExhausted,
    InvalidTickFrequency,
    InternalPanic,
}

impl WorldCode {
    /// The number that stands for the code.
    pub open spec fn number(self) -> u32 {
        match self {
            WorldCode::Success => 0,
            WorldCode::NullEngine => 1,
            WorldCode::NullResult => 2,
            WorldCode::UnknownWorld => 3,
            WorldCode::WorldIdExhausted => 4,
            WorldCode::InvalidTickFrequency => 5,
            WorldCode::InternalPanic => u32::MAX,
        }
    }

    /// The number that stands for the code.
    pub fn value(self) -> (result: u32)
        ensures
            result == self.number(),
    {
        match self {
            WorldCode::Success => 0,
            WorldCode::NullEngine => 1,
            WorldCode::NullResult => 2,
            WorldCode::UnknownWorld => 3,
            WorldCode::WorldIdExhausted => 4,
            WorldCode::InvalidTickFrequency => 5,
            WorldCode::InternalPanic => u32::MAX,
        }
    }
}

/// How making a world ended, and what the world is known under.
#[derive(Debug, Clone, Copy, PartialEq, Eq, Structural)]
pub struct WorldCreationResult {
    pub code: u32,
    pub world_id: u32,
}

impl WorldCreationResult {
    /// The words of the result, in the order in which they are handed over.
    pub open spec fn spec_words(self) -> Seq<u32> {
        seq![self.code, self.world_id]
    }

    /// The words of the result, in the order in which they are handed over.
    pub fn words(self) -> (result: [u32; 2])
        ensures
            result@ == self.spec_words(),
    {
        let words = [self.code, self.world_id];
        assert(words@ =~= self.spec_words());
        words
    }
}

/// Why a world cannot be made or unmade.
#[derive(Debug, Clone, Copy, PartialEq, Eq, Structural)]
pub enum WorldManagementError {
    UnknownWorld,
    WorldIdExhausted,
}

/// How making a world ended. It cannot end with an unknown world.
pub open spec fn creation_result(
    creation: Result<u32, WorldManagementError>,
) -> WorldCreationResult {
    match creation {
        Ok(world_id) => WorldCreationResult { code: WorldCode::Success.number(), world_id },
        Err(WorldManagementError::WorldIdExhausted) => WorldCreationResult {
            code: WorldCode::WorldIdExhausted.number(),
            world_id: u32::MAX,
        },
        Err(WorldManagementError::UnknownWorld) => WorldCreationResult {
            code: WorldCode::InternalPanic.number(),
            world_id: u32::MAX,
        },
    }
}

impl WorldCreationResult {
    pub fn success(world_id: u32) -> (result: Self)
        ensures
            result == creation_result(Ok(world_id)),
    {
        WorldCreationResult { code: WorldCode::Success.value(), world_id }
    }

    pub fn failure(code: WorldCode) -> (result: Self)
        ensures
            result == (WorldCreationResult { code: code.number(), world_id: u32::MAX }),
    {
        WorldCreationResult { code: code.value(), world_id: u32::MAX }
    }

    /// The result for how making a world ended.
    pub fn of(creation: Result<u32, WorldManagementError>) -> (result: Self)
        ensures
            result == creation_result(creation),
    {
        match creation {
            Ok(world_id) => Self::success(world_id),
            Err(WorldManagementError::WorldIdExhausted) => {
                Self::failure(WorldCode::WorldIdExhausted)
            },
            Err(WorldManagementError::UnknownWorld) => Self::failure(WorldCode::InternalPanic),
        }
    }
}

/// Tells what is wrong with a request for a world, if anything is: a frequency of zero, or a
/// missing
/// engine.
pub fn check_world_creation(tick_frequency_hz: u32, engine_missing: bool) -> (result: Option<
    WorldCreationResult,
>)
    ensures
        result == if tick_frequency_hz == 0 {
            Some(
                (WorldCreationResult {
                    code: WorldCode::InvalidTickFrequency.number(),
                    world_id: u32::MAX,
                }),
            )
        } else if engine_missing {
            Some(
                (WorldCreationResult { code: WorldCode::NullEngine.number(), world_id: u32::MAX }),
            )
        } else {
            None
        },
{
    if tick_frequency_hz == 0 {
        Some(WorldCreationResult::failure(WorldCode::InvalidTickFrequency))
    } else if engine_missing {
        Some(WorldCreationResult::failure(WorldCode::NullEngine))
    } else {
        None
    }
}

/// The code for how unmaking a world ended. It cannot end with a lack of identifiers.
pub fn destruction_code(destruction: Result<(), WorldManagementError>) -> (result: WorldCode)
    ensures
        result == match destruction {
            Ok(_) => WorldCode::Success,
            Err(WorldManagementError::UnknownWorld) => WorldCode::UnknownWorld,
            Err(WorldManagementError::WorldIdExhausted) => WorldCode::InternalPanic,
        },
{
    match destruction {
        Ok(_) => WorldCode::Success,
        Err(WorldManagementError::UnknownWorld) => WorldCode::UnknownWorld,
        Err(WorldManagementError::WorldIdExhausted) => WorldCode::InternalPanic,
    }
}

/// How applying commands to a world ended.
#[derive(Debug, Clone, Copy, PartialEq, Eq, Structural)]
pub enum CommandCode {
    Success,
    NullEngine,
    NullInput,
    NullResult,
    InputTooLarge,
    InvalidMagic,
    UnsupportedVersion,
    InvalidFlags,
    InvalidReserved,
    TruncatedInput,
    UnknownCommand,
    InvalidCommandLength,
    InvalidId,
    TrailingBytes,
    UnknownWorld,
    IdOutOfBound,
    IdExceeds31Bit,
    IdAlreadyAssigned,
    IdNotAssigned,
    WireConnectToSelf,
    AlreadyConnected,
    NotConnected,
    TerminalAlreadyConnected,
    InvalidTerminal,
    InvalidParameter,
    ParameterConstraintViolation,
    UnknownDefinition,
    ResourceExhausted,
    InternalPanic,
}

impl CommandCode {
    /// The number that stands for the code.
    pub open spec fn number(self) -> u32 {
        match self {
            CommandCode::Success => 0,
            CommandCode::NullEngine => 1,
            CommandCode::NullInput => 2,
            CommandCode::NullResult => 3,
            CommandCode::InputTooLarge => 4,
            CommandCode::InvalidMagic => 5,
            CommandCode::UnsupportedVersion => 6,
            CommandCode::InvalidFlags => 7,
            CommandCode::InvalidReserved => 8,
            CommandCode::TruncatedInput => 9,
            CommandCode::UnknownCommand => 10,
            CommandCode::InvalidCommandLength => 11,
            CommandCode::InvalidId => 12,
            CommandCode::TrailingBytes => 13,
            CommandCode::UnknownWorld => 14,
            CommandCode::IdOutOfBound => 20,
            CommandCode::IdExceeds31Bit => 21,
            CommandCode::IdAlreadyAssigned => 22,
            CommandCode::IdNotAssigned => 23,
            CommandCode::WireConnectToSelf => 24,
            CommandCode::AlreadyConnected => 25,
            CommandCode::NotConnected => 26,
            CommandCode::TerminalAlreadyConnected => 27,
            CommandCode::InvalidTerminal => 28,
            CommandCode::InvalidParameter => 29,
            CommandCode::ParameterConstraintViolation => 30,
            CommandCode::UnknownDefinition => 31,
            CommandCode::ResourceExhausted => 32,
            CommandCode::InternalPanic => u32::MAX,
        }
    }

    /// The number that stands for the code.
    pub fn value(self) -> (result: u32)
        ensures
            result == self.number(),
    {
        match self {
            CommandCode::Success => 0,
            CommandCode::NullEngine => 1,
            CommandCode::NullInput => 2,
            CommandCode::NullResult => 3,
            CommandCode::InputTooLarge => 4,
            CommandCode::InvalidMagic => 5,
            CommandCode::UnsupportedVersion => 6,
            CommandCode::InvalidFlags => 7,
            CommandCode::InvalidReserved => 8,
            CommandCode::TruncatedInput => 9,
            CommandCode::UnknownCommand => 10,
            CommandCode::InvalidCommandLength => 11,
            CommandCode::InvalidId => 12,
            CommandCode::TrailingBytes => 13,
            CommandCode::UnknownWorld => 14,
            CommandCode::IdOutOfBound => 20,
            CommandCode::IdExceeds31Bit => 21,
            CommandCode::IdAlreadyAssigned => 22,
            CommandCode::IdNotAssigned => 23,
            CommandCode::WireConnectToSelf => 24,
            CommandCode::AlreadyConnected => 25,
            CommandCode::NotConnected => 26,
            CommandCode::TerminalAlreadyConnected => 27,
            CommandCode::InvalidTerminal => 28,
            CommandCode::InvalidParameter => 29,
            CommandCode::ParameterConstraintViolation => 30,
            CommandCode::UnknownDefinition => 31,
            CommandCode::ResourceExhausted => 32,
            CommandCode::InternalPanic => u32::MAX,
        }
    }
}

/// How applying commands to a world ended, and where it failed.
#[derive(Debug, Clone, Copy, PartialEq, Eq, Structural)]
pub struct CommandResult {
    pub code: u32,
    pub command_index: u32,
    pub byte_offset: u32,
    pub reserved: u32,
}

impl CommandResult {
    /// The words of the result, in the order in which they are handed over.
    pub open spec fn spec_words(self) -> Seq<u32> {
        seq![self.code, self.command_index, self.byte_offset, self.reserved]
    }

    /// The words of the result, in the order in which they are handed over.
    pub fn words(self) -> (result: [u32; 4])
        ensures
            result@ == self.spec_words(),
    {
        let words = [self.code, self.command_index, self.byte_offset, self.reserved];
        assert(words@ =~= self.spec_words());
        words
    }
}

/// What is wrong with commands to a world.
#[derive(Debug, Clone, Copy, PartialEq, Eq, Structural)]
pub enum WorldCommandErrorKind {
    InvalidMagic,
    UnsupportedVersion,
    InvalidFlags,
    InvalidReserved,
    TruncatedInput,
    UnknownCommand,
    InvalidCommandLength,
    InvalidId,
    TrailingBytes,
    UnknownWorld,
    IdOutOfBound,
    IdExceeds31Bit,
    IdAlreadyAssigned,
    IdNotAssigned,
    WireConnectToSelf,
    AlreadyConnected,
    NotConnected,
    TerminalAlreadyConnected,
    InvalidTerminal,
    InvalidParameter,
    ParameterConstraintViolation,
    UnknownDefinition,
    ResourceExhausted,
}

/// What is wrong with commands to a world, and where.
#[derive(Debug, Clone, Copy, PartialEq, Eq, Structural)]
pub struct WorldCommandError {
    pub kind: WorldCommandErrorKind,
    pub command_index: u32,
    pub byte_offset: u32,
}

/// Commands were not applied.
pub open spec fn not_applied(
    code: CommandCode,
    command_index: u32,
    byte_offset: u32,
) -> CommandResult {
    CommandResult { code: code.number(), command_index, byte_offset, reserved: 0 }
}

impl CommandResult {
    pub fn success() -> (result: Self)
        ensures
            result == not_applied(CommandCode::Success, u32::MAX, u32::MAX),
    {
        Self::failure(CommandCode::Success, u32::MAX, u32::MAX)
    }

    pub fn failure(code: CommandCode, command_index: u32, byte_offset: u32) -> (result: Self)
        ensures
            result == not_applied(code, command_index, byte_offset),
    {
        CommandResult { code: code.value(), command_index, byte_offset, reserved: 0 }
    }
}

/// The code of an error.
pub open spec fn command_code(kind: WorldCommandErrorKind) -> CommandCode {
    match kind {
        WorldCommandErrorKind::InvalidMagic => CommandCode::InvalidMagic,
        WorldCommandErrorKind::UnsupportedVersion => CommandCode::UnsupportedVersion,
        WorldCommandErrorKind::InvalidFlags => CommandCode::InvalidFlags,
        WorldCommandErrorKind::InvalidReserved => CommandCode::InvalidReserved,
        WorldCommandErrorKind::TruncatedInput => CommandCode::TruncatedInput,
        WorldCommandErrorKind::UnknownCommand => CommandCode::UnknownCommand,
        WorldCommandErrorKind::InvalidCommandLength => CommandCode::InvalidCommandLength,
        WorldCommandErrorKind::InvalidId => CommandCode::InvalidId,
        WorldCommandErrorKind::TrailingBytes => CommandCode::TrailingBytes,
        WorldCommandErrorKind::UnknownWorld => CommandCode::UnknownWorld,
        WorldCommandErrorKind::IdOutOfBound => CommandCode::IdOutOfBound,
        WorldCommandErrorKind::IdExceeds31Bit => CommandCode::IdExceeds31Bit,
        WorldCommandErrorKind::IdAlreadyAssigned => CommandCode::IdAlreadyAssigned,
        WorldCommandErrorKind::IdNotAssigned => CommandCode::IdNotAssigned,
        WorldCommandErrorKind::WireConnectToSelf => CommandCode::WireConnectToSelf,
        WorldCommandErrorKind::AlreadyConnected => CommandCode::AlreadyConnected,
        WorldCommandErrorKind::NotConnected => CommandCode::NotConnected,
        WorldCommandErrorKind::TerminalAlreadyConnected => CommandCode::TerminalAlreadyConnected,
        WorldCommandErrorKind::InvalidTerminal => CommandCode::InvalidTerminal,
        WorldCommandErrorKind::InvalidParameter => CommandCode::InvalidParameter,
        WorldCommandErrorKind::ParameterConstraintViolation => {
            CommandCode::ParameterConstraintViolation
        },
        WorldCommandErrorKind::UnknownDefinition => CommandCode::UnknownDefinition,
        WorldCommandErrorKind::ResourceExhausted => CommandCode::ResourceExhausted,
    }
}

fn code_of_command(kind: WorldCommandErrorKind) -> (result: CommandCode)
    ensures
        result == command_code(kind),
{
    match kind {
        WorldCommandErrorKind::InvalidMagic => CommandCode::InvalidMagic,
        WorldCommandErrorKind::UnsupportedVersion => CommandCode::UnsupportedVersion,
        WorldCommandErrorKind::InvalidFlags => CommandCode::InvalidFlags,
        WorldCommandErrorKind::InvalidReserved => CommandCode::InvalidReserved,
        WorldCommandErrorKind::TruncatedInput => CommandCode::TruncatedInput,
        WorldCommandErrorKind::UnknownCommand => CommandCode::UnknownCommand,
        WorldCommandErrorKind::InvalidCommandLength => CommandCode::InvalidCommandLength,
        WorldCommandErrorKind::InvalidId => CommandCode::InvalidId,
        WorldCommandErrorKind::TrailingBytes => CommandCode::TrailingBytes,
        WorldCommandErrorKind::UnknownWorld => CommandCode::UnknownWorld,
        WorldCommandErrorKind::IdOutOfBound => CommandCode::IdOutOfBound,
        WorldCommandErrorKind::IdExceeds31Bit => CommandCode::IdExceeds31Bit,
        WorldCommandErrorKind::IdAlreadyAssigned => CommandCode::IdAlreadyAssigned,
        WorldCommandErrorKind::IdNotAssigned => CommandCode::IdNotAssigned,
        WorldCommandErrorKind::WireConnectToSelf => CommandCode::WireConnectToSelf,
        WorldCommandErrorKind::AlreadyConnected => CommandCode::AlreadyConnected,
        WorldCommandErrorKind::NotConnected => CommandCode::NotConnected,
        WorldCommandErrorKind::TerminalAlreadyConnected => CommandCode::TerminalAlreadyConnected,
        WorldCommandErrorKind::InvalidTerminal => CommandCode::InvalidTerminal,
        WorldCommandErrorKind::InvalidParameter => CommandCode::InvalidParameter,
        WorldCommandErrorKind::ParameterConstraintViolation => {
            CommandCode::ParameterConstraintViolation
        },
        WorldCommandErrorKind::UnknownDefinition => CommandCode::UnknownDefinition,
        WorldCommandErrorKind::ResourceExhausted => CommandCode::ResourceExhausted,
    }
}

pub fn map_world_command_error(error: WorldCommandError) -> (result: CommandResult)
    ensures
        result == not_applied(command_code(error.kind), error.command_index, error.byte_offset),
{
    CommandResult::failure(code_of_command(error.kind), error.command_index, error.byte_offset)
}

/// Tells what a caller left out, if anything.
pub fn check_commands(engine_missing: bool, input_missing: bool) -> (result: Option<CommandResult>)
    ensures
        result == if engine_missing {
            Some(not_applied(CommandCode::NullEngine, u32::MAX, u32::MAX))
        } else if input_missing {
            Some(not_applied(CommandCode::NullInput, u32::MAX, u32::MAX))
        } else {
            None
        },
{
    if engine_missing {
        Some(CommandResult::failure(CommandCode::NullEngine, u32::MAX, u32::MAX))
    } else if input_missing {
        Some(CommandResult::failure(CommandCode::NullInput, u32::MAX, u32::MAX))
    } else {
        None
    }
}

/// How a tick ended.
#[derive(Debug, Clone, Copy, PartialEq, Eq, Structural)]
pub enum TickCode {
    Success,
    NullEngine,
    NullResult,
    NullOutput,
    UnknownWorld,
    BufferTooSmall,
    MissingParameter,
    Singular,
    NonlinearDidNotConverge,
    NonFiniteMatrix,
    NonFiniteSolution,
    ResourceExhausted,
    BackendFailure,
    CompilationFailed,
    InternalInvariant,
    InternalPanic,
}

impl TickCode {
    /// The number that stands for the code.
    pub open spec fn number(self) -> u32 {
        match self {
            TickCode::Success => 0,
            TickCode::NullEngine => 1,
            TickCode::NullResult => 2,
            TickCode::NullOutput => 3,
            TickCode::UnknownWorld => 4,
            TickCode::BufferTooSmall => 5,
            TickCode::MissingParameter => 20,
            TickCode::Singular => 21,
            TickCode::NonlinearDidNotConverge => 22,
            TickCode::NonFiniteMatrix => 23,
            TickCode::NonFiniteSolution => 24,
            TickCode::ResourceExhausted => 25,
            TickCode::BackendFailure => 26,
            TickCode::CompilationFailed => 27,
            TickCode::InternalInvariant => 28,
            TickCode::InternalPanic => u32::MAX,
        }
    }

    /// The number that stands for the code.
    pub fn value(self) -> (result: u32)
        ensures
            result == self.number(),
    {
        match self {
            TickCode::Success => 0,
            TickCode::NullEngine => 1,
            TickCode::NullResult => 2,
            TickCode::NullOutput => 3,
            TickCode::UnknownWorld => 4,
            TickCode::BufferTooSmall => 5,
            TickCode::MissingParameter => 20,
            TickCode::Singular => 21,
            TickCode::NonlinearDidNotConverge => 22,
            TickCode::NonFiniteMatrix => 23,
            TickCode::NonFiniteSolution => 24,
            TickCode::ResourceExhausted => 25,
            TickCode::BackendFailure => 26,
            TickCode::CompilationFailed => 27,
            TickCode::InternalInvariant => 28,
            TickCode::InternalPanic => u32::MAX,
        }
    }
}

/// How a tick ended, how many records it wrote and how many it may write, and what it failed on.
#[derive(Debug, Clone, Copy, PartialEq, Eq, Structural)]
pub struct TickResult {
    pub code: u32,
    pub record_count: u32,
    pub required_capacity: u32,
    pub device_id: u32,
    pub parameter_id: u32,
    pub iterations: u32,
}

impl TickResult {
    /// The words of the result, in the order in which they are handed over.
    pub open spec fn spec_words(self) -> Seq<u32> {
        seq![
            self.code,
            self.record_count,
            self.required_capacity,
            self.device_id,
            self.parameter_id,
            self.iterations,
        ]
    }

    /// The words of the result, in the order in which they are handed over.
    pub fn words(self) -> (result: [u32; 6])
        ensures
            result@ == self.spec_words(),
    {
        let words = [
            self.code,
            self.record_count,
            self.required_capacity,
            self.device_id,
            self.parameter_id,
            self.iterations,
        ];
        assert(words@ =~= self.spec_words());
        words
    }
}

/// Why a tick fails.
#[derive(Debug, Clone, Copy, PartialEq, Eq, Structural)]
pub enum EngineTickError {
    UnknownWorld,
    MissingParameter { device: DeviceId, parameter: ParameterId },
    Singular,
    NonlinearDidNotConverge { iterations: usize },
    NonFiniteMatrix,
    NonFiniteSolution,
    ResourceExhausted,
    BackendFailure,
    CompilationFailed,
    InternalInvariant,
}

/// A tick without a record.
pub open spec fn ticked_without(code: TickCode, required_capacity: u32) -> TickResult {
    TickResult {
        code: code.number(),
        record_count: 0,
        required_capacity,
        device_id: u32::MAX,
        parameter_id: u32::MAX,
        iterations: u32::MAX,
    }
}

/// The result of an error.
pub open spec fn tick_failure(error: EngineTickError, required_capacity: u32) -> TickResult {
    match error {
        EngineTickError::MissingParameter { device, parameter } => TickResult {
            device_id: device.value(),
            parameter_id: parameter.value(),
            ..ticked_without(TickCode::MissingParameter, required_capacity)
        },
        EngineTickError::NonlinearDidNotConverge { iterations } => TickResult {
            iterations: if iterations <= u32::MAX {
                iterations as u32
            } else {
                u32::MAX
            },
            ..ticked_without(TickCode::NonlinearDidNotConverge, required_capacity)
        },
        EngineTickError::UnknownWorld => ticked_without(TickCode::UnknownWorld, required_capacity),
        EngineTickError::Singular => ticked_without(TickCode::Singular, required_capacity),
        EngineTickError::NonFiniteMatrix => {
            ticked_without(TickCode::NonFiniteMatrix, required_capacity)
        },
        EngineTickError::NonFiniteSolution => {
            ticked_without(TickCode::NonFiniteSolution, required_capacity)
        },
        EngineTickError::ResourceExhausted => {
            ticked_without(TickCode::ResourceExhausted, required_capacity)
        },
        EngineTickError::BackendFailure => {
            ticked_without(TickCode::BackendFailure, required_capacity)
        },
        EngineTickError::CompilationFailed => {
            ticked_without(TickCode::CompilationFailed, required_capacity)
        },
        EngineTickError::InternalInvariant => {
            ticked_without(TickCode::InternalInvariant, required_capacity)
        },
    }
}

impl TickResult {
    pub fn success(record_count: u32, required_capacity: u32) -> (result: Self)
        ensures
            result == (TickResult {
                record_count,
                ..ticked_without(TickCode::Success, required_capacity)
            }),
    {
        let mut result = Self::failure(TickCode::Success, required_capacity);
        result.record_count = record_count;
        result
    }

    pub fn failure(code: TickCode, required_capacity: u32) -> (result: Self)
        ensures
            result == ticked_without(code, required_capacity),
    {
        TickResult {
            code: code.value(),
            record_count: 0,
            required_capacity,
            device_id: u32::MAX,
            parameter_id: u32::MAX,
            iterations: u32::MAX,
        }
    }
}

pub fn map_tick_error(error: EngineTickError, required_capacity: u32) -> (result: TickResult)
    ensures
        result == tick_failure(error, required_capacity),
{
    match error {
        EngineTickError::MissingParameter { device, parameter } => {
            let mut result = TickResult::failure(TickCode::MissingParameter, required_capacity);
            result.device_id = device.get();
            result.parameter_id = parameter.id();
            result
        },
        EngineTickError::NonlinearDidNotConverge { iterations } => {
            let mut result = TickResult::failure(
                TickCode::NonlinearDidNotConverge,
                required_capacity,
            );
            if iterations <= u32::MAX as usize {
                result.iterations = iterations as u32;
            }
            result
        },
        EngineTickError::UnknownWorld => {
            TickResult::failure(TickCode::UnknownWorld, required_capacity)
        },
        EngineTickError::Singular => TickResult::failure(TickCode::Singular, required_capacity),
        EngineTickError::NonFiniteMatrix => {
            TickResult::failure(TickCode::NonFiniteMatrix, required_capacity)
        },
        EngineTickError::NonFiniteSolution => {
            TickResult::failure(TickCode::NonFiniteSolution, required_capacity)
        },
        EngineTickError::ResourceExhausted => {
            TickResult::failure(TickCode::ResourceExhausted, required_capacity)
        },
        EngineTickError::BackendFailure => {
            TickResult::failure(TickCode::BackendFailure, required_capacity)
        },
        EngineTickError::CompilationFailed => {
            TickResult::failure(TickCode::CompilationFailed, required_capacity)
        },
        EngineTickError::InternalInvariant => {
            TickResult::failure(TickCode::InternalInvariant, required_capacity)
        },
    }
}

/// How subscribing or unsubscribing ended.
#[derive(Debug, Clone, Copy, PartialEq, Eq, Structural)]
pub enum SubscriptionCode {
    Success,
    NullEngine,
    NullResult,
    UnknownWorld,
    InvalidDeviceId,
    InvalidSubscriptionId,
    UnknownDevice,
    UnknownObserver,
    IdExhausted,
    UnknownSubscription,
    InternalPanic,
}

impl SubscriptionCode {
    /// The number that stands for the code.
    pub open spec fn number(self) -> u32 {
        match self {
            SubscriptionCode::Success => 0,
            SubscriptionCode::NullEngine => 1,
            SubscriptionCode::NullResult => 2,
            SubscriptionCode::UnknownWorld => 3,
            SubscriptionCode::InvalidDeviceId => 4,
            SubscriptionCode::InvalidSubscriptionId => 5,
            SubscriptionCode::UnknownDevice => 20,
            SubscriptionCode::UnknownObserver => 21,
            SubscriptionCode::IdExhausted => 22,
            SubscriptionCode::UnknownSubscription => 23,
            SubscriptionCode::InternalPanic => u32::MAX,
        }
    }

    /// The number that stands for the code.
    pub fn value(self) -> (result: u32)
        ensures
            result == self.number(),
    {
        match self {
            SubscriptionCode::Success => 0,
            SubscriptionCode::NullEngine => 1,
            SubscriptionCode::NullResult => 2,
            SubscriptionCode::UnknownWorld => 3,
            SubscriptionCode::InvalidDeviceId => 4,
            SubscriptionCode::InvalidSubscriptionId => 5,
            SubscriptionCode::UnknownDevice => 20,
            SubscriptionCode::UnknownObserver => 21,
            SubscriptionCode::IdExhausted => 22,
            SubscriptionCode::UnknownSubscription => 23,
            SubscriptionCode::InternalPanic => u32::MAX,
        }
    }
}

/// How subscribing ended, and what the subscription is known under.
#[derive(Debug, Clone, Copy, PartialEq, Eq, Structural)]
pub struct SubscriptionCreationResult {
    pub code: u32,
    pub subscription_id: u32,
}

impl SubscriptionCreationResult {
    /// The words of the result, in the order in which they are handed over.
    pub open spec fn spec_words(self) -> Seq<u32> {
        seq![self.code, self.subscription_id]
    }

    /// The words of the result, in the order in which they are handed over.
    pub fn words(self) -> (result: [u32; 2])
        ensures
            result@ == self.spec_words(),
    {
        let words = [self.code, self.subscription_id];
        assert(words@ =~= self.spec_words());
        words
    }
}

/// Why an observer cannot be subscribed to, or a subscription not be used.
#[derive(Debug, Clone, Copy, PartialEq, Eq, Structural)]
pub enum SubscriptionError {
    UnknownWorld,
    UnknownDevice { device: DeviceId },
    UnknownObserver { device: DeviceId, observer: u32 },
    IdExhausted,
    UnknownSubscription { subscription: u32 },
}

/// The code of an error.
pub open spec fn subscription_code(error: SubscriptionError) -> SubscriptionCode {
    match error {
        SubscriptionError::UnknownWorld => SubscriptionCode::UnknownWorld,
        SubscriptionError::UnknownDevice { .. } => SubscriptionCode::UnknownDevice,
        SubscriptionError::UnknownObserver { .. } => SubscriptionCode::UnknownObserver,
        SubscriptionError::IdExhausted => SubscriptionCode::IdExhausted,
        SubscriptionError::UnknownSubscription { .. } => SubscriptionCode::UnknownSubscription,
    }
}

pub fn map_subscription_error(error: SubscriptionError) -> (result: SubscriptionCode)
    ensures
        result == subscription_code(error),
{
    match error {
        SubscriptionError::UnknownWorld => SubscriptionCode::UnknownWorld,
        SubscriptionError::UnknownDevice { .. } => SubscriptionCode::UnknownDevice,
        SubscriptionError::UnknownObserver { .. } => SubscriptionCode::UnknownObserver,
        SubscriptionError::IdExhausted => SubscriptionCode::IdExhausted,
        SubscriptionError::UnknownSubscription { .. } => SubscriptionCode::UnknownSubscription,
    }
}

impl SubscriptionCreationResult {
    pub fn success(subscription_id: u32) -> (result: Self)
        ensures
            result == (SubscriptionCreationResult {
                code: SubscriptionCode::Success.number(),
                subscription_id,
            }),
    {
        SubscriptionCreationResult { code: SubscriptionCode::Success.value(), subscription_id }
    }

    pub fn failure(code: SubscriptionCode) -> (result: Self)
        ensures
            result == (SubscriptionCreationResult {
                code: code.number(),
                subscription_id: u32::MAX,
            }),
    {
        SubscriptionCreationResult { code: code.value(), subscription_id: u32::MAX }
    }
}

/// Whether there is a value for a subscription.
#[derive(Debug, Clone, Copy, PartialEq, Eq, Structural)]
pub enum SubscriptionStatusCode {
    Available,
}

impl SubscriptionStatusCode {
    pub fn value(self) -> (result: u32)
        ensures
            result == 0,
    {
        0
    }
}

/// Tells which device is meant, or why an observer cannot be subscribed to: the engine is missing,
/// or
/// the number of the device is zero.
pub fn check_subscription(engine_missing: bool, device_id: u32) -> (result: Result<
    DeviceId,
    SubscriptionCreationResult,
>)
    ensures
        match result {
            Ok(device) => !engine_missing && device_id != 0 && device.value() == device_id,
            Err(failure) => (engine_missing || device_id == 0) && failure == (
            SubscriptionCreationResult {
                code: if engine_missing {
                    SubscriptionCode::NullEngine.number()
                } else {
                    SubscriptionCode::InvalidDeviceId.number()
                },
                subscription_id: u32::MAX,
            }),
        },
{
    if engine_missing {
        return Err(SubscriptionCreationResult::failure(SubscriptionCode::NullEngine));
    }
    match DeviceId::try_from(device_id) {
        Ok(device) => Ok(device),
        Err(_) => Err(SubscriptionCreationResult::failure(SubscriptionCode::InvalidDeviceId)),
    }
}

/// Tells why a subscription cannot be ended: the engine is missing, or the number of the
/// subscription
/// is zero.
pub fn check_unsubscription(engine_missing: bool, subscription_id: u32) -> (result: Option<
    SubscriptionCode,
>)
    ensures
        result == if engine_missing {
            Some(SubscriptionCode::NullEngine)
        } else if subscription_id == 0 {
            Some(SubscriptionCode::InvalidSubscriptionId)
        } else {
            None
        },
{
    if engine_missing {
        Some(SubscriptionCode::NullEngine)
    } else if subscription_id == 0 {
        Some(SubscriptionCode::InvalidSubscriptionId)
    } else {
        None
    }
}

/// What keeps a tick from being run, given the number of subscriptions and the room for records;
/// else
/// how many records it may write.
pub open spec fn tick_admission(
    subscriptions: Result<u32, SubscriptionError>,
    record_capacity: u32,
    records_missing: bool,
) -> Result<u32, TickResult> {
    match subscriptions {
        Err(SubscriptionError::UnknownWorld) => Err(ticked_without(TickCode::UnknownWorld, 0)),
        Err(_) => Err(ticked_without(TickCode::InternalInvariant, 0)),
        Ok(required) => if record_capacity < required {
            Err(ticked_without(TickCode::BufferTooSmall, required))
        } else if required != 0 && records_missing {
            Err(ticked_without(TickCode::NullOutput, required))
        } else {
            Ok(required)
        },
    }
}

/// Tells whether a tick can be run: there has to be room for all records.
pub fn admit_tick(
    subscriptions: Result<u32, SubscriptionError>,
    record_capacity: u32,
    records_missing: bool,
) -> (result: Result<u32, TickResult>)
    ensures
        result == tick_admission(subscriptions, record_capacity, records_missing),
{
    match subscriptions {
        Err(SubscriptionError::UnknownWorld) => {
            Err(TickResult::failure(TickCode::UnknownWorld, 0))
        },
        Err(_) => Err(TickResult::failure(TickCode::InternalInvariant, 0)),
        Ok(required) => if record_capacity < required {
            Err(TickResult::failure(TickCode::BufferTooSmall, required))
        } else if required != 0 && records_missing {
            Err(TickResult::failure(TickCode::NullOutput, required))
        } else {
            Ok(required)
        },
    }
}

/// The result of a tick that was run: how many subscriptions it updated, or why it failed.
pub fn finish_tick(tick: Result<u32, EngineTickError>, required: u32) -> (result: TickResult)
    requires
        tick matches Ok(updates) ==> updates <= required,
    ensures
        match tick {
            Ok(updates) => result == (TickResult {
                record_count: updates,
                ..ticked_without(TickCode::Success, required)
            }),
            Err(error) => result == tick_failure(error, required),
        },
{
    match tick {
        Ok(updates) => TickResult::success(updates, required),
        Err(error) => map_tick_error(error, required),
    }
}

/// What a call for a tick does next.
#[derive(Debug, Clone, Copy, PartialEq, Eq, Structural)]
pub enum TickAction {
    /// Count the subscriptions of the world.
    Count,
    /// Let the world advance.
    Run { required: u32 },
    /// Write the records of the subscriptions that were updated.
    Write { updates: u32, required: u32 },
    Answer(TickResult),
}

/// What came of it.
#[derive(Debug, Clone, Copy, PartialEq, Eq)]
pub enum TickEvent {
    Counted(Result<u32, SubscriptionError>),
    /// The number of subscriptions that were updated, or why the tick failed.
    Ran(Result<u32, EngineTickError>),
    Written,
}

/// What a call for a tick does first.
pub open spec fn first_tick_action(engine_missing: bool) -> TickAction {
    if engine_missing {
        TickAction::Answer(ticked_without(TickCode::NullEngine, 0))
    } else {
        TickAction::Count
    }
}

/// What a call for a tick does after something.
pub open spec fn next_tick_action(
    action: TickAction,
    event: TickEvent,
    record_capacity: u32,
    records_missing: bool,
) -> TickAction {
    match (action, event) {
        (TickAction::Count, TickEvent::Counted(subscriptions)) => {
            match tick_admission(subscriptions, record_capacity, records_missing) {
                Ok(required) => TickAction::Run { required },
                Err(refusal) => TickAction::Answer(refusal),
            }
        },
        (TickAction::Run { required }, TickEvent::Ran(Ok(updates))) => {
            TickAction::Write { updates, required }
        },
        (TickAction::Run { required }, TickEvent::Ran(Err(error))) => {
            TickAction::Answer(tick_failure(error, required))
        },
        (TickAction::Write { updates, required }, TickEvent::Written) => TickAction::Answer(
            TickResult {
                record_count: updates,
                ..ticked_without(TickCode::Success, required)
            },
        ),
        _ => action,
    }
}

impl TickAction {
    /// The first action of a call for a tick.
    pub fn first(engine_missing: bool) -> (result: Self)
        ensures
            result == first_tick_action(engine_missing),
    {
        if engine_missing {
            TickAction::Answer(TickResult::failure(TickCode::NullEngine, 0))
        } else {
            TickAction::Count
        }
    }

    /// The next action. An event that the action does not ask for changes nothing.
    pub fn next(self, event: TickEvent, record_capacity: u32, records_missing: bool) -> (result:
        Self)
        requires
            (self, event) matches (TickAction::Run { required }, TickEvent::Ran(Ok(updates)))
                ==> updates <= required,
            self matches TickAction::Write { updates, required } ==> updates <= required,
        ensures
            result == next_tick_action(self, event, record_capacity, records_missing),
    {
        match (self, event) {
            (TickAction::Count, TickEvent::Counted(subscriptions)) => {
                match admit_tick(subscriptions, record_capacity, records_missing) {
                    Ok(required) => TickAction::Run { required },
                    Err(refusal) => TickAction::Answer(refusal),
                }
            },
            (TickAction::Run { required }, TickEvent::Ran(Ok(updates))) => {
                TickAction::Write { updates, required }
            },
            (TickAction::Run { required }, TickEvent::Ran(Err(error))) => {
                TickAction::Answer(finish_tick(Err(error), required))
            },
            (TickAction::Write { updates, required }, TickEvent::Written) => {
                TickAction::Answer(finish_tick(Ok(updates), required))
            },
            _ => self,
        }
    }
}

/// What a call for a tick leaves: the world, the records that were written, and the answer.
pub struct TickCall<W, R> {
    pub world: W,
    pub written: Seq<R>,
    pub answer: TickResult,
}

/// A call for a tick of a world whose subscriptions `count` tells and which `run` lets advance.
pub open spec fn tick_call<W, R>(
    count: spec_fn(W) -> Result<u32, SubscriptionError>,
    run: spec_fn(W) -> (W, Result<Seq<R>, EngineTickError>),
    world: W,
    record_capacity: u32,
    records_missing: bool,
) -> TickCall<W, R> {
    let counted = next_tick_action(
        TickAction::Count,
        TickEvent::Counted(count(world)),
        record_capacity,
        records_missing,
    );
    match counted {
        TickAction::Answer(answer) => TickCall { world, written: Seq::empty(), answer },
        _ => {
            let (next, outcome) = run(world);
            let ran = next_tick_action(
                counted,
                TickEvent::Ran(
                    match outcome {
                        Ok(records) => Ok(records.len() as u32),
                        Err(error) => Err(error),
                    },
                ),
                record_capacity,
                records_missing,
            );
            match ran {
                TickAction::Answer(answer) => TickCall {
                    world: next,
                    written: Seq::empty(),
                    answer,
                },
                _ => TickCall {
                    world: next,
                    written: outcome->Ok_0,
                    answer: next_tick_action(
                        ran,
                        TickEvent::Written,
                        record_capacity,
                        records_missing,
                    )->Answer_0,
                },
            }
        },
    }
}

/// A call with too little room is answered with the room that is needed, and does nothing else: no
/// record is written and the world does not advance, so that a later call gives what it would have
/// given without the refused one.
pub proof fn law_refused_ticks_change_nothing<W, R>(
    count: spec_fn(W) -> Result<u32, SubscriptionError>,
    run: spec_fn(W) -> (W, Result<Seq<R>, EngineTickError>),
    world: W,
    record_capacity: u32,
    records_missing: bool,
    later_capacity: u32,
    later_missing: bool,
)
    requires
        count(world) matches Ok(required) && record_capacity < required,
    ensures
        ({
            let refused = tick_call(count, run, world, record_capacity, records_missing);
            let required = count(world)->Ok_0;
            &&& refused.world == world
            &&& refused.written == Seq::<R>::empty()
            &&& refused.answer == TickResult {
                code: 5,
                record_count: 0,
                required_capacity: required,
                device_id: u32::MAX,
                parameter_id: u32::MAX,
                iterations: u32::MAX,
            }
            &&& tick_call(count, run, refused.world, later_capacity, later_missing) == tick_call(
                count,
                run,
                world,
                later_capacity,
                later_missing,
            )
        }),
{
}

/// A tick that is admitted has room for every record that it may write, and one that writes records
/// has somewhere to write them.
pub proof fn law_admitted_ticks_have_room(
    subscriptions: Result<u32, SubscriptionError>,
    record_capacity: u32,
    records_missing: bool,
)
    requires
        tick_admission(subscriptions, record_capacity, records_missing) is Ok,
    ensures
        subscriptions is Ok,
        subscriptions->Ok_0 <= record_capacity,
        subscriptions->Ok_0 > 0 ==> !records_missing,
{
}

/// Different codes have different numbers.
pub proof fn law_definition_registration_code_numbers_differ(
    a: DefinitionRegistrationCode,
    b: DefinitionRegistrationCode,
)
    ensures
        a.number() == b.number() ==> a == b,
{
}

/// Different codes have different numbers.
pub proof fn law_world_code_numbers_differ(a: WorldCode, b: WorldCode)
    ensures
        a.number() == b.number() ==> a == b,
{
}

/// Different codes have different numbers.
pub proof fn law_command_code_numbers_differ(a: CommandCode, b: CommandCode)
    ensures
        a.number() == b.number() ==> a == b,
{
}

/// Different codes have different numbers.
pub proof fn law_tick_code_numbers_differ(a: TickCode, b: TickCode)
    ensures
        a.number() == b.number() ==> a == b,
{
}

/// Different codes have different numbers.
pub proof fn law_subscription_code_numbers_differ(a: SubscriptionCode, b: SubscriptionCode)
    ensures
        a.number() == b.number() ==> a == b,
{
}

} // verus!
