//! The codes and results of the smaller interface, which registers definitions only.

use crate::protocol::{
    built_from, draft_in, register_definition_buffer, DefinitionRegistrationError,
    DefinitionRegistrationErrorKind,
};
use crate::registry::DefinitionRegistry;
use vstd::prelude::*;

verus! {

/// How registering a definition ended.
#[derive(Debug, Clone, Copy, PartialEq, Eq, Structural)]
pub enum DefinitionRegistrationCode {
    Success,
    NullEngine,
    NullInput,
    NullResult,
    InputTooLarge,
    InvalidMagic,
    UnsupportedVersion,
    InvalidFlags,
    TruncatedInput,
    UnknownCommand,
    InvalidCommandLength,
    InvalidCount,
    UnknownValueKind,
    TrailingBytes,
    UnknownDevice,
    TerminalCountMismatch,
    ParameterCountMismatch,
    NodeOutOfRange,
    ParameterOutOfRange,
    ParameterConstraintViolation,
    NodeIdExhausted,
    ParameterIdExhausted,
    DeviceIdExhausted,
    InvalidDefinition,
    InternalPanic,
}

impl DefinitionRegistrationCode {
    /// The number that stands for the code.
    pub open spec fn number(self) -> u32 {
        match self {
            DefinitionRegistrationCode::Success => 0,
            DefinitionRegistrationCode::NullEngine => 1,
            DefinitionRegistrationCode::NullInput => 2,
            DefinitionRegistrationCode::NullResult => 3,
            DefinitionRegistrationCode::InputTooLarge => 4,
            DefinitionRegistrationCode::InvalidMagic => 5,
            DefinitionRegistrationCode::UnsupportedVersion => 6,
            DefinitionRegistrationCode::InvalidFlags => 7,
            DefinitionRegistrationCode::TruncatedInput => 8,
            DefinitionRegistrationCode::UnknownCommand => 9,
            DefinitionRegistrationCode::InvalidCommandLength => 10,
            DefinitionRegistrationCode::InvalidCount => 11,
            DefinitionRegistrationCode::UnknownValueKind => 12,
            DefinitionRegistrationCode::TrailingBytes => 13,
            DefinitionRegistrationCode::UnknownDevice => 20,
            DefinitionRegistrationCode::TerminalCountMismatch => 21,
            DefinitionRegistrationCode::ParameterCountMismatch => 22,
            DefinitionRegistrationCode::NodeOutOfRange => 23,
            DefinitionRegistrationCode::ParameterOutOfRange => 24,
            DefinitionRegistrationCode::ParameterConstraintViolation => 25,
            DefinitionRegistrationCode::NodeIdExhausted => 26,
            DefinitionRegistrationCode::ParameterIdExhausted => 27,
            DefinitionRegistrationCode::DeviceIdExhausted => 28,
            DefinitionRegistrationCode::InvalidDefinition => 29,
            DefinitionRegistrationCode::InternalPanic => u32::MAX,
        }
    }

    /// The number that stands for the code.
    pub fn value(self) -> (result: u32)
        ensures
            result == self.number(),
    {
        match self {
            DefinitionRegistrationCode::Success => 0,
            DefinitionRegistrationCode::NullEngine => 1,
            DefinitionRegistrationCode::NullInput => 2,
            DefinitionRegistrationCode::NullResult => 3,
            DefinitionRegistrationCode::InputTooLarge => 4,
            DefinitionRegistrationCode::InvalidMagic => 5,
            DefinitionRegistrationCode::UnsupportedVersion => 6,
            DefinitionRegistrationCode::InvalidFlags => 7,
            DefinitionRegistrationCode::TruncatedInput => 8,
            DefinitionRegistrationCode::UnknownCommand => 9,
            DefinitionRegistrationCode::InvalidCommandLength => 10,
            DefinitionRegistrationCode::InvalidCount => 11,
            DefinitionRegistrationCode::UnknownValueKind => 12,
            DefinitionRegistrationCode::TrailingBytes => 13,
            DefinitionRegistrationCode::UnknownDevice => 20,
            DefinitionRegistrationCode::TerminalCountMismatch => 21,
            DefinitionRegistrationCode::ParameterCountMismatch => 22,
            DefinitionRegistrationCode::NodeOutOfRange => 23,
            DefinitionRegistrationCode::ParameterOutOfRange => 24,
            DefinitionRegistrationCode::ParameterConstraintViolation => 25,
            DefinitionRegistrationCode::NodeIdExhausted => 26,
            DefinitionRegistrationCode::ParameterIdExhausted => 27,
            DefinitionRegistrationCode::DeviceIdExhausted => 28,
            DefinitionRegistrationCode::InvalidDefinition => 29,
            DefinitionRegistrationCode::InternalPanic => u32::MAX,
        }
    }
}

/// How registering a definition ended, and where it failed.
#[derive(Debug, Clone, Copy, PartialEq, Eq, Structural)]
pub struct DefinitionRegistrationResult {
    pub code: u32,
    pub command_index: u32,
    pub byte_offset: u32,
}

impl DefinitionRegistrationResult {
    /// The words of the result, in the order in which they are handed over.
    pub open spec fn spec_words(self) -> Seq<u32> {
        seq![self.code, self.command_index, self.byte_offset]
    }

    /// The words of the result, in the order in which they are handed over.
    pub fn words(self) -> (result: [u32; 3])
        ensures
            result@ == self.spec_words(),
    {
        let words = [self.code, self.command_index, self.byte_offset];
        assert(words@ =~= self.spec_words());
        words
    }
}

/// How making a world ended, and what the world is known under.
#[derive(Debug, Clone, Copy, PartialEq, Eq, Structural)]
pub struct WorldCreationResult {
    pub code: u32,
    pub world_id: u32,
}

impl WorldCreationResult {
    /// The words of the result, in the order in which they are handed over.
    pub open spec fn spec_words(self) -> Seq<u32> {
        seq![self.code, self.world_id]
    }

    /// The words of the result, in the order in which they are handed over.
    pub fn words(self) -> (result: [u32; 2])
        ensures
            result@ == self.spec_words(),
    {
        let words = [self.code, self.world_id];
        assert(words@ =~= self.spec_words());
        words
    }
}

/// How applying commands to a world ended, where it failed, and how many commands were applied.
#[derive(Debug, Clone, Copy, PartialEq, Eq, Structural)]
pub struct CommandResult {
    pub code: u32,
    pub command_index: u32,
    pub byte_offset: u32,
    pub applied_command_count: u32,
}

impl CommandResult {
    /// The words of the result, in the order in which they are handed over.
    pub open spec fn spec_words(self) -> Seq<u32> {
        seq![self.code, self.command_index, self.byte_offset, self.applied_command_count]
    }

    /// The words of the result, in the order in which they are handed over.
    pub fn words(self) -> (result: [u32; 4])
        ensures
            result@ == self.spec_words(),
    {
        let words = [self.code, self.command_index, self.byte_offset, self.applied_command_count];
        assert(words@ =~= self.spec_words());
        words
    }
}

/// How solving a world ended, how many publications it wrote and how many it may write, and how
/// many islands were dirty, solved and failed.
#[derive(Debug, Clone, Copy, PartialEq, Eq, Structural)]
pub struct SolveResult {
    pub code: u32,
    pub publication_count: u32,
    pub required_capacity: u32,
    pub dirty_island_count: u32,
    pub solved_island_count: u32,
    pub failed_island_count: u32,
}

impl SolveResult {
    /// The words of the result, in the order in which they are handed over.
    pub open spec fn spec_words(self) -> Seq<u32> {
        seq![
            self.code,
            self.publication_count,
            self.required_capacity,
            self.dirty_island_count,
            self.solved_island_count,
            self.failed_island_count,
        ]
    }

    /// The words of the result, in the order in which they are handed over.
    pub fn words(self) -> (result: [u32; 6])
        ensures
            result@ == self.spec_words(),
    {
        let words = [
            self.code,
            self.publication_count,
            self.required_capacity,
            self.dirty_island_count,
            self.solved_island_count,
            self.failed_island_count,
        ];
        assert(words@ =~= self.spec_words());
        words
    }
}

/// How registering a definition ended.
pub open spec fn ended(
    code: DefinitionRegistrationCode,
    command_index: u32,
    byte_offset: u32,
) -> DefinitionRegistrationResult {
    DefinitionRegistrationResult { code: code.number(), command_index, byte_offset }
}

impl DefinitionRegistrationResult {
    pub fn success() -> (result: Self)
        ensures
            result == ended(DefinitionRegistrationCode::Success, u32::MAX, u32::MAX),
    {
        Self::failure(DefinitionRegistrationCode::Success, u32::MAX, u32::MAX)
    }

    pub fn failure(
        code: DefinitionRegistrationCode,
        command_index: u32,
        byte_offset: u32,
    ) -> (result: Self)
        ensures
            result == ended(code, command_index, byte_offset),
    {
        DefinitionRegistrationResult { code: code.value(), command_index, byte_offset }
    }
}

/// The code of an error. Errors that the interface has no code for count as invalid definitions.
pub open spec fn registration_code(
    kind: DefinitionRegistrationErrorKind,
) -> DefinitionRegistrationCode {
    match kind {
        DefinitionRegistrationErrorKind::InvalidMagic => DefinitionRegistrationCode::InvalidMagic,
        DefinitionRegistrationErrorKind::UnsupportedVersion => {
            DefinitionRegistrationCode::UnsupportedVersion
        },
        DefinitionRegistrationErrorKind::InvalidFlags => DefinitionRegistrationCode::InvalidFlags,
        DefinitionRegistrationErrorKind::InvalidReserved => {
            DefinitionRegistrationCode::InvalidDefinition
        },
        DefinitionRegistrationErrorKind::TruncatedInput => {
            DefinitionRegistrationCode::TruncatedInput
        },
        DefinitionRegistrationErrorKind::UnknownCommand => {
            DefinitionRegistrationCode::UnknownCommand
        },
        DefinitionRegistrationErrorKind::InvalidCommandLength => {
            DefinitionRegistrationCode::InvalidCommandLength
        },
        DefinitionRegistrationErrorKind::InvalidCount => DefinitionRegistrationCode::InvalidCount,
        DefinitionRegistrationErrorKind::InvalidDefinitionId => {
            DefinitionRegistrationCode::InvalidDefinition
        },
        DefinitionRegistrationErrorKind::UnknownValueKind => {
            DefinitionRegistrationCode::UnknownValueKind
        },
        DefinitionRegistrationErrorKind::TrailingBytes => DefinitionRegistrationCode::TrailingBytes,
        DefinitionRegistrationErrorKind::UnknownDefinition => {
            DefinitionRegistrationCode::UnknownDevice
        },
        DefinitionRegistrationErrorKind::TerminalCountMismatch => {
            DefinitionRegistrationCode::TerminalCountMismatch
        },
        DefinitionRegistrationErrorKind::ParameterCountMismatch => {
            DefinitionRegistrationCode::ParameterCountMismatch
        },
        DefinitionRegistrationErrorKind::NodeOutOfRange => {
            DefinitionRegistrationCode::NodeOutOfRange
        },
        DefinitionRegistrationErrorKind::ParameterOutOfRange => {
            DefinitionRegistrationCode::ParameterOutOfRange
        },
        DefinitionRegistrationErrorKind::ParameterConstraintViolation => {
            DefinitionRegistrationCode::ParameterConstraintViolation
        },
        DefinitionRegistrationErrorKind::NodeIdExhausted => {
            DefinitionRegistrationCode::NodeIdExhausted
        },
        DefinitionRegistrationErrorKind::ParameterIdExhausted => {
            DefinitionRegistrationCode::ParameterIdExhausted
        },
        DefinitionRegistrationErrorKind::DefinitionIdExhausted => {
            DefinitionRegistrationCode::DeviceIdExhausted
        },
        DefinitionRegistrationErrorKind::InvalidDefinition => {
            DefinitionRegistrationCode::InvalidDefinition
        },
        DefinitionRegistrationErrorKind::InvalidPrimitiveParameters => {
            DefinitionRegistrationCode::InvalidDefinition
        },
        DefinitionRegistrationErrorKind::UnusedInternalNode => {
            DefinitionRegistrationCode::InvalidDefinition
        },
        DefinitionRegistrationErrorKind::DisconnectedInternalComponent => {
            DefinitionRegistrationCode::InvalidDefinition
        },
        DefinitionRegistrationErrorKind::IncompatibleParameterConstraints => {
            DefinitionRegistrationCode::InvalidDefinition
        },
        DefinitionRegistrationErrorKind::UnusedParameter => {
            DefinitionRegistrationCode::InvalidDefinition
        },
        DefinitionRegistrationErrorKind::DevicePartitionIdExhausted => {
            DefinitionRegistrationCode::InvalidDefinition
        },
        DefinitionRegistrationErrorKind::StateCountExhausted => {
            DefinitionRegistrationCode::InvalidDefinition
        },
    }
}

fn code_of_registration(kind: DefinitionRegistrationErrorKind) -> (result:
    DefinitionRegistrationCode)
    ensures
        result == registration_code(kind),
{
    match kind {
        DefinitionRegistrationErrorKind::InvalidMagic => DefinitionRegistrationCode::InvalidMagic,
        DefinitionRegistrationErrorKind::UnsupportedVersion => {
            DefinitionRegistrationCode::UnsupportedVersion
        },
        DefinitionRegistrationErrorKind::InvalidFlags => DefinitionRegistrationCode::InvalidFlags,
        DefinitionRegistrationErrorKind::InvalidReserved => {
            DefinitionRegistrationCode::InvalidDefinition
        },
        DefinitionRegistrationErrorKind::TruncatedInput => {
            DefinitionRegistrationCode::TruncatedInput
        },
        DefinitionRegistrationErrorKind::UnknownCommand => {
            DefinitionRegistrationCode::UnknownCommand
        },
        DefinitionRegistrationErrorKind::InvalidCommandLength => {
            DefinitionRegistrationCode::InvalidCommandLength
        },
        DefinitionRegistrationErrorKind::InvalidCount => DefinitionRegistrationCode::InvalidCount,
        DefinitionRegistrationErrorKind::InvalidDefinitionId => {
            DefinitionRegistrationCode::InvalidDefinition
        },
        DefinitionRegistrationErrorKind::UnknownValueKind => {
            DefinitionRegistrationCode::UnknownValueKind
        },
        DefinitionRegistrationErrorKind::TrailingBytes => DefinitionRegistrationCode::TrailingBytes,
        DefinitionRegistrationErrorKind::UnknownDefinition => {
            DefinitionRegistrationCode::UnknownDevice
        },
        DefinitionRegistrationErrorKind::TerminalCountMismatch => {
            DefinitionRegistrationCode::TerminalCountMismatch
        },
        DefinitionRegistrationErrorKind::ParameterCountMismatch => {
            DefinitionRegistrationCode::ParameterCountMismatch
        },
        DefinitionRegistrationErrorKind::NodeOutOfRange => {
            DefinitionRegistrationCode::NodeOutOfRange
        },
        DefinitionRegistrationErrorKind::ParameterOutOfRange => {
            DefinitionRegistrationCode::ParameterOutOfRange
        },
        DefinitionRegistrationErrorKind::ParameterConstraintViolation => {
            DefinitionRegistrationCode::ParameterConstraintViolation
        },
        DefinitionRegistrationErrorKind::NodeIdExhausted => {
            DefinitionRegistrationCode::NodeIdExhausted
        },
        DefinitionRegistrationErrorKind::ParameterIdExhausted => {
            DefinitionRegistrationCode::ParameterIdExhausted
        },
        DefinitionRegistrationErrorKind::DefinitionIdExhausted => {
            DefinitionRegistrationCode::DeviceIdExhausted
        },
        DefinitionRegistrationErrorKind::InvalidDefinition => {
            DefinitionRegistrationCode::InvalidDefinition
        },
        DefinitionRegistrationErrorKind::InvalidPrimitiveParameters => {
            DefinitionRegistrationCode::InvalidDefinition
        },
        DefinitionRegistrationErrorKind::UnusedInternalNode => {
            DefinitionRegistrationCode::InvalidDefinition
        },
        DefinitionRegistrationErrorKind::DisconnectedInternalComponent => {
            DefinitionRegistrationCode::InvalidDefinition
        },
        DefinitionRegistrationErrorKind::IncompatibleParameterConstraints => {
            DefinitionRegistrationCode::InvalidDefinition
        },
        DefinitionRegistrationErrorKind::UnusedParameter => {
            DefinitionRegistrationCode::InvalidDefinition
        },
        DefinitionRegistrationErrorKind::DevicePartitionIdExhausted => {
            DefinitionRegistrationCode::InvalidDefinition
        },
        DefinitionRegistrationErrorKind::StateCountExhausted => {
            DefinitionRegistrationCode::InvalidDefinition
        },
    }
}

pub fn map_registration_error(error: DefinitionRegistrationError) -> (result:
    DefinitionRegistrationResult)
    ensures
        result == ended(
            registration_code(error.spec_kind()),
            error.spec_command_index(),
            error.spec_byte_offset(),
        ),
{
    DefinitionRegistrationResult::failure(
        code_of_registration(error.kind()),
        error.command_index(),
        error.byte_offset(),
    )
}

/// Tells what a caller left out or made too large, if anything.
pub fn check_registration(engine_missing: bool, input_missing: bool, input_length: usize) -> (result:
    Option<DefinitionRegistrationResult>)
    ensures
        result == if engine_missing {
            Some(ended(DefinitionRegistrationCode::NullEngine, u32::MAX, u32::MAX))
        } else if input_missing {
            Some(ended(DefinitionRegistrationCode::NullInput, u32::MAX, u32::MAX))
        } else if input_length > u32::MAX {
            Some(ended(DefinitionRegistrationCode::InputTooLarge, u32::MAX, u32::MAX))
        } else {
            None
        },
{
    let code = if engine_missing {
        DefinitionRegistrationCode::NullEngine
    } else if input_missing {
        DefinitionRegistrationCode::NullInput
    } else if input_length > u32::MAX as usize {
        DefinitionRegistrationCode::InputTooLarge
    } else {
        return None;
    };
    Some(DefinitionRegistrationResult::failure(code, u32::MAX, u32::MAX))
}

/// Registers the definition that a buffer describes under the next identifier.
pub fn register_definition(registry: &mut DefinitionRegistry, input: &[u8]) -> (result:
    DefinitionRegistrationResult)
    requires
        old(registry).wf(),
    ensures
        final(registry).wf(),
        match draft_in(*old(registry), input@) {
            Err(error) => {
                &&& result == ended(
                    registration_code(error.spec_kind()),
                    error.spec_command_index(),
                    error.spec_byte_offset(),
                )
                &&& final(registry).spec_definitions() == old(registry).spec_definitions()
            },
            Ok(draft) => if old(registry).spec_definitions().len() + 1 > u32::MAX {
                &&& result == ended(
                    DefinitionRegistrationCode::DeviceIdExhausted,
                    u32::MAX,
                    u32::MAX,
                )
                &&& final(registry).spec_definitions() == old(registry).spec_definitions()
            } else {
                &&& result == ended(DefinitionRegistrationCode::Success, u32::MAX, u32::MAX)
                &&& final(registry).spec_definitions().len() == old(
                    registry,
                ).spec_definitions().len() + 1
                &&& final(registry).spec_definitions().drop_last() == old(
                    registry,
                ).spec_definitions()
                &&& built_from(*old(registry), draft, final(registry).spec_definitions().last())
            },
        },
{
    match register_definition_buffer(registry, input) {
        Ok(_) => DefinitionRegistrationResult::success(),
        Err(error) => map_registration_error(error),
    }
}

} // verus!
