//! The binary form of device definitions.
//!
//! A buffer has a header of sixteen bytes (the letters `HYDF`, a version, flags and a reserved
//! number that are zero, and the number of commands) and then the commands. A command has a tag, the
//! length of its payload, and the payload.

use crate::builder::{
    element_refusal, DeviceDefinitionBuilder, DeviceDefinitionBuilderError, Refusal,
};
use crate::circuit::{Element, ElementModel, ValueRef};
use crate::decoder::{le_u16, le_u32, le_u64, Decoder, Truncated};
use crate::definition::{DeviceBody, DeviceDefinition};
use crate::ids::{DefinitionId, NodeId, ParameterId};
use crate::parameter::{Bound, ParameterConstraints};
use crate::registry::{first_unknown, DefinitionRegistry, RegisterDeviceError};
use crate::traversal::lemma_numbers_bounded;
use vstd::prelude::*;

verus! {

pub const DEFINITION_BUFFER_VERSION: u16 = 1;

pub const DEFINITION_BUFFER_MAGIC: [u8; 4] = [0x48, 0x59, 0x44, 0x46];

pub const DEFINITION_COMMAND_ADD_TERMINAL: u16 = 1;

pub const DEFINITION_COMMAND_ADD_NODE: u16 = 2;

pub const DEFINITION_COMMAND_ADD_PARAMETER: u16 = 3;

pub const DEFINITION_COMMAND_ADD_ELEMENT: u16 = 4;

pub const DEFINITION_VALUE_LITERAL: u8 = 0;

pub const DEFINITION_VALUE_PARAMETER: u8 = 1;

pub const DEFINITION_HEADER_LENGTH: usize = 16;

pub const CONSTRAINT_LOWER: u16 = 1;

pub const CONSTRAINT_LOWER_INCLUSIVE: u16 = 2;

pub const CONSTRAINT_UPPER: u16 = 4;

pub const CONSTRAINT_UPPER_INCLUSIVE: u16 = 8;

pub const CONSTRAINT_NON_ZERO: u16 = 16;

pub const CONSTRAINT_RECIPROCAL_RANGE: u16 = 32;

pub const CONSTRAINT_RECIPROCAL_LOWER: u16 = 64;

pub const CONSTRAINT_RECIPROCAL_LOWER_INCLUSIVE: u16 = 128;

pub const CONSTRAINT_RECIPROCAL_UPPER: u16 = 256;

pub const CONSTRAINT_RECIPROCAL_UPPER_INCLUSIVE: u16 = 512;

/// The flags below this number are known.
pub const CONSTRAINT_FLAGS_END: u16 = 1024;

/// What is wrong with a definition buffer.
#[derive(Debug, Clone, Copy, PartialEq, Eq, Structural)]
pub enum DefinitionRegistrationErrorKind {
    InvalidMagic,
    UnsupportedVersion,
    InvalidFlags,
    InvalidReserved,
    TruncatedInput,
    UnknownCommand,
    InvalidCommandLength,
    InvalidCount,
    InvalidDefinitionId,
    UnknownValueKind,
    TrailingBytes,
    UnknownDefinition,
    TerminalCountMismatch,
    ParameterCountMismatch,
    NodeOutOfRange,
    ParameterOutOfRange,
    ParameterConstraintViolation,
    NodeIdExhausted,
    ParameterIdExhausted,
    DefinitionIdExhausted,
    InvalidDefinition,
    InvalidPrimitiveParameters,
    UnusedInternalNode,
    DisconnectedInternalComponent,
    IncompatibleParameterConstraints,
    UnusedParameter,
    DevicePartitionIdExhausted,
    StateCountExhausted,
}

/// What is wrong with a definition buffer, and where: in which command, or `u32::MAX` outside of
/// commands, and at which byte.
#[derive(Debug, Clone, Copy, PartialEq, Eq, Structural)]
pub struct DefinitionRegistrationError {
    pub kind: DefinitionRegistrationErrorKind,
    pub command_index: u32,
    pub byte_offset: u32,
}

impl DefinitionRegistrationError {
    pub open spec fn spec_kind(self) -> DefinitionRegistrationErrorKind {
        self.kind
    }

    pub open spec fn spec_command_index(self) -> u32 {
        self.command_index
    }

    pub open spec fn spec_byte_offset(self) -> u32 {
        self.byte_offset
    }

    /// The error with these parts; the low bits of the offset are kept.
    pub open spec fn of(
        kind: DefinitionRegistrationErrorKind,
        command_index: u32,
        byte_offset: int,
    ) -> Self {
        DefinitionRegistrationError { kind, command_index, byte_offset: byte_offset as u32 }
    }

    fn new(
        kind: DefinitionRegistrationErrorKind,
        command_index: u32,
        byte_offset: usize,
    ) -> (result: Self)
        ensures
            result == Self::of(kind, command_index, byte_offset as int),
    {
        DefinitionRegistrationError {
            kind,
            command_index,
            byte_offset: #[verifier::truncate] (byte_offset as u32),
        }
    }

    fn header(kind: DefinitionRegistrationErrorKind, byte_offset: usize) -> (result: Self)
        ensures
            result == Self::of(kind, u32::MAX, byte_offset as int),
    {
        Self::new(kind, u32::MAX, byte_offset)
    }

    pub fn kind(self) -> (result: DefinitionRegistrationErrorKind)
        ensures
            result == self.spec_kind(),
    {
        self.kind
    }

    pub fn command_index(self) -> (result: u32)
        ensures
            result == self.spec_command_index(),
    {
        self.command_index
    }

    pub fn byte_offset(self) -> (result: u32)
        ensures
            result == self.spec_byte_offset(),
    {
        self.byte_offset
    }
}

/// An error of a command.
pub open spec fn failure(
    kind: DefinitionRegistrationErrorKind,
    command_index: u32,
    byte_offset: int,
) -> DefinitionRegistrationError {
    DefinitionRegistrationError::of(kind, command_index, byte_offset)
}

/// The input ended too early.
pub open spec fn cut_short(command_index: u32, end: int) -> DefinitionRegistrationError {
    failure(DefinitionRegistrationErrorKind::TruncatedInput, command_index, end)
}

/// Whether a flag is set.
pub open spec fn flagged(flags: u16, flag: u16) -> bool {
    (flags / flag) % 2 == 1
}

/// Whether flags stand together as they may.
pub open spec fn flags_allowed(flags: u16) -> bool {
    &&& flags < CONSTRAINT_FLAGS_END
    &&& flagged(flags, CONSTRAINT_LOWER_INCLUSIVE) ==> flagged(flags, CONSTRAINT_LOWER)
    &&& flagged(flags, CONSTRAINT_UPPER_INCLUSIVE) ==> flagged(flags, CONSTRAINT_UPPER)
    &&& flagged(flags, CONSTRAINT_RECIPROCAL_LOWER_INCLUSIVE) ==> flagged(
        flags,
        CONSTRAINT_RECIPROCAL_LOWER,
    )
    &&& flagged(flags, CONSTRAINT_RECIPROCAL_UPPER_INCLUSIVE) ==> flagged(
        flags,
        CONSTRAINT_RECIPROCAL_UPPER,
    )
    &&& flagged(flags, CONSTRAINT_RECIPROCAL_LOWER) || flagged(flags, CONSTRAINT_RECIPROCAL_UPPER)
        ==> flagged(flags, CONSTRAINT_RECIPROCAL_RANGE)
}

/// How many bytes a bound takes.
pub open spec fn bound_length(flags: u16, present: u16) -> int {
    if flagged(flags, present) {
        8
    } else {
        0
    }
}

/// The bound at a place, where there is one.
pub open spec fn bound_at(
    payload: Seq<u8>,
    flags: u16,
    present: u16,
    inclusive: u16,
    at: int,
) -> Option<Bound> {
    if flagged(flags, present) {
        Some(Bound { value: le_u64(payload, at), inclusive: flagged(flags, inclusive) })
    } else {
        None
    }
}

/// The constraints that a payload begins with, and how many bytes they take.
pub open spec fn constraints_in(payload: Seq<u8>, base: int, command_index: u32) -> Result<
    (ParameterConstraints, int),
    DefinitionRegistrationError,
> {
    let end = base + payload.len();
    if payload.len() < 2 {
        Err(cut_short(command_index, end))
    } else {
        let flags = le_u16(payload, 0);
        let upper_at = 2 + bound_length(flags, CONSTRAINT_LOWER);
        let lower_r_at = upper_at + bound_length(flags, CONSTRAINT_UPPER);
        let upper_r_at = lower_r_at + bound_length(flags, CONSTRAINT_RECIPROCAL_LOWER);
        let used = upper_r_at + bound_length(flags, CONSTRAINT_RECIPROCAL_UPPER);
        if !flags_allowed(flags) {
            Err(failure(DefinitionRegistrationErrorKind::InvalidFlags, command_index, base))
        } else if payload.len() < used {
            Err(cut_short(command_index, end))
        } else {
            Ok(
                (
                    ParameterConstraints::of(
                        bound_at(payload, flags, CONSTRAINT_LOWER, CONSTRAINT_LOWER_INCLUSIVE, 2),
                        bound_at(
                            payload,
                            flags,
                            CONSTRAINT_UPPER,
                            CONSTRAINT_UPPER_INCLUSIVE,
                            upper_at,
                        ),
                        flagged(flags, CONSTRAINT_NON_ZERO),
                        if flagged(flags, CONSTRAINT_RECIPROCAL_RANGE) {
                            Some(
                                (
                                    bound_at(
                                        payload,
                                        flags,
                                        CONSTRAINT_RECIPROCAL_LOWER,
                                        CONSTRAINT_RECIPROCAL_LOWER_INCLUSIVE,
                                        lower_r_at,
                                    ),
                                    bound_at(
                                        payload,
                                        flags,
                                        CONSTRAINT_RECIPROCAL_UPPER,
                                        CONSTRAINT_RECIPROCAL_UPPER_INCLUSIVE,
                                        upper_r_at,
                                    ),
                                ),
                            )
                        } else {
                            None
                        },
                    ),
                    used,
                ),
            )
        }
    }
}

/// The values of an element from a place on, after those that have been read, and where they end.
pub open spec fn values_in(
    payload: Seq<u8>,
    base: int,
    command_index: u32,
    count: int,
    read: Seq<ValueRef>,
    at: int,
) -> Result<(Seq<ValueRef>, int), DefinitionRegistrationError>
    decreases count - read.len(),
{
    let end = base + payload.len();
    if read.len() >= count {
        Ok((read, at))
    } else if at + 1 > payload.len() {
        Err(cut_short(command_index, end))
    } else if payload[at] == DEFINITION_VALUE_LITERAL {
        if at + 9 > payload.len() {
            Err(cut_short(command_index, end))
        } else {
            values_in(
                payload,
                base,
                command_index,
                count,
                read.push(ValueRef::Literal(le_u64(payload, at + 1))),
                at + 9,
            )
        }
    } else if payload[at] == DEFINITION_VALUE_PARAMETER {
        if at + 5 > payload.len() {
            Err(cut_short(command_index, end))
        } else {
            values_in(
                payload,
                base,
                command_index,
                count,
                read.push(ValueRef::Parameter(ParameterId::of(le_u32(payload, at + 1)))),
                at + 5,
            )
        }
    } else {
        Err(failure(DefinitionRegistrationErrorKind::UnknownValueKind, command_index, base + at))
    }
}

/// The element that a payload begins with, and how many bytes it takes.
pub open spec fn element_in(payload: Seq<u8>, base: int, command_index: u32) -> Result<
    (ElementModel, int),
    DefinitionRegistrationError,
> {
    let length = payload.len();
    let end = base + length;
    if length < 4 {
        Err(cut_short(command_index, end))
    } else if le_u32(payload, 0) == 0 {
        Err(failure(DefinitionRegistrationErrorKind::InvalidDefinitionId, command_index, base))
    } else if length < 8 {
        Err(cut_short(command_index, end))
    } else {
        let terminal_count = le_u32(payload, 4) as int;
        let values_at = 8 + 4 * terminal_count;
        if terminal_count > (length - 8) / 4 {
            Err(failure(DefinitionRegistrationErrorKind::InvalidCount, command_index, base + 4))
        } else if values_at + 4 > length {
            Err(cut_short(command_index, end))
        } else {
            let value_count = le_u32(payload, values_at) as int;
            if value_count > (length - values_at - 4) / 5 {
                Err(
                    failure(
                        DefinitionRegistrationErrorKind::InvalidCount,
                        command_index,
                        base + values_at,
                    ),
                )
            } else {
                match values_in(
                    payload,
                    base,
                    command_index,
                    value_count,
                    Seq::empty(),
                    values_at + 4,
                ) {
                    Err(error) => Err(error),
                    Ok((values, used)) => Ok(
                        (
                            ElementModel {
                                definition: le_u32(payload, 0),
                                terminals: Seq::new(
                                    terminal_count as nat,
                                    |i: int| le_u32(payload, 8 + 4 * i),
                                ),
                                parameters: values,
                            },
                            used,
                        ),
                    ),
                }
            }
        }
    }
}

/// A definition in the making.
pub struct Draft {
    pub terminals: Seq<u32>,
    pub parameters: Seq<ParameterConstraints>,
    pub node_count: u32,
    pub elements: Seq<ElementModel>,
}

/// The kind that stands for what a builder refuses.
pub open spec fn kind_of(refusal: Refusal) -> DefinitionRegistrationErrorKind {
    match refusal {
        Refusal::UnknownDefinition { .. } => DefinitionRegistrationErrorKind::UnknownDefinition,
        Refusal::TerminalCountMismatch { .. } => {
            DefinitionRegistrationErrorKind::TerminalCountMismatch
        },
        Refusal::ParameterCountMismatch { .. } => {
            DefinitionRegistrationErrorKind::ParameterCountMismatch
        },
        Refusal::NodeOutOfRange { .. } => DefinitionRegistrationErrorKind::NodeOutOfRange,
        Refusal::ParameterOutOfRange { .. } => DefinitionRegistrationErrorKind::ParameterOutOfRange,
        Refusal::ParameterConstraint { .. } => {
            DefinitionRegistrationErrorKind::ParameterConstraintViolation
        },
        Refusal::PrimitiveParameters { .. } => {
            DefinitionRegistrationErrorKind::InvalidPrimitiveParameters
        },
        Refusal::UnusedInternalNode { .. } => DefinitionRegistrationErrorKind::UnusedInternalNode,
        Refusal::InternalComponentWithoutTerminal { .. } => {
            DefinitionRegistrationErrorKind::DisconnectedInternalComponent
        },
        Refusal::NodeIdExhausted => DefinitionRegistrationErrorKind::NodeIdExhausted,
        Refusal::ParameterIdExhausted => DefinitionRegistrationErrorKind::ParameterIdExhausted,
        Refusal::ElementIdExhausted => DefinitionRegistrationErrorKind::InvalidDefinition,
        Refusal::DevicePartitionIdExhausted => {
            DefinitionRegistrationErrorKind::DevicePartitionIdExhausted
        },
    }
}

/// What a command makes of a draft.
#[verifier::opaque]
pub open spec fn command_on(
    registry: DefinitionRegistry,
    draft: Draft,
    tag: u16,
    payload: Seq<u8>,
    base: int,
    command_index: u32,
    at: int,
) -> Result<Draft, DefinitionRegistrationError> {
    if tag == DEFINITION_COMMAND_ADD_TERMINAL || tag == DEFINITION_COMMAND_ADD_NODE {
        if payload.len() != 0 {
            Err(failure(DefinitionRegistrationErrorKind::InvalidCommandLength, command_index, at))
        } else if draft.node_count == u32::MAX {
            Err(failure(DefinitionRegistrationErrorKind::NodeIdExhausted, command_index, at))
        } else {
            Ok(
                Draft {
                    terminals: if tag == DEFINITION_COMMAND_ADD_TERMINAL {
                        draft.terminals.push(draft.node_count)
                    } else {
                        draft.terminals
                    },
                    parameters: draft.parameters,
                    node_count: (draft.node_count + 1) as u32,
                    elements: draft.elements,
                },
            )
        }
    } else if tag == DEFINITION_COMMAND_ADD_PARAMETER {
        match constraints_in(payload, base, command_index) {
            Err(error) => Err(error),
            Ok((constraints, used)) => if used != payload.len() {
                Err(
                    failure(
                        DefinitionRegistrationErrorKind::InvalidCommandLength,
                        command_index,
                        at,
                    ),
                )
            } else if draft.parameters.len() > u32::MAX {
                Err(
                    failure(
                        DefinitionRegistrationErrorKind::ParameterIdExhausted,
                        command_index,
                        at,
                    ),
                )
            } else {
                Ok(
                    Draft {
                        terminals: draft.terminals,
                        parameters: draft.parameters.push(constraints),
                        node_count: draft.node_count,
                        elements: draft.elements,
                    },
                )
            },
        }
    } else if tag == DEFINITION_COMMAND_ADD_ELEMENT {
        match element_in(payload, base, command_index) {
            Err(error) => Err(error),
            Ok((element, used)) => if used != payload.len() {
                Err(
                    failure(
                        DefinitionRegistrationErrorKind::InvalidCommandLength,
                        command_index,
                        at,
                    ),
                )
            } else {
                match element_refusal(
                    registry,
                    draft.node_count,
                    draft.parameters.len() as int,
                    element,
                ) {
                    Some(refusal) => Err(failure(kind_of(refusal), command_index, at)),
                    None => if draft.elements.len() > u32::MAX {
                        Err(
                            failure(
                                DefinitionRegistrationErrorKind::InvalidDefinition,
                                command_index,
                                at,
                            ),
                        )
                    } else {
                        Ok(
                            Draft {
                                terminals: draft.terminals,
                                parameters: draft.parameters,
                                node_count: draft.node_count,
                                elements: draft.elements.push(element),
                            },
                        )
                    },
                }
            },
        }
    } else {
        Err(failure(DefinitionRegistrationErrorKind::UnknownCommand, command_index, at))
    }
}

/// What the commands from a place on make of a draft, and where they end.
pub open spec fn commands_in(
    registry: DefinitionRegistry,
    bytes: Seq<u8>,
    draft: Draft,
    command_index: int,
    count: int,
    at: int,
) -> Result<(Draft, int), DefinitionRegistrationError>
    decreases count - command_index,
{
    let index = command_index as u32;
    if command_index >= count {
        Ok((draft, at))
    } else if at + 6 > bytes.len() {
        Err(cut_short(index, bytes.len() as int))
    } else {
        let length = le_u32(bytes, at + 2) as int;
        if at + 6 + length > bytes.len() {
            Err(cut_short(index, bytes.len() as int))
        } else {
            match command_on(
                registry,
                draft,
                le_u16(bytes, at),
                bytes.subrange(at + 6, at + 6 + length),
                at + 6,
                index,
                at,
            ) {
                Err(error) => Err(error),
                Ok(next) => commands_in(
                    registry,
                    bytes,
                    next,
                    command_index + 1,
                    count,
                    at + 6 + length,
                ),
            }
        }
    }
}

/// An error of the header.
pub open spec fn header_failure(
    kind: DefinitionRegistrationErrorKind,
    byte_offset: int,
) -> DefinitionRegistrationError {
    DefinitionRegistrationError::of(kind, u32::MAX, byte_offset)
}

/// What is wrong with the header, if anything is.
pub open spec fn header_refusal(bytes: Seq<u8>) -> Option<DefinitionRegistrationError> {
    let cut = header_failure(
        DefinitionRegistrationErrorKind::TruncatedInput,
        bytes.len() as int,
    );
    if bytes.len() < 4 {
        Some(cut)
    } else if bytes.subrange(0, 4) != DEFINITION_BUFFER_MAGIC@ {
        Some(header_failure(DefinitionRegistrationErrorKind::InvalidMagic, 0))
    } else if bytes.len() < 6 {
        Some(cut)
    } else if le_u16(bytes, 4) != DEFINITION_BUFFER_VERSION {
        Some(header_failure(DefinitionRegistrationErrorKind::UnsupportedVersion, 4))
    } else if bytes.len() < 8 {
        Some(cut)
    } else if le_u16(bytes, 6) != 0 {
        Some(header_failure(DefinitionRegistrationErrorKind::InvalidFlags, 6))
    } else if bytes.len() < 12 {
        Some(cut)
    } else if le_u32(bytes, 8) != 0 {
        Some(header_failure(DefinitionRegistrationErrorKind::InvalidReserved, 8))
    } else if bytes.len() < 16 {
        Some(cut)
    } else {
        None
    }
}

/// A definition without anything in it.
pub open spec fn empty_draft() -> Draft {
    Draft {
        terminals: Seq::empty(),
        parameters: Seq::empty(),
        node_count: 0,
        elements: Seq::empty(),
    }
}

/// The definition that a buffer describes, before it is built.
pub open spec fn draft_in(registry: DefinitionRegistry, bytes: Seq<u8>) -> Result<
    Draft,
    DefinitionRegistrationError,
> {
    match header_refusal(bytes) {
        Some(error) => Err(error),
        None => {
            let count = le_u32(bytes, 12);
            match commands_in(registry, bytes, empty_draft(), 0, count as int, 16) {
                Err(error) => Err(error),
                Ok((draft, at)) => if at != bytes.len() {
                    Err(failure(DefinitionRegistrationErrorKind::TrailingBytes, count, at))
                } else {
                    match build_refusal(registry, draft) {
                        Some(refusal) => Err(failure(kind_of(refusal), count, at)),
                        None => Ok(draft),
                    }
                },
            }
        },
    }
}

/// The reason for which a draft cannot be built, if there is one.
pub open spec fn build_refusal(registry: DefinitionRegistry, draft: Draft) -> Option<Refusal> {
    crate::builder::refusal_to_build(registry, draft.elements, draft.terminals, draft.node_count)
}

/// Whether a definition is what a draft describes.
pub open spec fn built_from(
    registry: DefinitionRegistry,
    draft: Draft,
    definition: DeviceDefinition,
) -> bool {
    &&& definition.wf()
    &&& definition.spec_terminals() == draft.terminals
    &&& definition.spec_parameters() == draft.parameters
    &&& definition.spec_body() matches DeviceBody::Composite(circuit)
    &&& circuit.spec_node_count() == draft.node_count
    &&& circuit.models() == draft.elements
    &&& definition.spec_partitions().len() == draft.terminals.len()
    &&& forall|t: int|
        0 <= t < draft.terminals.len() ==> #[trigger] definition.spec_partitions()[t]
            == crate::builder::partition_of(registry, draft.elements, draft.terminals, t)
}

/// Whether a flag is set.
fn has_flag(flags: u16, flag: u16) -> (result: bool)
    requires
        flag != 0,
    ensures
        result == flagged(flags, flag),
{
    (flags / flag) % 2 == 1
}

fn truncated(error: Truncated, command_index: u32) -> (result: DefinitionRegistrationError)
    ensures
        result == cut_short(command_index, error.offset as int),
{
    DefinitionRegistrationError::new(
        DefinitionRegistrationErrorKind::TruncatedInput,
        command_index,
        error.offset,
    )
}

fn truncated_header(error: Truncated) -> (result: DefinitionRegistrationError)
    ensures
        result == header_failure(
            DefinitionRegistrationErrorKind::TruncatedInput,
            error.offset as int,
        ),
{
    DefinitionRegistrationError::header(
        DefinitionRegistrationErrorKind::TruncatedInput,
        error.offset,
    )
}

fn decode_bound(decoder: &mut Decoder<'_>, flags: u16, present: u16, inclusive: u16) -> (result:
    Result<Option<Bound>, Truncated>)
    requires
        old(decoder).wf(),
        present != 0,
        inclusive != 0,
    ensures
        if old(decoder).pos() + bound_length(flags, present) <= old(decoder).bytes().len() {
            &&& old(decoder).advanced(*final(decoder), bound_length(flags, present))
            &&& result == Ok::<Option<Bound>, Truncated>(
                bound_at(old(decoder).bytes(), flags, present, inclusive, old(decoder).pos()),
            )
        } else {
            &&& result matches Err(error)
            &&& error.offset == old(decoder).end()
        },
{
    if !has_flag(flags, present) {
        return Ok(None);
    }
    match decoder.read_bits() {
        Ok(value) => Ok(Some(Bound { value, inclusive: has_flag(flags, inclusive) })),
        Err(error) => Err(error),
    }
}

/// Reads the constraints of a parameter.
fn decode_constraints(decoder: &mut Decoder<'_>, command_index: u32) -> (result: Result<
    ParameterConstraints,
    DefinitionRegistrationError,
>)
    requires
        old(decoder).wf(),
        old(decoder).pos() == 0,
    ensures
        match constraints_in(old(decoder).bytes(), old(decoder).base(), command_index) {
            Ok((constraints, used)) => {
                &&& result == Ok::<ParameterConstraints, DefinitionRegistrationError>(constraints)
                &&& old(decoder).advanced(*final(decoder), used)
            },
            Err(error) => result == Err::<ParameterConstraints, _>(error),
        },
{
    let ghost payload = decoder.bytes();
    let ghost base = decoder.base();
    let flags_offset: usize = decoder.offset();
    let flags: u16 = match decoder.read_u16() {
        Ok(flags) => flags,
        Err(error) => {
            return Err(truncated(error, command_index));
        },
    };
    let known = flags < CONSTRAINT_FLAGS_END;
    let alone = (has_flag(flags, CONSTRAINT_LOWER_INCLUSIVE) && !has_flag(flags, CONSTRAINT_LOWER))
        || (has_flag(flags, CONSTRAINT_UPPER_INCLUSIVE) && !has_flag(flags, CONSTRAINT_UPPER)) || (
    has_flag(flags, CONSTRAINT_RECIPROCAL_LOWER_INCLUSIVE) && !has_flag(
        flags,
        CONSTRAINT_RECIPROCAL_LOWER,
    )) || (has_flag(flags, CONSTRAINT_RECIPROCAL_UPPER_INCLUSIVE) && !has_flag(
        flags,
        CONSTRAINT_RECIPROCAL_UPPER,
    ));
    let reciprocal = has_flag(flags, CONSTRAINT_RECIPROCAL_LOWER) || has_flag(
        flags,
        CONSTRAINT_RECIPROCAL_UPPER,
    );
    if !known || alone || (reciprocal && !has_flag(flags, CONSTRAINT_RECIPROCAL_RANGE)) {
        return Err(
            DefinitionRegistrationError::new(
                DefinitionRegistrationErrorKind::InvalidFlags,
                command_index,
                flags_offset,
            ),
        );
    }
    assert(flags_allowed(flags));
    let lower = match decode_bound(decoder, flags, CONSTRAINT_LOWER, CONSTRAINT_LOWER_INCLUSIVE) {
        Ok(bound) => bound,
        Err(error) => {
            return Err(truncated(error, command_index));
        },
    };
    let upper = match decode_bound(decoder, flags, CONSTRAINT_UPPER, CONSTRAINT_UPPER_INCLUSIVE) {
        Ok(bound) => bound,
        Err(error) => {
            return Err(truncated(error, command_index));
        },
    };
    let reciprocal_range = if has_flag(flags, CONSTRAINT_RECIPROCAL_RANGE) {
        let reciprocal_lower = match decode_bound(
            decoder,
            flags,
            CONSTRAINT_RECIPROCAL_LOWER,
            CONSTRAINT_RECIPROCAL_LOWER_INCLUSIVE,
        ) {
            Ok(bound) => bound,
            Err(error) => {
                return Err(truncated(error, command_index));
            },
        };
        let reciprocal_upper = match decode_bound(
            decoder,
            flags,
            CONSTRAINT_RECIPROCAL_UPPER,
            CONSTRAINT_RECIPROCAL_UPPER_INCLUSIVE,
        ) {
            Ok(bound) => bound,
            Err(error) => {
                return Err(truncated(error, command_index));
            },
        };
        Some((reciprocal_lower, reciprocal_upper))
    } else {
        None
    };
    Ok(
        ParameterConstraints::new(
            lower,
            upper,
            has_flag(flags, CONSTRAINT_NON_ZERO),
            reciprocal_range,
        ),
    )
}

/// Reads an element.
#[verifier::loop_isolation(false)]
#[verifier::spinoff_prover]
#[verifier::rlimit(40)]
fn decode_element(decoder: &mut Decoder<'_>, command_index: u32) -> (result: Result<
    Element,
    DefinitionRegistrationError,
>)
    requires
        old(decoder).wf(),
        old(decoder).pos() == 0,
    ensures
        match element_in(old(decoder).bytes(), old(decoder).base(), command_index) {
            Ok((model, used)) => {
                &&& result matches Ok(element)
                &&& element@ == model
                &&& old(decoder).advanced(*final(decoder), used)
            },
            Err(error) => result == Err::<Element, _>(error),
        },
{
    let ghost payload = decoder.bytes();
    let ghost base = decoder.base();
    let id_offset: usize = decoder.offset();
    let raw_definition: u32 = match decoder.read_u32() {
        Ok(value) => value,
        Err(error) => {
            return Err(truncated(error, command_index));
        },
    };
    let definition = match DefinitionId::try_from(raw_definition) {
        Ok(definition) => definition,
        Err(_) => {
            return Err(
                DefinitionRegistrationError::new(
                    DefinitionRegistrationErrorKind::InvalidDefinitionId,
                    command_index,
                    id_offset,
                ),
            );
        },
    };
    let terminal_count_offset: usize = decoder.offset();
    let terminal_count: usize = match decoder.read_u32() {
        Ok(value) => value as usize,
        Err(error) => {
            return Err(truncated(error, command_index));
        },
    };
    if terminal_count > decoder.remaining() / 4 {
        return Err(
            DefinitionRegistrationError::new(
                DefinitionRegistrationErrorKind::InvalidCount,
                command_index,
                terminal_count_offset,
            ),
        );
    }
    let mut terminals: Vec<NodeId> = Vec::new();
    while terminals.len() < terminal_count
        invariant
            terminals@.len() <= terminal_count,
            decoder.wf(),
            decoder.bytes() == payload,
            decoder.base() == base,
            decoder.pos() == 8 + 4 * terminals@.len(),
            forall|i: int|
                0 <= i < terminals@.len() ==> (#[trigger] terminals@[i]).value() == le_u32(
                    payload,
                    8 + 4 * i,
                ),
        decreases terminal_count - terminals@.len(),
    {
        let node: u32 = decoder.read_u32().unwrap();
        terminals.push(NodeId::new(node));
    }
    let parameter_count_offset: usize = decoder.offset();
    let parameter_count: usize = match decoder.read_u32() {
        Ok(value) => value as usize,
        Err(error) => {
            return Err(truncated(error, command_index));
        },
    };
    if parameter_count > decoder.remaining() / 5 {
        return Err(
            DefinitionRegistrationError::new(
                DefinitionRegistrationErrorKind::InvalidCount,
                command_index,
                parameter_count_offset,
            ),
        );
    }
    let ghost values_at = 8 + 4 * terminal_count;
    let ghost whole = values_in(
        payload,
        base,
        command_index,
        parameter_count as int,
        Seq::empty(),
        values_at + 4,
    );
    let mut parameters: Vec<ValueRef> = Vec::new();
    assert(parameters@ =~= Seq::empty());
    while parameters.len() < parameter_count
        invariant
            parameters@.len() <= parameter_count,
            decoder.wf(),
            decoder.bytes() == payload,
            decoder.base() == base,
            whole == values_in(
                payload,
                base,
                command_index,
                parameter_count as int,
                parameters@,
                decoder.pos(),
            ),
        decreases parameter_count - parameters@.len(),
    {
        let kind_offset: usize = decoder.offset();
        let kind: u8 = match decoder.read_u8() {
            Ok(kind) => kind,
            Err(error) => {
                return Err(truncated(error, command_index));
            },
        };
        if kind == DEFINITION_VALUE_LITERAL {
            match decoder.read_bits() {
                Ok(value) => {
                    parameters.push(ValueRef::Literal(value));
                },
                Err(error) => {
                    return Err(truncated(error, command_index));
                },
            }
        } else if kind == DEFINITION_VALUE_PARAMETER {
            match decoder.read_u32() {
                Ok(value) => {
                    parameters.push(ValueRef::Parameter(ParameterId::new(value)));
                },
                Err(error) => {
                    return Err(truncated(error, command_index));
                },
            }
        } else {
            return Err(
                DefinitionRegistrationError::new(
                    DefinitionRegistrationErrorKind::UnknownValueKind,
                    command_index,
                    kind_offset,
                ),
            );
        }
    }
    let element = Element::new(definition, terminals, parameters);
    proof {
        assert(element@.terminals =~= Seq::new(
            terminal_count as nat,
            |i: int| le_u32(payload, 8 + 4 * i),
        ));
    }
    Ok(element)
}

/// The kind that stands for an error of the builder.
fn map_builder_error(
    error: DeviceDefinitionBuilderError,
    command_index: u32,
    command_offset: usize,
) -> (result: DefinitionRegistrationError)
    ensures
        result == failure(kind_of(error@), command_index, command_offset as int),
{
    let kind = match error {
        DeviceDefinitionBuilderError::UnknownDefinition { .. } => {
            DefinitionRegistrationErrorKind::UnknownDefinition
        },
        DeviceDefinitionBuilderError::TerminalCountMismatch { .. } => {
            DefinitionRegistrationErrorKind::TerminalCountMismatch
        },
        DeviceDefinitionBuilderError::ParameterCountMismatch { .. } => {
            DefinitionRegistrationErrorKind::ParameterCountMismatch
        },
        DeviceDefinitionBuilderError::NodeOutOfRange { .. } => {
            DefinitionRegistrationErrorKind::NodeOutOfRange
        },
        DeviceDefinitionBuilderError::ParameterOutOfRange { .. } => {
            DefinitionRegistrationErrorKind::ParameterOutOfRange
        },
        DeviceDefinitionBuilderError::ParameterConstraint { .. } => {
            DefinitionRegistrationErrorKind::ParameterConstraintViolation
        },
        DeviceDefinitionBuilderError::PrimitiveParameters { .. } => {
            DefinitionRegistrationErrorKind::InvalidPrimitiveParameters
        },
        DeviceDefinitionBuilderError::UnusedInternalNode { .. } => {
            DefinitionRegistrationErrorKind::UnusedInternalNode
        },
        DeviceDefinitionBuilderError::InternalComponentWithoutTerminal { .. } => {
            DefinitionRegistrationErrorKind::DisconnectedInternalComponent
        },
        DeviceDefinitionBuilderError::NodeIdExhausted => {
            DefinitionRegistrationErrorKind::NodeIdExhausted
        },
        DeviceDefinitionBuilderError::ParameterIdExhausted => {
            DefinitionRegistrationErrorKind::ParameterIdExhausted
        },
        DeviceDefinitionBuilderError::ElementIdExhausted => {
            DefinitionRegistrationErrorKind::InvalidDefinition
        },
        DeviceDefinitionBuilderError::DevicePartitionIdExhausted => {
            DefinitionRegistrationErrorKind::DevicePartitionIdExhausted
        },
    };
    DefinitionRegistrationError::new(kind, command_index, command_offset)
}

/// Whether a builder holds a draft.
spec fn holds_draft(builder: DeviceDefinitionBuilder<'_>, draft: Draft) -> bool {
    &&& builder.spec_terminals() == draft.terminals
    &&& builder.spec_parameters() == draft.parameters
    &&& builder.spec_node_count() == draft.node_count
    &&& builder.spec_elements() == draft.elements
}

/// Does what a command says to a definition in the making.
fn apply_command(
    builder: &mut DeviceDefinitionBuilder<'_>,
    tag: u16,
    payload: &[u8],
    payload_offset: usize,
    command_index: u32,
    command_offset: usize,
    Ghost(draft): Ghost<Draft>,
) -> (result: Result<Ghost<Draft>, DefinitionRegistrationError>)
    requires
        old(builder).wf(),
        holds_draft(*old(builder), draft),
        payload_offset + payload@.len() <= usize::MAX,
    ensures
        final(builder).wf(),
        final(builder).spec_registry() == old(builder).spec_registry(),
        match command_on(
            old(builder).spec_registry(),
            draft,
            tag,
            payload@,
            payload_offset as int,
            command_index,
            command_offset as int,
        ) {
            Ok(next) => {
                &&& result matches Ok(got)
                &&& got@ == next
                &&& holds_draft(*final(builder), next)
            },
            Err(error) => result == Err::<Ghost<Draft>, _>(error),
        },
{
    proof {
        reveal(command_on);
    }
    let ghost next = command_on(
        builder.spec_registry(),
        draft,
        tag,
        payload@,
        payload_offset as int,
        command_index,
        command_offset as int,
    );
    let mut payload_decoder = Decoder::new(payload, payload_offset);
    if tag == DEFINITION_COMMAND_ADD_TERMINAL || tag == DEFINITION_COMMAND_ADD_NODE {
        if payload.len() != 0 {
            return Err(
                DefinitionRegistrationError::new(
                    DefinitionRegistrationErrorKind::InvalidCommandLength,
                    command_index,
                    command_offset,
                ),
            );
        }
        let added = if tag == DEFINITION_COMMAND_ADD_TERMINAL {
            builder.add_terminal()
        } else {
            builder.add_node()
        };
        match added {
            Ok(_) => {},
            Err(error) => {
                return Err(map_builder_error(error, command_index, command_offset));
            },
        }
    } else if tag == DEFINITION_COMMAND_ADD_PARAMETER {
        let constraints = match decode_constraints(&mut payload_decoder, command_index) {
            Ok(constraints) => constraints,
            Err(error) => {
                return Err(error);
            },
        };
        if !payload_decoder.is_empty() {
            return Err(
                DefinitionRegistrationError::new(
                    DefinitionRegistrationErrorKind::InvalidCommandLength,
                    command_index,
                    command_offset,
                ),
            );
        }
        match builder.add_parameter(constraints) {
            Ok(_) => {},
            Err(error) => {
                return Err(map_builder_error(error, command_index, command_offset));
            },
        }
    } else if tag == DEFINITION_COMMAND_ADD_ELEMENT {
        let element = match decode_element(&mut payload_decoder, command_index) {
            Ok(element) => element,
            Err(error) => {
                return Err(error);
            },
        };
        if !payload_decoder.is_empty() {
            return Err(
                DefinitionRegistrationError::new(
                    DefinitionRegistrationErrorKind::InvalidCommandLength,
                    command_index,
                    command_offset,
                ),
            );
        }
        match builder.add_element(element) {
            Ok(_) => {},
            Err(error) => {
                return Err(map_builder_error(error, command_index, command_offset));
            },
        }
    } else {
        return Err(
            DefinitionRegistrationError::new(
                DefinitionRegistrationErrorKind::UnknownCommand,
                command_index,
                command_offset,
            ),
        );
    }
    Ok(Ghost(next->Ok_0))
}

/// Reads the header, up to the number of commands.
fn decode_header(decoder: &mut Decoder<'_>) -> (result: Result<u32, DefinitionRegistrationError>)
    requires
        old(decoder).wf(),
        old(decoder).pos() == 0,
        old(decoder).base() == 0,
    ensures
        match header_refusal(old(decoder).bytes()) {
            Some(error) => result == Err::<u32, _>(error),
            None => {
                &&& result == Ok::<u32, DefinitionRegistrationError>(
                    le_u32(old(decoder).bytes(), 12),
                )
                &&& old(decoder).advanced(*final(decoder), 16)
            },
        },
{
    let magic_offset: usize = decoder.offset();
    let magic = match decoder.read_bytes(4) {
        Ok(magic) => magic,
        Err(error) => {
            return Err(truncated_header(error));
        },
    };
    if magic[0] != DEFINITION_BUFFER_MAGIC[0] || magic[1] != DEFINITION_BUFFER_MAGIC[1] || magic[2]
        != DEFINITION_BUFFER_MAGIC[2] || magic[3] != DEFINITION_BUFFER_MAGIC[3] {
        proof {
            assert(magic@ != DEFINITION_BUFFER_MAGIC@);
        }
        return Err(
            DefinitionRegistrationError::header(
                DefinitionRegistrationErrorKind::InvalidMagic,
                magic_offset,
            ),
        );
    }
    assert(magic@ =~= DEFINITION_BUFFER_MAGIC@);
    let version_offset: usize = decoder.offset();
    let version: u16 = match decoder.read_u16() {
        Ok(version) => version,
        Err(error) => {
            return Err(truncated_header(error));
        },
    };
    if version != DEFINITION_BUFFER_VERSION {
        return Err(
            DefinitionRegistrationError::header(
                DefinitionRegistrationErrorKind::UnsupportedVersion,
                version_offset,
            ),
        );
    }
    let flags_offset: usize = decoder.offset();
    let flags: u16 = match decoder.read_u16() {
        Ok(flags) => flags,
        Err(error) => {
            return Err(truncated_header(error));
        },
    };
    if flags != 0 {
        return Err(
            DefinitionRegistrationError::header(
                DefinitionRegistrationErrorKind::InvalidFlags,
                flags_offset,
            ),
        );
    }
    let reserved_offset: usize = decoder.offset();
    let reserved: u32 = match decoder.read_u32() {
        Ok(reserved) => reserved,
        Err(error) => {
            return Err(truncated_header(error));
        },
    };
    if reserved != 0 {
        return Err(
            DefinitionRegistrationError::header(
                DefinitionRegistrationErrorKind::InvalidReserved,
                reserved_offset,
            ),
        );
    }
    match decoder.read_u32() {
        Ok(command_count) => Ok(command_count),
        Err(error) => Err(truncated_header(error)),
    }
}

/// Reads the commands of a buffer.
#[verifier::spinoff_prover]
#[verifier::rlimit(40)]
fn decode_commands(
    builder: &mut DeviceDefinitionBuilder<'_>,
    decoder: &mut Decoder<'_>,
    command_count: u32,
) -> (result: Result<Ghost<Draft>, DefinitionRegistrationError>)
    requires
        old(builder).wf(),
        holds_draft(*old(builder), empty_draft()),
        old(decoder).wf(),
        old(decoder).base() == 0,
        old(decoder).pos() == 16,
    ensures
        final(builder).wf(),
        final(builder).spec_registry() == old(builder).spec_registry(),
        match commands_in(
            old(builder).spec_registry(),
            old(decoder).bytes(),
            empty_draft(),
            0,
            command_count as int,
            16,
        ) {
            Ok((draft, at)) => {
                &&& result matches Ok(got)
                &&& got@ == draft
                &&& holds_draft(*final(builder), draft)
                &&& old(decoder).advanced(*final(decoder), at - 16)
            },
            Err(error) => result == Err::<Ghost<Draft>, _>(error),
        },
{
    let ghost registry = builder.spec_registry();
    let ghost bytes = decoder.bytes();
    let ghost mut draft = empty_draft();
    let ghost whole = commands_in(registry, bytes, draft, 0, command_count as int, 16);
    let mut command_index: u32 = 0;
    while command_index < command_count
        invariant
            command_index <= command_count,
            builder.wf(),
            builder.spec_registry() == registry,
            holds_draft(*builder, draft),
            decoder.wf(),
            decoder.bytes() == bytes,
            decoder.base() == 0,
            registry == old(builder).spec_registry(),
            bytes == old(decoder).bytes(),
            whole == commands_in(registry, bytes, empty_draft(), 0, command_count as int, 16),
            whole == commands_in(
                registry,
                bytes,
                draft,
                command_index as int,
                command_count as int,
                decoder.pos(),
            ),
        decreases command_count - command_index,
    {
        let command_offset: usize = decoder.offset();
        let tag: u16 = match decoder.read_u16() {
            Ok(tag) => tag,
            Err(error) => {
                return Err(truncated(error, command_index));
            },
        };
        let payload_length: usize = match decoder.read_u32() {
            Ok(length) => length as usize,
            Err(error) => {
                return Err(truncated(error, command_index));
            },
        };
        let payload_offset: usize = decoder.offset();
        let payload = match decoder.read_bytes(payload_length) {
            Ok(payload) => payload,
            Err(error) => {
                return Err(truncated(error, command_index));
            },
        };
        match apply_command(
            builder,
            tag,
            payload,
            payload_offset,
            command_index,
            command_offset,
            Ghost(draft),
        ) {
            Ok(next) => {
                proof {
                    draft = next@;
                }
            },
            Err(error) => {
                return Err(error);
            },
        }
        command_index = command_index + 1;
    }
    Ok(Ghost(draft))
}

/// Reads the definition in a buffer.
pub fn decode_definition_buffer(registry: &DefinitionRegistry, input: &[u8]) -> (result: Result<
    DeviceDefinition,
    DefinitionRegistrationError,
>)
    requires
        registry.wf(),
    ensures
        match draft_in(*registry, input@) {
            Ok(draft) => {
                &&& result matches Ok(definition)
                &&& built_from(*registry, draft, definition)
                &&& registrable(*registry, definition)
            },
            Err(error) => result == Err::<DeviceDefinition, _>(error),
        },
{
    let length: usize = input.len();
    let mut decoder = Decoder::new(input, 0);
    let command_count: u32 = match decode_header(&mut decoder) {
        Ok(command_count) => command_count,
        Err(error) => {
            return Err(error);
        },
    };
    let mut builder = DeviceDefinitionBuilder::new(registry);
    match decode_commands(&mut builder, &mut decoder, command_count) {
        Ok(_) => {},
        Err(error) => {
            return Err(error);
        },
    }
    if !decoder.is_empty() {
        return Err(
            DefinitionRegistrationError::new(
                DefinitionRegistrationErrorKind::TrailingBytes,
                command_count,
                decoder.offset(),
            ),
        );
    }
    let end: usize = decoder.offset();
    let ghost built = builder;
    match builder.build_definition() {
        Ok(definition) => {
            proof {
                lemma_registrable(built, definition);
            }
            Ok(definition)
        },
        Err(error) => Err(map_builder_error(error, command_count, end)),
    }
}

/// Whether nothing but a lack of identifiers can keep a definition out of a registry.
pub open spec fn registrable(registry: DefinitionRegistry, definition: DeviceDefinition) -> bool {
    registry.refusal(definition) == if registry.spec_definitions().len() + 1 > u32::MAX {
        Some(RegisterDeviceError::DefinitionIdExhausted)
    } else {
        None
    }
}

/// What was built can be registered.
proof fn lemma_registrable(builder: DeviceDefinitionBuilder<'_>, definition: DeviceDefinition)
    requires
        builder.wf(),
        definition.spec_body() is Composite,
        definition.spec_terminals() == builder.spec_terminals(),
        definition.spec_body()->Composite_0.spec_node_count() == builder.spec_node_count(),
        definition.spec_body()->Composite_0.models() == builder.spec_elements(),
    ensures
        registrable(builder.spec_registry(), definition),
{
    let circuit = definition.spec_body()->Composite_0;
    let terminals = builder.spec_terminals();
    let numbered = Seq::new(terminals.len(), |i: int| (terminals[i] + 1) as u32);
    assert forall|i: int| 0 <= i < numbered.len() implies 1 <= #[trigger] numbered[i]
        <= builder.spec_node_count() by {
        assert(terminals[i] < builder.spec_node_count());
    }
    assert(numbered.no_duplicates()) by {
        assert forall|i: int, j: int|
            0 <= i < numbered.len() && 0 <= j < numbered.len() && i != j implies numbered[i]
            != numbered[j] by {
            assert(terminals[i] != terminals[j]);
            assert(terminals[i] < builder.spec_node_count());
            assert(terminals[j] < builder.spec_node_count());
        }
    }
    lemma_numbers_bounded(numbered, builder.spec_node_count() as nat);
    assert forall|e: int| 0 <= e < circuit.spec_elements().len() implies (
    #[trigger] circuit.spec_elements()[e]).spec_definition().value()
        <= builder.spec_registry().spec_definitions().len() by {
        assert(circuit.models()[e] == circuit.spec_elements()[e]@);
        assert(builder.spec_elements()[e].definition
            == circuit.spec_elements()[e].spec_definition().value());
    }
    lemma_all_known(circuit, builder.spec_registry().spec_definitions().len() as int, 0);
}

proof fn lemma_all_known(circuit: crate::circuit::Circuit, count: int, from: int)
    requires
        0 <= from,
        forall|e: int|
            0 <= e < circuit.spec_elements().len() ==> (
            #[trigger] circuit.spec_elements()[e]).spec_definition().value() <= count,
    ensures
        first_unknown(circuit, count, from) is None,
    decreases circuit.spec_elements().len() - from,
{
    if from < circuit.spec_elements().len() {
        lemma_all_known(circuit, count, from + 1);
    }
}

/// The kind that stands for an error of the registry.
pub open spec fn registry_failure(error: RegisterDeviceError) -> DefinitionRegistrationError {
    header_failure(
        match error {
            RegisterDeviceError::DefinitionIdExhausted => {
                DefinitionRegistrationErrorKind::DefinitionIdExhausted
            },
            _ => DefinitionRegistrationErrorKind::InvalidDefinition,
        },
        u32::MAX as int,
    )
}

fn map_registry_error(error: RegisterDeviceError) -> (result: DefinitionRegistrationError)
    ensures
        result == registry_failure(error),
{
    let kind = match error {
        RegisterDeviceError::DefinitionIdExhausted => {
            DefinitionRegistrationErrorKind::DefinitionIdExhausted
        },
        RegisterDeviceError::PrimitiveRegistrationForbidden { .. } => {
            DefinitionRegistrationErrorKind::InvalidDefinition
        },
        RegisterDeviceError::TerminalCountExceedsNodeCount { .. } => {
            DefinitionRegistrationErrorKind::InvalidDefinition
        },
        RegisterDeviceError::UnknownDefinition { .. } => {
            DefinitionRegistrationErrorKind::InvalidDefinition
        },
    };
    DefinitionRegistrationError::header(kind, u32::MAX as usize)
}

/// Registers a definition that was read from a buffer.
pub fn register_decoded_definition(
    registry: &mut DefinitionRegistry,
    definition: DeviceDefinition,
) -> (result: Result<DefinitionId, DefinitionRegistrationError>)
    requires
        old(registry).wf(),
        definition.wf(),
    ensures
        final(registry).wf(),
        match old(registry).refusal(definition) {
            Some(error) => {
                &&& result == Err::<DefinitionId, _>(registry_failure(error))
                &&& final(registry).spec_definitions() == old(registry).spec_definitions()
            },
            None => {
                &&& result matches Ok(id)
                &&& id.value() == old(registry).spec_definitions().len() + 1
                &&& final(registry).spec_definitions() == old(registry).spec_definitions().push(
                    definition,
                )
            },
        },
{
    match registry.register(definition) {
        Ok(id) => Ok(id),
        Err(error) => Err(map_registry_error(error)),
    }
}

/// What registering the definition in a buffer does: nothing where it is refused, and else one more
/// definition under the next identifier.
pub open spec fn registers(
    before: DefinitionRegistry,
    after: DefinitionRegistry,
    input: Seq<u8>,
    result: Result<DefinitionId, DefinitionRegistrationError>,
) -> bool {
    match draft_in(before, input) {
        Err(error) => {
            &&& result == Err::<DefinitionId, _>(error)
            &&& after.spec_definitions() == before.spec_definitions()
        },
        Ok(draft) => if before.spec_definitions().len() + 1 > u32::MAX {
            &&& result == Err::<DefinitionId, _>(
                registry_failure(RegisterDeviceError::DefinitionIdExhausted),
            )
            &&& after.spec_definitions() == before.spec_definitions()
        } else {
            &&& result matches Ok(id)
            &&& id.value() == before.spec_definitions().len() + 1
            &&& after.spec_definitions().len() == before.spec_definitions().len() + 1
            &&& after.spec_definitions().drop_last() == before.spec_definitions()
            &&& built_from(before, draft, after.spec_definitions().last())
        },
    }
}

/// Registers the definition in a buffer under the next identifier.
pub fn register_definition_buffer(registry: &mut DefinitionRegistry, input: &[u8]) -> (result:
    Result<DefinitionId, DefinitionRegistrationError>)
    requires
        old(registry).wf(),
    ensures
        final(registry).wf(),
        registers(*old(registry), *final(registry), input@, result),
{
    match decode_definition_buffer(registry, input) {
        Ok(definition) => {
            let ghost before = registry.spec_definitions();
            let result = register_decoded_definition(registry, definition);
            proof {
                assert(before.push(definition).drop_last() =~= before);
            }
            result
        },
        Err(error) => Err(error),
    }
}

/// A buffer that is refused leaves the registry as it was, and one that is accepted adds exactly one
/// definition behind those that were there: every identifier keeps its definition, and no
/// identifier is used up by a refusal.
pub proof fn law_registration_is_atomic(
    before: DefinitionRegistry,
    after: DefinitionRegistry,
    input: Seq<u8>,
    result: Result<DefinitionId, DefinitionRegistrationError>,
    id: u32,
)
    requires
        registers(before, after, input, result),
        before.knows(id),
    ensures
        after.knows(id),
        after.definition(id) == before.definition(id),
        forall|other: u32| #[trigger]
            after.knows(other) <==> before.knows(other) || (result is Ok && other
                == result->Ok_0.value()),
        result is Err ==> after.spec_definitions() == before.spec_definitions(),
{
    if result is Ok {
        assert(after.spec_definitions().drop_last()[id - 1] == after.spec_definitions()[id - 1]);
    }
}

/// Whether an error is located where in a command it was found, and not where the command starts.
pub open spec fn is_inside(kind: DefinitionRegistrationErrorKind) -> bool {
    ||| kind is TruncatedInput
    ||| kind is InvalidFlags
    ||| kind is InvalidCount
    ||| kind is InvalidDefinitionId
    ||| kind is UnknownValueKind
}

/// Whether an error is about a command that starts at `at`, and is located in it or at its start.
spec fn points_at(error: DefinitionRegistrationError, index: u32, at: int, end: int) -> bool {
    &&& error.spec_command_index() == index
    &&& at <= error.spec_byte_offset() <= end
    &&& is_inside(error.spec_kind()) || error.spec_byte_offset() == at
}

proof fn lemma_values_in(
    payload: Seq<u8>,
    base: int,
    command_index: u32,
    count: int,
    read: Seq<ValueRef>,
    at: int,
)
    requires
        0 <= base,
        0 <= at <= payload.len(),
        base + payload.len() <= u32::MAX,
    ensures
        values_in(payload, base, command_index, count, read, at) matches Err(error) ==> {
            &&& error.spec_command_index() == command_index
            &&& base <= error.spec_byte_offset() <= base + payload.len()
            &&& is_inside(error.spec_kind())
        },
    decreases count - read.len(),
{
    if read.len() < count && at + 1 <= payload.len() {
        if payload[at] == DEFINITION_VALUE_LITERAL && at + 9 <= payload.len() {
            lemma_values_in(
                payload,
                base,
                command_index,
                count,
                read.push(ValueRef::Literal(le_u64(payload, at + 1))),
                at + 9,
            );
        } else if payload[at] == DEFINITION_VALUE_PARAMETER && at + 5 <= payload.len() {
            lemma_values_in(
                payload,
                base,
                command_index,
                count,
                read.push(ValueRef::Parameter(ParameterId::of(le_u32(payload, at + 1)))),
                at + 5,
            );
        }
    }
}

proof fn lemma_command_on(
    registry: DefinitionRegistry,
    draft: Draft,
    tag: u16,
    payload: Seq<u8>,
    index: u32,
    at: int,
)
    requires
        0 <= at,
        at + 6 + payload.len() <= u32::MAX,
    ensures
        command_on(registry, draft, tag, payload, at + 6, index, at) matches Err(error)
            ==> points_at(error, index, at, at + 6 + payload.len()),
{
    reveal(command_on);
    if tag == DEFINITION_COMMAND_ADD_ELEMENT && payload.len() >= 8 {
        let values_at = 8 + 4 * le_u32(payload, 4);
        if values_at + 4 <= payload.len() {
            lemma_values_in(
                payload,
                at + 6,
                index,
                le_u32(payload, values_at) as int,
                Seq::empty(),
                values_at + 4,
            );
        }
    }
}

/// Commands that are good take up their bytes.
proof fn lemma_commands_good(
    registry: DefinitionRegistry,
    bytes: Seq<u8>,
    draft: Draft,
    from: int,
    count: int,
    at: int,
)
    requires
        0 <= from <= count,
        0 <= at <= bytes.len(),
        commands_in(registry, bytes, draft, from, count, at) is Ok,
    ensures
        at + 6 * (count - from) <= commands_in(registry, bytes, draft, from, count, at)->Ok_0.1
            <= bytes.len(),
    decreases count - from,
{
    if from < count {
        let length = le_u32(bytes, at + 2) as int;
        let next = command_on(
            registry,
            draft,
            le_u16(bytes, at),
            bytes.subrange(at + 6, at + 6 + length),
            at + 6,
            from as u32,
            at,
        );
        lemma_commands_good(registry, bytes, next->Ok_0, from + 1, count, at + 6 + length);
    }
}

/// The first command that is not good, and what precedes it.
proof fn lemma_first_bad(
    registry: DefinitionRegistry,
    bytes: Seq<u8>,
    draft: Draft,
    from: int,
    count: int,
    at: int,
) -> (bad: int)
    requires
        0 <= from < count <= u32::MAX,
        0 <= at <= bytes.len() < u32::MAX,
        commands_in(registry, bytes, draft, from, count, at) is Err,
    ensures
        from <= bad < count,
        commands_in(registry, bytes, draft, from, bad, at) is Ok,
        commands_in(registry, bytes, draft, from, bad + 1, at) == commands_in(
            registry,
            bytes,
            draft,
            from,
            count,
            at,
        ),
        points_at(
            commands_in(registry, bytes, draft, from, count, at)->Err_0,
            bad as u32,
            commands_in(registry, bytes, draft, from, bad, at)->Ok_0.1,
            bytes.len() as int,
        ),
    decreases count - from,
{
    let index = from as u32;
    let length = le_u32(bytes, at + 2) as int;
    if at + 6 > bytes.len() || at + 6 + length > bytes.len() {
        return from;
    }
    let payload = bytes.subrange(at + 6, at + 6 + length);
    let next = command_on(registry, draft, le_u16(bytes, at), payload, at + 6, index, at);
    if next is Err {
        lemma_command_on(registry, draft, le_u16(bytes, at), payload, index, at);
        from
    } else {
        lemma_first_bad(registry, bytes, next->Ok_0, from + 1, count, at + 6 + length)
    }
}

/// Where an error of a buffer points: to no command exactly where the header is at fault or the
/// registry refuses what was read; else to the first command that is not good, or behind the
/// commands where all of them are. The place is where that command starts, but for errors that are
/// found while the command is read, which are located in it.
pub proof fn law_errors_point_at_the_first_fault(
    before: DefinitionRegistry,
    after: DefinitionRegistry,
    input: Seq<u8>,
    result: Result<DefinitionId, DefinitionRegistrationError>,
)
    requires
        registers(before, after, input, result),
        result is Err,
        input.len() < u32::MAX,
    ensures
        ({
            let error = result->Err_0;
            let index = error.spec_command_index() as int;
            let count = le_u32(input, 12) as int;
            let good = commands_in(before, input, empty_draft(), 0, index, 16);
            &&& index == u32::MAX <==> header_refusal(input) is Some || draft_in(
                before,
                input,
            ) is Ok
            &&& index != u32::MAX ==> {
                &&& index <= count
                &&& good is Ok
                &&& good->Ok_0.1 <= error.spec_byte_offset() <= input.len()
                &&& is_inside(error.spec_kind()) || error.spec_byte_offset() == good->Ok_0.1
                &&& if index < count {
                    commands_in(before, input, empty_draft(), 0, index + 1, 16) == Err::<
                        (Draft, int),
                        _,
                    >(error)
                } else if good->Ok_0.1 != input.len() {
                    error.spec_kind() is TrailingBytes
                } else {
                    &&& build_refusal(before, good->Ok_0.0) matches Some(refusal)
                    &&& error.spec_kind() == kind_of(refusal)
                }
            }
        }),
{
    let count = le_u32(input, 12) as int;
    if header_refusal(input) is None {
        if commands_in(before, input, empty_draft(), 0, count, 16) is Err {
            let bad = lemma_first_bad(before, input, empty_draft(), 0, count, 16);
        } else {
            lemma_commands_good(before, input, empty_draft(), 0, count, 16);
        }
    }
}

} // verus!
