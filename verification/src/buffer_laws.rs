//! Which buffers are read, and what is wrong with the others.

use crate::circuit::{ElementModel, ValueRef};
use crate::decoder::{le_u16, le_u32, le_u64};
use crate::ids::ParameterId;
use crate::protocol::{
    command_on, commands_in, constraints_in, draft_in, element_in, empty_draft, header_refusal,
    registry_failure, values_in, DefinitionRegistrationError, DefinitionRegistrationErrorKind, Draft,
};
use crate::protocol_laws::{
    added, all_added, eight_bytes, four_bytes, law_only_written_constraints_are_read,
    lemma_eight_back, lemma_four_back, lemma_joined, lemma_lengths, lemma_two_back, stands_at,
    two_bytes, written_buffer, written_command, written_commands, written_constraints,
    written_element, written_numbers, written_payload, written_value, written_values, Command,
};
use crate::registry::{DefinitionRegistry, RegisterDeviceError};
use vstd::prelude::*;

verus! {

proof fn lemma_numbers_back(payload: Seq<u8>, at: int, count: int)
    requires
        0 <= at,
        0 <= count,
        at + 4 * count <= payload.len(),
    ensures
        ({
            let numbers = Seq::new(count as nat, |i: int| le_u32(payload, at + 4 * i));
            &&& written_numbers(numbers).len() == 4 * count
            &&& stands_at(payload, at, written_numbers(numbers))
        }),
    decreases count,
{
    let numbers = Seq::new(count as nat, |i: int| le_u32(payload, at + 4 * i));
    lemma_lengths();
    if count > 0 {
        lemma_numbers_back(payload, at + 4, count - 1);
        lemma_four_back(payload, at);
        let rest = Seq::new((count - 1) as nat, |i: int| le_u32(payload, at + 4 + 4 * i));
        assert(numbers.drop_first() =~= rest) by {
            assert forall|i: int| 0 <= i < count - 1 implies numbers.drop_first()[i] == rest[i] by {
                assert(at + 4 * (i + 1) == at + 4 + 4 * i);
            }
        }
        lemma_joined(payload, at, four_bytes(numbers[0] as int), written_numbers(rest));
    }
}

proof fn lemma_values_back(
    payload: Seq<u8>,
    base: int,
    command_index: u32,
    count: int,
    read: Seq<ValueRef>,
    at: int,
)
    requires
        0 <= at <= payload.len(),
        read.len() <= count,
    ensures
        values_in(payload, base, command_index, count, read, at) matches Ok((values, end)) ==> {
            &&& values.len() == count
            &&& values.take(read.len() as int) == read
            &&& stands_at(payload, at, written_values(values.skip(read.len() as int)))
            &&& end == at + written_values(values.skip(read.len() as int)).len()
        },
    decreases count - read.len(),
{
    lemma_lengths();
    if let Ok((values, end)) = values_in(payload, base, command_index, count, read, at) {
        if read.len() >= count {
            assert(values.take(read.len() as int) =~= read);
            assert(values.skip(read.len() as int) =~= Seq::<ValueRef>::empty());
        } else {
            let (value, length) = if payload[at] == 0 {
                (ValueRef::Literal(le_u64(payload, at + 1)), 9int)
            } else {
                (ValueRef::Parameter(ParameterId::of(le_u32(payload, at + 1))), 5int)
            };
            let more = read.push(value);
            let n = read.len() as int;
            if payload[at] == 0 {
                lemma_eight_back(payload, at + 1);
            } else {
                lemma_four_back(payload, at + 1);
                ParameterId::of(le_u32(payload, at + 1)).lemma_of();
            }
            assert(written_value(value).len() == length);
            lemma_values_back(payload, base, command_index, count, more, at + length);
            assert(values.take(n + 1) == more);
            assert(values[n] == values.take(n + 1)[n]);
            assert(values.take(n) =~= read) by {
                assert forall|i: int| 0 <= i < n implies values[i] == read[i] by {
                    assert(values[i] == values.take(n + 1)[i]);
                    assert(more[i] == read[i]);
                }
            }
            let rest = values.skip(n);
            assert(rest[0] == value);
            assert(rest.drop_first() =~= values.skip(n + 1));
            assert(stands_at(payload, at, seq![payload[at]]));
            if payload[at] == 0 {
                lemma_joined(
                    payload,
                    at,
                    seq![0u8],
                    eight_bytes(le_u64(payload, at + 1) as int),
                );
            } else {
                lemma_joined(payload, at, seq![1u8], four_bytes(le_u32(payload, at + 1) as int));
            }
            lemma_joined(payload, at, written_value(value), written_values(values.skip(n + 1)));
        }
    }
}

/// Only what writing an element gives is read as one: the bytes that were read are those that would
/// be written. So every byte has its meaning, and none is skipped.
pub proof fn law_only_written_elements_are_read(
    payload: Seq<u8>,
    base: int,
    command_index: u32,
)
    ensures
        element_in(payload, base, command_index) matches Ok((element, used)) ==> {
            &&& element.definition != 0
            &&& used == written_element(element).len()
            &&& stands_at(payload, 0, written_element(element))
        },
{
    if let Ok((element, used)) = element_in(payload, base, command_index) {
        lemma_lengths();
        let count = le_u32(payload, 4) as int;
        let values_at = 8 + 4 * count;
        let value_count = le_u32(payload, values_at) as int;
        lemma_four_back(payload, 0);
        lemma_four_back(payload, 4);
        lemma_numbers_back(payload, 8, count);
        lemma_four_back(payload, values_at);
        lemma_values_back(
            payload,
            base,
            command_index,
            value_count,
            Seq::empty(),
            values_at + 4,
        );
        assert(element.parameters.skip(0) =~= element.parameters);
        let values = written_values(element.parameters);
        let numbers = written_numbers(element.terminals);
        lemma_joined(payload, values_at, four_bytes(value_count), values);
        lemma_joined(payload, 8, numbers, four_bytes(value_count) + values);
        lemma_joined(payload, 4, four_bytes(count), numbers + (four_bytes(value_count) + values));
        lemma_joined(
            payload,
            0,
            four_bytes(element.definition as int),
            four_bytes(count) + (numbers + (four_bytes(value_count) + values)),
        );
    }
}

/// The command that the bytes of one stand for.
proof fn lemma_command_back(
    registry: DefinitionRegistry,
    draft: Draft,
    tag: u16,
    payload: Seq<u8>,
    base: int,
    index: u32,
    at: int,
) -> (command: Command)
    requires
        command_on(registry, draft, tag, payload, base, index, at) is Ok,
    ensures
        payload == written_payload(command),
        tag == match command {
            Command::Terminal => 1u16,
            Command::Node => 2u16,
            Command::Parameter(_) => 3u16,
            Command::Element(_) => 4u16,
        },
        command_on(registry, draft, tag, payload, base, index, at)->Ok_0 == added(draft, command),
{
    reveal(command_on);
    if tag == 1 {
        assert(payload =~= Seq::empty());
        Command::Terminal
    } else if tag == 2 {
        assert(payload =~= Seq::empty());
        Command::Node
    } else if tag == 3 {
        law_only_written_constraints_are_read(payload, base, index);
        let constraints = constraints_in(payload, base, index)->Ok_0.0;
        lemma_whole(payload, written_constraints(constraints));
        Command::Parameter(constraints)
    } else {
        law_only_written_elements_are_read(payload, base, index);
        let element = element_in(payload, base, index)->Ok_0.0;
        lemma_whole(payload, written_element(element));
        Command::Element(element)
    }
}

proof fn lemma_whole(bytes: Seq<u8>, part: Seq<u8>)
    requires
        stands_at(bytes, 0, part),
        bytes.len() == part.len(),
    ensures
        bytes == part,
{
    assert forall|i: int| 0 <= i < part.len() implies bytes[i] == part[i] by {
        assert(bytes[0 + i] == part[i]);
    }
    assert(bytes =~= part);
}

proof fn lemma_commands_back(
    registry: DefinitionRegistry,
    bytes: Seq<u8>,
    draft: Draft,
    index: int,
    count: int,
    at: int,
) -> (commands: Seq<Command>)
    requires
        0 <= index <= count,
        0 <= at <= bytes.len(),
        commands_in(registry, bytes, draft, index, count, at) is Ok,
    ensures
        commands.len() == count - index,
        stands_at(bytes, at, written_commands(commands)),
        commands_in(registry, bytes, draft, index, count, at)->Ok_0 == (
            all_added(draft, commands),
            at + written_commands(commands).len(),
        ),
    decreases count - index,
{
    lemma_lengths();
    if index >= count {
        Seq::empty()
    } else {
        let length = le_u32(bytes, at + 2) as int;
        let payload = bytes.subrange(at + 6, at + 6 + length);
        let tag = le_u16(bytes, at);
        let command = lemma_command_back(
            registry,
            draft,
            tag,
            payload,
            at + 6,
            index as u32,
            at,
        );
        let next = added(draft, command);
        let rest = lemma_commands_back(registry, bytes, next, index + 1, count, at + 6 + length);
        let commands = seq![command] + rest;
        assert(commands[0] == command);
        assert(commands.drop_first() =~= rest);
        lemma_two_back(bytes, at);
        lemma_four_back(bytes, at + 2);
        assert(stands_at(bytes, at + 6, payload)) by {
            assert forall|i: int| 0 <= i < payload.len() implies bytes[at + 6 + i]
                == #[trigger] payload[i] by {}
        }
        lemma_joined(bytes, at + 2, four_bytes(length), payload);
        lemma_joined(bytes, at, two_bytes(tag as int), four_bytes(length) + payload);
        assert(written_command(command) == two_bytes(tag as int) + (four_bytes(length) + payload));
        lemma_joined(bytes, at, written_command(command), written_commands(rest));
        commands
    }
}

/// Only what writing commands gives is read as a definition: every buffer that is accepted is one
/// that was written, with the right letters, version and counts, nothing where nothing may be, and
/// no byte left over. It describes what its commands add.
pub proof fn law_only_written_buffers_are_read(registry: DefinitionRegistry, bytes: Seq<u8>)
    requires
        draft_in(registry, bytes) is Ok,
    ensures
        exists|commands: Seq<Command>|
            {
                &&& bytes == #[trigger] written_buffer(commands)
                &&& draft_in(registry, bytes)->Ok_0 == all_added(empty_draft(), commands)
            },
{
    lemma_lengths();
    let count = le_u32(bytes, 12) as int;
    let commands = lemma_commands_back(registry, bytes, empty_draft(), 0, count, 16);
    let body = written_commands(commands);
    let magic = seq![0x48u8, 0x59, 0x44, 0x46];
    assert(stands_at(bytes, 0, magic)) by {
        assert(crate::protocol::DEFINITION_BUFFER_MAGIC@ =~= magic);
        assert forall|i: int| 0 <= i < magic.len() implies bytes[0 + i] == #[trigger] magic[i] by {
            assert(bytes.subrange(0, 4)[i] == magic[i]);
        }
    }
    lemma_two_back(bytes, 4);
    lemma_two_back(bytes, 6);
    lemma_four_back(bytes, 8);
    lemma_four_back(bytes, 12);
    lemma_joined(bytes, 12, four_bytes(count), body);
    lemma_joined(bytes, 8, four_bytes(0), four_bytes(count) + body);
    lemma_joined(bytes, 6, two_bytes(0), four_bytes(0) + (four_bytes(count) + body));
    lemma_joined(
        bytes,
        4,
        two_bytes(1),
        two_bytes(0) + (four_bytes(0) + (four_bytes(count) + body)),
    );
    lemma_joined(
        bytes,
        0,
        magic,
        two_bytes(1) + (two_bytes(0) + (four_bytes(0) + (four_bytes(count) + body))),
    );
    lemma_whole(bytes, written_buffer(commands));
}

/// What is wrong with the header of a buffer: the first of these that is, at its place. Letters
/// other than `HYDF`, a version other than one, and numbers other than zero where zeros have to be;
/// or, at its end, that the buffer is too short to tell.
pub proof fn law_the_first_fault_of_a_header_is_told(bytes: Seq<u8>)
    ensures
        ({
            let length = bytes.len() as int;
            let letters = length >= 4 && bytes[0] == 0x48 && bytes[1] == 0x59 && bytes[2] == 0x44
                && bytes[3] == 0x46;
            let version = letters && length >= 6 && bytes[4] == 1 && bytes[5] == 0;
            let flags = version && length >= 8 && bytes[6] == 0 && bytes[7] == 0;
            let reserved = flags && length >= 12 && bytes[8] == 0 && bytes[9] == 0 && bytes[10]
                == 0 && bytes[11] == 0;
            let good = reserved && length >= 16;
            let short = length < 4 || (letters && length < 6) || (version && length < 8) || (flags
                && length < 12) || (reserved && length < 16);
            match header_refusal(bytes) {
                None => good,
                Some(error) => {
                    &&& !good
                    &&& error.spec_command_index() == 0xFFFF_FFFF
                    &&& short <==> error.spec_kind() is TruncatedInput
                    &&& short && length <= 0xFFFF_FFFF ==> error.spec_byte_offset() == length
                    &&& !short ==> if !letters {
                        error.spec_kind() is InvalidMagic && error.spec_byte_offset() == 0
                    } else if !version {
                        error.spec_kind() is UnsupportedVersion && error.spec_byte_offset() == 4
                    } else if !flags {
                        error.spec_kind() is InvalidFlags && error.spec_byte_offset() == 6
                    } else {
                        error.spec_kind() is InvalidReserved && error.spec_byte_offset() == 8
                    }
                },
            }
        }),
{
    let magic = seq![0x48u8, 0x59, 0x44, 0x46];
    assert(crate::protocol::DEFINITION_BUFFER_MAGIC@ =~= magic);
    if bytes.len() >= 4 {
        let start = bytes.subrange(0, 4);
        assert(start[0] == bytes[0] && start[1] == bytes[1] && start[2] == bytes[2] && start[3]
            == bytes[3]);
        if start == magic {
            assert(magic[0] == 0x48 && magic[1] == 0x59 && magic[2] == 0x44 && magic[3] == 0x46);
        }
        if bytes[0] == 0x48 && bytes[1] == 0x59 && bytes[2] == 0x44 && bytes[3] == 0x46 {
            assert(start =~= magic);
        }
    }
}

/// A command is refused for its tag if that is none of the four, and for its length if it is to add
/// a terminal or a node and has a payload, or if something follows what it adds. Both are located
/// where the command starts.
pub proof fn law_commands_have_their_tag_and_length(
    registry: DefinitionRegistry,
    draft: Draft,
    tag: u16,
    payload: Seq<u8>,
    base: int,
    index: u32,
    at: int,
)
    requires
        0 <= at <= u32::MAX,
    ensures
        ({
            let result = command_on(registry, draft, tag, payload, base, index, at);
            let length = DefinitionRegistrationErrorKind::InvalidCommandLength;
            let located = |kind: DefinitionRegistrationErrorKind| Err::<
                Draft,
                DefinitionRegistrationError,
            >(DefinitionRegistrationError::of(kind, index, at));
            &&& !(1 <= tag <= 4) ==> result == located(
                DefinitionRegistrationErrorKind::UnknownCommand,
            )
            &&& (tag == 1 || tag == 2) && payload.len() > 0 ==> result == located(length)
            &&& tag == 3 && constraints_in(payload, base, index) is Ok && constraints_in(
                payload,
                base,
                index,
            )->Ok_0.1 < payload.len() ==> result == located(length)
            &&& tag == 4 && element_in(payload, base, index) is Ok && element_in(
                payload,
                base,
                index,
            )->Ok_0.1 < payload.len() ==> result == located(length)
        }),
{
    reveal(command_on);
}

/// What is wrong with an element that cannot be read, by its first fault: a definition of zero, at
/// its start; a count of more nodes, or of more values, than there is room for, at the count; a
/// value that is neither a number nor a parameter, at the value. Where it ends too early, that is
/// told at its end.
pub proof fn law_broken_elements_are_told(payload: Seq<u8>, base: int, index: u32)
    requires
        0 <= base,
        base + payload.len() <= u32::MAX,
    ensures
        ({
            let result = element_in(payload, base, index);
            let length = payload.len() as int;
            let nodes = le_u32(payload, 4) as int;
            let counted = 8 + 4 * nodes;
            let values = le_u32(payload, counted) as int;
            &&& result is Err ==> result->Err_0.spec_command_index() == index
            &&& length < 4 ==> told(result, length, base) && result->Err_0.spec_kind()
                is TruncatedInput
            &&& length >= 4 && le_u32(payload, 0) == 0 ==> told(result, 0, base)
                && result->Err_0.spec_kind() is InvalidDefinitionId
            &&& length >= 4 && le_u32(payload, 0) != 0 ==> {
                &&& length < 8 ==> told(result, length, base) && result->Err_0.spec_kind()
                    is TruncatedInput
                &&& length >= 8 && counted > length ==> told(result, 4, base)
                    && result->Err_0.spec_kind() is InvalidCount
                &&& length >= 8 && counted <= length < counted + 4 ==> told(result, length, base)
                    && result->Err_0.spec_kind() is TruncatedInput
                &&& length >= counted + 4 && counted + 4 + 5 * values > length ==> told(
                    result,
                    counted,
                    base,
                ) && result->Err_0.spec_kind() is InvalidCount
                &&& length >= counted + 4 && counted + 4 + 5 * values <= length && values > 0
                    && payload[counted + 4] > 1 ==> told(result, counted + 4, base)
                    && result->Err_0.spec_kind() is UnknownValueKind
            }
        }),
{
    let length = payload.len() as int;
    let nodes = le_u32(payload, 4) as int;
    let counted = 8 + 4 * nodes;
    let values = le_u32(payload, counted) as int;
    if element_in(payload, base, index) is Err && length >= counted + 4 {
        lemma_value_errors(payload, base, index, values, Seq::empty(), counted + 4);
    }
}

/// Whether reading failed at a place of a payload that starts at another.
pub open spec fn told<T>(
    result: Result<T, DefinitionRegistrationError>,
    place: int,
    base: int,
) -> bool {
    result is Err && result->Err_0.spec_byte_offset() == base + place
}

proof fn lemma_value_errors(
    payload: Seq<u8>,
    base: int,
    index: u32,
    count: int,
    read: Seq<ValueRef>,
    at: int,
)
    ensures
        values_in(payload, base, index, count, read, at) matches Err(error)
            ==> error.spec_command_index() == index,
    decreases count - read.len(),
{
    if read.len() < count && at + 1 <= payload.len() {
        if payload[at] == 0 {
            lemma_value_errors(
                payload,
                base,
                index,
                count,
                read.push(ValueRef::Literal(le_u64(payload, at + 1))),
                at + 9,
            );
        } else if payload[at] == 1 {
            lemma_value_errors(
                payload,
                base,
                index,
                count,
                read.push(ValueRef::Parameter(ParameterId::of(le_u32(payload, at + 1)))),
                at + 5,
            );
        }
    }
}

/// What is wrong with constraints that cannot be read: flags that do not stand together, at their
/// start, or that they end too early, at their end.
pub proof fn law_broken_constraints_are_told(payload: Seq<u8>, base: int, index: u32)
    requires
        0 <= base,
        base + payload.len() <= u32::MAX,
    ensures
        ({
            let result = constraints_in(payload, base, index);
            &&& result is Err ==> result->Err_0.spec_command_index() == index
            &&& payload.len() < 2 ==> told(result, payload.len() as int, base)
                && result->Err_0.spec_kind() is TruncatedInput
            &&& payload.len() >= 2 && payload[1] >= 4 ==> told(result, 0, base)
                && result->Err_0.spec_kind() is InvalidFlags
            &&& result is Err && result->Err_0.spec_kind() is InvalidFlags ==> told(result, 0, base)
            &&& result is Err && !(result->Err_0.spec_kind() is InvalidFlags) ==> told(
                result,
                payload.len() as int,
                base,
            ) && result->Err_0.spec_kind() is TruncatedInput
        }),
{
}

/// Where the registry refuses a definition that was read, no place is told: the identifiers are used
/// up, or the definition is invalid.
pub proof fn law_refusals_of_the_registry_have_no_place(error: RegisterDeviceError)
    ensures
        registry_failure(error).spec_command_index() == 0xFFFF_FFFF,
        registry_failure(error).spec_byte_offset() == 0xFFFF_FFFF,
        registry_failure(error).spec_kind() is DefinitionIdExhausted <==> error
            is DefinitionIdExhausted,
        registry_failure(error).spec_kind() is InvalidDefinition <==> !(error
            is DefinitionIdExhausted),
{
}

} // verus!
