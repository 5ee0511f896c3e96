//! Reading a definition buffer undoes writing it.
//!
//! How buffers are written is stated here on its own, from the numbers of the format.

use crate::builder::element_refusal;
use crate::circuit::{ElementModel, ValueRef};
use crate::decoder::{le_u16, le_u32, le_u64};
use crate::parameter::{Bound, ParameterConstraints};
use crate::protocol::{
    build_refusal, command_on, commands_in, constraints_in, draft_in, element_in, empty_draft,
    flagged, header_refusal, values_in, Draft, DEFINITION_BUFFER_MAGIC,
};
use crate::registry::DefinitionRegistry;
use vstd::prelude::*;

verus! {

/// A number as two bytes, the low byte first.
#[verifier::opaque]
pub open spec fn two_bytes(number: int) -> Seq<u8> {
    seq![(number % 256) as u8, (number / 256 % 256) as u8]
}

/// A number as four bytes, the low byte first.
#[verifier::opaque]
pub open spec fn four_bytes(number: int) -> Seq<u8> {
    two_bytes(number % 65536) + two_bytes(number / 65536)
}

/// A number as eight bytes, the low byte first.
#[verifier::opaque]
pub open spec fn eight_bytes(number: int) -> Seq<u8> {
    four_bytes(number % 4294967296) + four_bytes(number / 4294967296)
}

pub(crate) proof fn lemma_lengths()
    ensures
        forall|number: int| (#[trigger] two_bytes(number)).len() == 2,
        forall|number: int| (#[trigger] four_bytes(number)).len() == 4,
        forall|number: int| (#[trigger] eight_bytes(number)).len() == 8,
{
    reveal(two_bytes);
    reveal(four_bytes);
    reveal(eight_bytes);
}

/// Whether some bytes stand at a place.
pub open spec fn stands_at(bytes: Seq<u8>, at: int, part: Seq<u8>) -> bool {
    &&& 0 <= at
    &&& at + part.len() <= bytes.len()
    &&& forall|i: int| 0 <= i < part.len() ==> bytes[at + i] == #[trigger] part[i]
}

/// Numbers are read as they are written.
pub proof fn law_numbers_are_read_as_written(bytes: Seq<u8>, at: int, number: int)
    ensures
        0 <= number < 65536 && stands_at(bytes, at, two_bytes(number)) ==> le_u16(bytes, at)
            == number,
        0 <= number < 4294967296 && stands_at(bytes, at, four_bytes(number)) ==> le_u32(bytes, at)
            == number,
        0 <= number < 18446744073709551616 && stands_at(bytes, at, eight_bytes(number)) ==> le_u64(
            bytes,
            at,
        ) == number,
{
    if stands_at(bytes, at, two_bytes(number)) {
        lemma_two(bytes, at, number);
    }
    if stands_at(bytes, at, four_bytes(number)) {
        lemma_four(bytes, at, number);
    }
    if stands_at(bytes, at, eight_bytes(number)) {
        lemma_eight(bytes, at, number);
    }
}

proof fn lemma_two(bytes: Seq<u8>, at: int, number: int)
    requires
        stands_at(bytes, at, two_bytes(number)),
    ensures
        0 <= number < 65536 ==> le_u16(bytes, at) == number,
{
    reveal(two_bytes);
    let part = two_bytes(number);
    assert(bytes[at + 0] == part[0]);
    assert(bytes[at + 1] == part[1]);
}

proof fn lemma_parts(bytes: Seq<u8>, at: int, a: Seq<u8>, b: Seq<u8>)
    requires
        stands_at(bytes, at, a + b),
    ensures
        stands_at(bytes, at, a),
        stands_at(bytes, at + a.len(), b),
{
    assert forall|i: int| 0 <= i < a.len() implies bytes[at + i] == #[trigger] a[i] by {
        assert((a + b)[i] == a[i]);
    }
    assert forall|i: int| 0 <= i < b.len() implies bytes[at + a.len() + i] == #[trigger] b[i] by {
        assert((a + b)[a.len() + i] == b[i]);
    }
}

proof fn lemma_four(bytes: Seq<u8>, at: int, number: int)
    requires
        stands_at(bytes, at, four_bytes(number)),
    ensures
        0 <= number < 4294967296 ==> le_u32(bytes, at) == number,
{
    reveal(four_bytes);
    lemma_lengths();
    lemma_parts(bytes, at, two_bytes(number % 65536), two_bytes(number / 65536));
    lemma_two(bytes, at, number % 65536);
    lemma_two(bytes, at + 2, number / 65536);
}

proof fn lemma_eight(bytes: Seq<u8>, at: int, number: int)
    requires
        stands_at(bytes, at, eight_bytes(number)),
    ensures
        0 <= number < 18446744073709551616 ==> le_u64(bytes, at) == number,
{
    reveal(eight_bytes);
    lemma_lengths();
    lemma_parts(bytes, at, four_bytes(number % 4294967296), four_bytes(number / 4294967296));
    lemma_four(bytes, at, number % 4294967296);
    lemma_four(bytes, at + 4, number / 4294967296);
}

/// The flags of a bound: one that it is there, and one that it is inclusive.
pub open spec fn bound_flags(bound: Option<Bound>, present: int, inclusive: int) -> int {
    match bound {
        None => 0,
        Some(b) => present + if b.inclusive {
            inclusive
        } else {
            0
        },
    }
}

/// The flags of constraints: one and two for a lower bound that is there and inclusive, four and
/// eight for an upper one, sixteen where zero is excluded, thirty-two where the reciprocal is
/// constrained, and four more for the bounds of that.
pub open spec fn constraint_flags(constraints: ParameterConstraints) -> int {
    bound_flags(constraints.lower, 1, 2) + bound_flags(constraints.upper, 4, 8) + (
    if constraints.non_zero {
        16int
    } else {
        0
    }) + match constraints.reciprocal_range {
        None => 0,
        Some((lower, upper)) => 32 + bound_flags(lower, 64, 128) + bound_flags(upper, 256, 512),
    }
}

/// A bound, where there is one.
pub open spec fn written_bound(bound: Option<Bound>) -> Seq<u8> {
    match bound {
        None => Seq::empty(),
        Some(b) => eight_bytes(b.value as int),
    }
}

/// The bounds of a range of reciprocals, where there is one.
pub open spec fn written_range(range: Option<(Option<Bound>, Option<Bound>)>) -> Seq<u8> {
    match range {
        None => Seq::empty(),
        Some((lower, upper)) => written_bound(lower) + written_bound(upper),
    }
}

/// Constraints: the flags, and then the bounds in order.
pub open spec fn written_constraints(constraints: ParameterConstraints) -> Seq<u8> {
    two_bytes(constraint_flags(constraints)) + (written_bound(constraints.lower) + (written_bound(
        constraints.upper,
    ) + written_range(constraints.reciprocal_range)))
}

proof fn lemma_flags(constraints: ParameterConstraints)
    ensures
        0 <= constraint_flags(constraints) < 1024,
        ({
            let flags = constraint_flags(constraints) as u16;
            let (lower, upper) = match constraints.reciprocal_range {
                None => (None, None),
                Some(range) => range,
            };
            &&& flagged(flags, 1) == (constraints.lower is Some)
            &&& flagged(flags, 2) == (constraints.lower matches Some(b) && b.inclusive)
            &&& flagged(flags, 4) == (constraints.upper is Some)
            &&& flagged(flags, 8) == (constraints.upper matches Some(b) && b.inclusive)
            &&& flagged(flags, 16) == constraints.non_zero
            &&& flagged(flags, 32) == (constraints.reciprocal_range is Some)
            &&& flagged(flags, 64) == (lower is Some)
            &&& flagged(flags, 128) == (lower matches Some(b) && b.inclusive)
            &&& flagged(flags, 256) == (upper is Some)
            &&& flagged(flags, 512) == (upper matches Some(b) && b.inclusive)
        }),
{
    let (lower, upper) = match constraints.reciprocal_range {
        None => (None, None),
        Some(range) => range,
    };
    lemma_sum(
        constraints.lower is Some,
        constraints.lower matches Some(b) && b.inclusive,
        constraints.upper is Some,
        constraints.upper matches Some(b) && b.inclusive,
        constraints.non_zero,
        constraints.reciprocal_range is Some,
        lower is Some,
        lower matches Some(b) && b.inclusive,
        upper is Some,
        upper matches Some(b) && b.inclusive,
        constraint_flags(constraints),
    );
}

spec fn one_if(condition: bool) -> int {
    if condition {
        1
    } else {
        0
    }
}

/// The bits of a sum of powers of two.
proof fn lemma_sum(
    b0: bool,
    b1: bool,
    b2: bool,
    b3: bool,
    b4: bool,
    b5: bool,
    b6: bool,
    b7: bool,
    b8: bool,
    b9: bool,
    n: int,
)
    requires
        n == one_if(b0) + 2 * one_if(b1) + 4 * one_if(b2) + 8 * one_if(b3) + 16 * one_if(b4) + 32
            * one_if(b5) + 64 * one_if(b6) + 128 * one_if(b7) + 256 * one_if(b8) + 512 * one_if(b9),
    ensures
        0 <= n < 1024,
        flagged(n as u16, 1) == b0,
        flagged(n as u16, 2) == b1,
        flagged(n as u16, 4) == b2,
        flagged(n as u16, 8) == b3,
        flagged(n as u16, 16) == b4,
        flagged(n as u16, 32) == b5,
        flagged(n as u16, 64) == b6,
        flagged(n as u16, 128) == b7,
        flagged(n as u16, 256) == b8,
        flagged(n as u16, 512) == b9,
{
    let n9 = one_if(b9);
    let n8 = one_if(b8) + 2 * n9;
    let n7 = one_if(b7) + 2 * n8;
    let n6 = one_if(b6) + 2 * n7;
    let n5 = one_if(b5) + 2 * n6;
    let n4 = one_if(b4) + 2 * n5;
    let n3 = one_if(b3) + 2 * n4;
    let n2 = one_if(b2) + 2 * n3;
    let n1 = one_if(b1) + 2 * n2;
    assert(n == one_if(b0) + 2 * n1);
    assert(n / 1 == n);
    assert(n / 2 == n1);
    assert(n / 4 == n2);
    assert(n / 8 == n3);
    assert(n / 16 == n4);
    assert(n / 32 == n5);
    assert(n / 64 == n6);
    assert(n / 128 == n7);
    assert(n / 256 == n8);
    assert(n / 512 == n9);
}

/// Reading constraints undoes writing them: each bound is there or not, inclusive or not, and has
/// its value, whatever comes after them.
pub proof fn law_constraints_are_read_as_written(
    constraints: ParameterConstraints,
    rest: Seq<u8>,
    base: int,
    command_index: u32,
)
    ensures
        constraints_in(written_constraints(constraints) + rest, base, command_index) == Ok::<
            (ParameterConstraints, int),
            crate::protocol::DefinitionRegistrationError,
        >((constraints, written_constraints(constraints).len() as int)),
{
    let written = written_constraints(constraints);
    let payload = written + rest;
    let flags = two_bytes(constraint_flags(constraints));
    let lower = written_bound(constraints.lower);
    let upper = written_bound(constraints.upper);
    let range = written_range(constraints.reciprocal_range);
    lemma_lengths();
    lemma_flags(constraints);
    assert(stands_at(payload, 0, written));
    lemma_parts(payload, 0, flags, lower + (upper + range));
    lemma_parts(payload, 2, lower, upper + range);
    lemma_parts(payload, 2 + lower.len() as int, upper, range);
    lemma_two(payload, 0, constraint_flags(constraints));
    if let Some(b) = constraints.lower {
        lemma_eight(payload, 2, b.value as int);
    }
    if let Some(b) = constraints.upper {
        lemma_eight(payload, 2 + lower.len() as int, b.value as int);
    }
    if let Some((low, high)) = constraints.reciprocal_range {
        let at = 2 + lower.len() as int + upper.len();
        lemma_parts(payload, at, written_bound(low), written_bound(high));
        if let Some(b) = low {
            lemma_eight(payload, at, b.value as int);
        }
        if let Some(b) = high {
            lemma_eight(payload, at + written_bound(low).len() as int, b.value as int);
        }
    }
}

pub(crate) proof fn lemma_two_back(bytes: Seq<u8>, at: int)
    requires
        0 <= at,
        at + 2 <= bytes.len(),
    ensures
        stands_at(bytes, at, two_bytes(le_u16(bytes, at) as int)),
{
    reveal(two_bytes);
    let part = two_bytes(le_u16(bytes, at) as int);
    assert forall|i: int| 0 <= i < part.len() implies bytes[at + i] == #[trigger] part[i] by {
        assert(i == 0 || i == 1);
    }
}

pub(crate) proof fn lemma_joined(bytes: Seq<u8>, at: int, a: Seq<u8>, b: Seq<u8>)
    requires
        stands_at(bytes, at, a),
        stands_at(bytes, at + a.len(), b),
    ensures
        stands_at(bytes, at, a + b),
{
    assert forall|i: int| 0 <= i < (a + b).len() implies bytes[at + i] == #[trigger] (a + b)[i] by {
        if i < a.len() {
            assert((a + b)[i] == a[i]);
        } else {
            assert((a + b)[i] == b[i - a.len()]);
        }
    }
}

pub(crate) proof fn lemma_four_back(bytes: Seq<u8>, at: int)
    requires
        0 <= at,
        at + 4 <= bytes.len(),
    ensures
        stands_at(bytes, at, four_bytes(le_u32(bytes, at) as int)),
{
    let number = le_u32(bytes, at) as int;
    reveal(four_bytes);
    lemma_lengths();
    lemma_two_back(bytes, at);
    lemma_two_back(bytes, at + 2);
    vstd::arithmetic::div_mod::lemma_fundamental_div_mod_converse(
        number,
        65536,
        le_u16(bytes, at + 2) as int,
        le_u16(bytes, at) as int,
    );
    lemma_joined(bytes, at, two_bytes(number % 65536), two_bytes(number / 65536));
}

pub(crate) proof fn lemma_eight_back(bytes: Seq<u8>, at: int)
    requires
        0 <= at,
        at + 8 <= bytes.len(),
    ensures
        stands_at(bytes, at, eight_bytes(le_u64(bytes, at) as int)),
{
    let number = le_u64(bytes, at) as int;
    reveal(eight_bytes);
    lemma_lengths();
    lemma_four_back(bytes, at);
    lemma_four_back(bytes, at + 4);
    vstd::arithmetic::div_mod::lemma_fundamental_div_mod_converse(
        number,
        4294967296,
        le_u32(bytes, at + 4) as int,
        le_u32(bytes, at) as int,
    );
    lemma_joined(bytes, at, four_bytes(number % 4294967296), four_bytes(number / 4294967296));
}

/// Only what writing constraints gives is read as constraints: the bytes that were read are those
/// that would be written. So no flags stand together otherwise, and no byte is skipped.
pub proof fn law_only_written_constraints_are_read(
    payload: Seq<u8>,
    base: int,
    command_index: u32,
)
    ensures
        constraints_in(payload, base, command_index) matches Ok((constraints, used)) ==> {
            &&& used == written_constraints(constraints).len()
            &&& stands_at(payload, 0, written_constraints(constraints))
        },
{
    if let Ok((constraints, used)) = constraints_in(payload, base, command_index) {
        let flags = le_u16(payload, 0);
        let lower = written_bound(constraints.lower);
        let upper = written_bound(constraints.upper);
        let range = written_range(constraints.reciprocal_range);
        lemma_lengths();
        lemma_two_back(payload, 0);
        lemma_flags(constraints);
        assert(constraint_flags(constraints) == flags) by {
            lemma_flags_back(flags, constraints);
        }
        let upper_at = 2 + lower.len() as int;
        let range_at = upper_at + upper.len() as int;
        if constraints.lower is Some {
            lemma_eight_back(payload, 2);
        }
        if constraints.upper is Some {
            lemma_eight_back(payload, upper_at);
        }
        if let Some((low, high)) = constraints.reciprocal_range {
            if low is Some {
                lemma_eight_back(payload, range_at);
            }
            if high is Some {
                lemma_eight_back(payload, range_at + written_bound(low).len() as int);
            }
            lemma_joined(payload, range_at, written_bound(low), written_bound(high));
        }
        lemma_joined(payload, upper_at, upper, range);
        lemma_joined(payload, 2, lower, upper + range);
        lemma_joined(payload, 0, two_bytes(flags as int), lower + (upper + range));
    }
}

/// Flags are the sum of those that are set.
proof fn lemma_flags_back(flags: u16, constraints: ParameterConstraints)
    requires
        flags < 1024,
        ({
            let (lower, upper) = match constraints.reciprocal_range {
                None => (None, None),
                Some(range) => range,
            };
            &&& flagged(flags, 1) == (constraints.lower is Some)
            &&& flagged(flags, 2) == (constraints.lower matches Some(b) && b.inclusive)
            &&& flagged(flags, 4) == (constraints.upper is Some)
            &&& flagged(flags, 8) == (constraints.upper matches Some(b) && b.inclusive)
            &&& flagged(flags, 16) == constraints.non_zero
            &&& flagged(flags, 32) == (constraints.reciprocal_range is Some)
            &&& flagged(flags, 64) == (lower is Some)
            &&& flagged(flags, 128) == (lower matches Some(b) && b.inclusive)
            &&& flagged(flags, 256) == (upper is Some)
            &&& flagged(flags, 512) == (upper matches Some(b) && b.inclusive)
        }),
    ensures
        constraint_flags(constraints) == flags,
{
    lemma_bits(flags as int);
}

/// A number below 1024 is the sum of its bits.
proof fn lemma_bits(n: int)
    requires
        0 <= n < 1024,
    ensures
        n == n / 1 % 2 + 2 * (n / 2 % 2) + 4 * (n / 4 % 2) + 8 * (n / 8 % 2) + 16 * (n / 16 % 2)
            + 32 * (n / 32 % 2) + 64 * (n / 64 % 2) + 128 * (n / 128 % 2) + 256 * (n / 256 % 2)
            + 512 * (n / 512 % 2),
{
    assert(n == n / 1 % 2 + 2 * (n / 2));
    assert(n / 2 == n / 2 % 2 + 2 * (n / 4));
    assert(n / 4 == n / 4 % 2 + 2 * (n / 8));
    assert(n / 8 == n / 8 % 2 + 2 * (n / 16));
    assert(n / 16 == n / 16 % 2 + 2 * (n / 32));
    assert(n / 32 == n / 32 % 2 + 2 * (n / 64));
    assert(n / 64 == n / 64 % 2 + 2 * (n / 128));
    assert(n / 128 == n / 128 % 2 + 2 * (n / 256));
    assert(n / 256 == n / 256 % 2 + 2 * (n / 512));
    assert(n / 512 == n / 512 % 2);
}

/// A value of an element: zero and a number, or one and the number of a parameter.
pub open spec fn written_value(value: ValueRef) -> Seq<u8> {
    match value {
        ValueRef::Literal(bits) => seq![0u8] + eight_bytes(bits as int),
        ValueRef::Parameter(parameter) => seq![1u8] + four_bytes(parameter.value() as int),
    }
}

pub open spec fn written_values(values: Seq<ValueRef>) -> Seq<u8>
    decreases values.len(),
{
    if values.len() == 0 {
        Seq::empty()
    } else {
        written_value(values[0]) + written_values(values.drop_first())
    }
}

pub open spec fn written_numbers(numbers: Seq<u32>) -> Seq<u8>
    decreases numbers.len(),
{
    if numbers.len() == 0 {
        Seq::empty()
    } else {
        four_bytes(numbers[0] as int) + written_numbers(numbers.drop_first())
    }
}

/// An element: its definition, its nodes and its values, each list after its length.
pub open spec fn written_element(element: ElementModel) -> Seq<u8> {
    four_bytes(element.definition as int) + (four_bytes(element.terminals.len() as int) + (
    written_numbers(element.terminals) + (four_bytes(element.parameters.len() as int)
        + written_values(element.parameters))))
}

proof fn lemma_numbers(bytes: Seq<u8>, at: int, numbers: Seq<u32>)
    requires
        stands_at(bytes, at, written_numbers(numbers)),
    ensures
        written_numbers(numbers).len() == 4 * numbers.len(),
        forall|i: int|
            0 <= i < numbers.len() ==> le_u32(bytes, at + 4 * i) == #[trigger] numbers[i],
    decreases numbers.len(),
{
    lemma_lengths();
    if numbers.len() > 0 {
        let rest = numbers.drop_first();
        lemma_parts(bytes, at, four_bytes(numbers[0] as int), written_numbers(rest));
        lemma_four(bytes, at, numbers[0] as int);
        lemma_numbers(bytes, at + 4, rest);
        assert forall|i: int| 0 <= i < numbers.len() implies le_u32(bytes, at + 4 * i)
            == #[trigger] numbers[i] by {
            if i > 0 {
                assert(rest[i - 1] == numbers[i]);
                assert(at + 4 + 4 * (i - 1) == at + 4 * i);
            }
        }
    }
}

proof fn lemma_values(
    bytes: Seq<u8>,
    base: int,
    command_index: u32,
    read: Seq<ValueRef>,
    values: Seq<ValueRef>,
    at: int,
)
    requires
        stands_at(bytes, at, written_values(values)),
    ensures
        written_values(values).len() >= 5 * values.len(),
        values_in(
            bytes,
            base,
            command_index,
            (read.len() + values.len()) as int,
            read,
            at,
        ) == Ok::<(Seq<ValueRef>, int), crate::protocol::DefinitionRegistrationError>(
            (read + values, at + written_values(values).len()),
        ),
    decreases values.len(),
{
    lemma_lengths();
    if values.len() == 0 {
        assert(read + values =~= read);
    } else {
        let rest = values.drop_first();
        let first = written_value(values[0]);
        lemma_parts(bytes, at, first, written_values(rest));
        assert(bytes[at + 0] == first[0]);
        match values[0] {
            ValueRef::Literal(bits) => {
                lemma_parts(bytes, at, seq![0u8], eight_bytes(bits as int));
                lemma_eight(bytes, at + 1, bits as int);
            },
            ValueRef::Parameter(parameter) => {
                lemma_parts(bytes, at, seq![1u8], four_bytes(parameter.value() as int));
                lemma_four(bytes, at + 1, parameter.value() as int);
                parameter.lemma_of();
            },
        }
        lemma_values(
            bytes,
            base,
            command_index,
            read.push(values[0]),
            rest,
            at + first.len() as int,
        );
        assert(read.push(values[0]) + rest =~= read + values);
    }
}

/// Where the counts and the parts of an element stand, it is read.
proof fn lemma_element_in(
    payload: Seq<u8>,
    base: int,
    command_index: u32,
    element: ElementModel,
    used: int,
)
    requires
        payload.len() >= 12 + 4 * element.terminals.len() + 5 * element.parameters.len(),
        le_u32(payload, 0) == element.definition,
        element.definition != 0,
        le_u32(payload, 4) == element.terminals.len(),
        forall|i: int|
            0 <= i < element.terminals.len() ==> le_u32(payload, 8 + 4 * i)
                == #[trigger] element.terminals[i],
        le_u32(payload, 8 + 4 * element.terminals.len() as int) == element.parameters.len(),
        values_in(
            payload,
            base,
            command_index,
            element.parameters.len() as int,
            Seq::empty(),
            12 + 4 * element.terminals.len() as int,
        ) == Ok::<(Seq<ValueRef>, int), crate::protocol::DefinitionRegistrationError>(
            (element.parameters, used),
        ),
    ensures
        element_in(payload, base, command_index) == Ok::<
            (ElementModel, int),
            crate::protocol::DefinitionRegistrationError,
        >((element, used)),
{
    let count = element.terminals.len() as int;
    assert(Seq::new(count as nat, |i: int| le_u32(payload, 8 + 4 * i)) =~= element.terminals);
    assert(count <= (payload.len() - 8) / 4);
    assert(element.parameters.len() <= (payload.len() - (8 + 4 * count) - 4) / 5);
}

/// Reading an element undoes writing it: its definition, its nodes in order, and its values in
/// order, each a number or a parameter, whatever comes after them.
pub proof fn law_elements_are_read_as_written(
    element: ElementModel,
    rest: Seq<u8>,
    base: int,
    command_index: u32,
)
    requires
        element.definition != 0,
        element.terminals.len() <= u32::MAX,
        element.parameters.len() <= u32::MAX,
    ensures
        element_in(written_element(element) + rest, base, command_index) == Ok::<
            (ElementModel, int),
            crate::protocol::DefinitionRegistrationError,
        >((element, written_element(element).len() as int)),
{
    let written = written_element(element);
    let payload = written + rest;
    let terminals = written_numbers(element.terminals);
    let values = written_values(element.parameters);
    let count = element.terminals.len() as int;
    let value_count = element.parameters.len() as int;
    lemma_lengths();
    assert(stands_at(payload, 0, written));
    lemma_parts(
        payload,
        0,
        four_bytes(element.definition as int),
        four_bytes(count) + (terminals + (four_bytes(value_count) + values)),
    );
    lemma_parts(payload, 4, four_bytes(count), terminals + (four_bytes(value_count) + values));
    lemma_parts(payload, 8, terminals, four_bytes(value_count) + values);
    lemma_numbers(payload, 8, element.terminals);
    let values_at = 8 + 4 * count;
    lemma_parts(payload, values_at, four_bytes(value_count), values);
    lemma_four(payload, 0, element.definition as int);
    lemma_four(payload, 4, count);
    lemma_four(payload, values_at, value_count);
    lemma_values(
        payload,
        base,
        command_index,
        Seq::empty(),
        element.parameters,
        values_at + 4,
    );
    assert(Seq::<ValueRef>::empty() + element.parameters =~= element.parameters);
    lemma_element_in(payload, base, command_index, element, written.len() as int);
}

/// A command of a definition buffer.
pub enum Command {
    Terminal,
    Node,
    Parameter(ParameterConstraints),
    Element(ElementModel),
}

/// The payload of a command.
pub open spec fn written_payload(command: Command) -> Seq<u8> {
    match command {
        Command::Terminal => Seq::empty(),
        Command::Node => Seq::empty(),
        Command::Parameter(constraints) => written_constraints(constraints),
        Command::Element(element) => written_element(element),
    }
}

/// A command: its tag, the length of its payload, and the payload.
pub open spec fn written_command(command: Command) -> Seq<u8> {
    let tag: int = match command {
        Command::Terminal => 1,
        Command::Node => 2,
        Command::Parameter(_) => 3,
        Command::Element(_) => 4,
    };
    two_bytes(tag) + (four_bytes(written_payload(command).len() as int) + written_payload(command))
}

pub open spec fn written_commands(commands: Seq<Command>) -> Seq<u8>
    decreases commands.len(),
{
    if commands.len() == 0 {
        Seq::empty()
    } else {
        written_command(commands[0]) + written_commands(commands.drop_first())
    }
}

/// A buffer: the letters `HYDF`, the version one, two numbers that are zero, the number of commands,
/// and the commands.
pub open spec fn written_buffer(commands: Seq<Command>) -> Seq<u8> {
    seq![0x48u8, 0x59, 0x44, 0x46] + (two_bytes(1) + (two_bytes(0) + (four_bytes(0) + (four_bytes(
        commands.len() as int,
    ) + written_commands(commands)))))
}

/// Whether a command fits its form.
pub open spec fn writable(command: Command) -> bool {
    &&& written_payload(command).len() <= u32::MAX
    &&& command matches Command::Element(element) ==> element.definition != 0
        && element.terminals.len() <= u32::MAX && element.parameters.len() <= u32::MAX
}

/// What a command adds: a terminal on a node of its own, a node, a parameter, or an element.
pub open spec fn added(draft: Draft, command: Command) -> Draft {
    match command {
        Command::Terminal => Draft {
            terminals: draft.terminals.push(draft.node_count),
            node_count: (draft.node_count + 1) as u32,
            ..draft
        },
        Command::Node => Draft { node_count: (draft.node_count + 1) as u32, ..draft },
        Command::Parameter(constraints) => Draft {
            parameters: draft.parameters.push(constraints),
            ..draft
        },
        Command::Element(element) => Draft { elements: draft.elements.push(element), ..draft },
    }
}

/// Whether a command can be followed: a number is left, and an element fits what is there.
pub open spec fn can_add(registry: DefinitionRegistry, draft: Draft, command: Command) -> bool {
    match command {
        Command::Terminal => draft.node_count < u32::MAX,
        Command::Node => draft.node_count < u32::MAX,
        Command::Parameter(_) => draft.parameters.len() <= u32::MAX,
        Command::Element(element) => draft.elements.len() <= u32::MAX && element_refusal(
            registry,
            draft.node_count,
            draft.parameters.len() as int,
            element,
        ) is None,
    }
}

/// What commands add, one after another.
pub open spec fn all_added(draft: Draft, commands: Seq<Command>) -> Draft
    decreases commands.len(),
{
    if commands.len() == 0 {
        draft
    } else {
        all_added(added(draft, commands[0]), commands.drop_first())
    }
}

/// Whether commands can be followed, one after another.
pub open spec fn can_add_all(
    registry: DefinitionRegistry,
    draft: Draft,
    commands: Seq<Command>,
) -> bool
    decreases commands.len(),
{
    if commands.len() == 0 {
        true
    } else {
        can_add(registry, draft, commands[0]) && can_add_all(
            registry,
            added(draft, commands[0]),
            commands.drop_first(),
        )
    }
}

proof fn lemma_command(
    registry: DefinitionRegistry,
    draft: Draft,
    command: Command,
    base: int,
    index: u32,
    at: int,
)
    requires
        writable(command),
    ensures
        ({
            let tag: u16 = match command {
                Command::Terminal => 1,
                Command::Node => 2,
                Command::Parameter(_) => 3,
                Command::Element(_) => 4,
            };
            let result = command_on(
                registry,
                draft,
                tag,
                written_payload(command),
                base,
                index,
                at,
            );
            &&& result is Ok <==> can_add(registry, draft, command)
            &&& result matches Ok(next) ==> next == added(draft, command)
        }),
{
    reveal(command_on);
    match command {
        Command::Parameter(constraints) => {
            law_constraints_are_read_as_written(constraints, Seq::empty(), base, index);
            assert(written_constraints(constraints) + Seq::empty() =~= written_constraints(
                constraints,
            ));
        },
        Command::Element(element) => {
            law_elements_are_read_as_written(element, Seq::empty(), base, index);
            assert(written_element(element) + Seq::empty() =~= written_element(element));
        },
        _ => {},
    }
}

proof fn lemma_commands(
    registry: DefinitionRegistry,
    bytes: Seq<u8>,
    draft: Draft,
    index: int,
    commands: Seq<Command>,
    at: int,
)
    requires
        stands_at(bytes, at, written_commands(commands)),
        forall|i: int| 0 <= i < commands.len() ==> writable(#[trigger] commands[i]),
    ensures
        ({
            let result = commands_in(registry, bytes, draft, index, index + commands.len(), at);
            &&& result is Ok <==> can_add_all(registry, draft, commands)
            &&& result matches Ok(end) ==> end == (
                all_added(draft, commands),
                at + written_commands(commands).len(),
            )
        }),
    decreases commands.len(),
{
    lemma_lengths();
    if commands.len() > 0 {
        let command = commands[0];
        let rest = commands.drop_first();
        let payload = written_payload(command);
        let length = payload.len() as int;
        let tag: int = match command {
            Command::Terminal => 1,
            Command::Node => 2,
            Command::Parameter(_) => 3,
            Command::Element(_) => 4,
        };
        lemma_parts(bytes, at, written_command(command), written_commands(rest));
        lemma_parts(bytes, at, two_bytes(tag), four_bytes(length) + payload);
        lemma_parts(bytes, at + 2, four_bytes(length), payload);
        lemma_two(bytes, at, tag);
        lemma_four(bytes, at + 2, length);
        assert(bytes.subrange(at + 6, at + 6 + length) =~= payload) by {
            assert forall|i: int| 0 <= i < length implies #[trigger] bytes.subrange(
                at + 6,
                at + 6 + length,
            )[i] == payload[i] by {
                assert(bytes[at + 6 + i] == payload[i]);
            }
        }
        lemma_command(registry, draft, command, at + 6, index as u32, at);
        lemma_commands(
            registry,
            bytes,
            added(draft, command),
            index + 1,
            rest,
            at + 6 + length,
        );
        assert(index + 1 + rest.len() == index + commands.len());
    }
}

/// Reading a buffer undoes writing it. A buffer with commands is accepted exactly if each command
/// can be followed in turn and the definition can be built, and then describes what the commands
/// add: terminals, nodes, parameters and elements in the order of the commands.
pub proof fn law_buffers_are_read_as_written(
    registry: DefinitionRegistry,
    commands: Seq<Command>,
)
    requires
        commands.len() <= u32::MAX,
        forall|i: int| 0 <= i < commands.len() ==> writable(#[trigger] commands[i]),
    ensures
        ({
            let draft = all_added(empty_draft(), commands);
            let result = draft_in(registry, written_buffer(commands));
            &&& result is Ok <==> can_add_all(registry, empty_draft(), commands) && build_refusal(
                registry,
                draft,
            ) is None
            &&& result is Ok ==> result->Ok_0 == draft
        }),
        empty_draft().terminals.len() == 0,
        empty_draft().parameters.len() == 0,
        empty_draft().elements.len() == 0,
        empty_draft().node_count == 0,
{
    let bytes = written_buffer(commands);
    let magic = seq![0x48u8, 0x59, 0x44, 0x46];
    let count = commands.len() as int;
    let body = written_commands(commands);
    let after_reserved = four_bytes(count) + body;
    let after_flags = four_bytes(0) + after_reserved;
    let after_version = two_bytes(0) + after_flags;
    lemma_lengths();
    assert(stands_at(bytes, 0, bytes));
    lemma_parts(bytes, 0, magic, two_bytes(1) + after_version);
    lemma_parts(bytes, 4, two_bytes(1), after_version);
    lemma_parts(bytes, 6, two_bytes(0), after_flags);
    lemma_parts(bytes, 8, four_bytes(0), after_reserved);
    lemma_parts(bytes, 12, four_bytes(count), body);
    lemma_two(bytes, 4, 1);
    lemma_two(bytes, 6, 0);
    lemma_four(bytes, 8, 0);
    lemma_four(bytes, 12, count);
    assert(bytes.subrange(0, 4) =~= DEFINITION_BUFFER_MAGIC@) by {
        assert forall|i: int| 0 <= i < 4 implies bytes.subrange(0, 4)[i]
            == DEFINITION_BUFFER_MAGIC@[i] by {
            assert(bytes[0 + i] == magic[i]);
        }
    }
    assert(header_refusal(bytes) is None);
    lemma_commands(registry, bytes, empty_draft(), 0, commands, 16);
}

} // verus!
