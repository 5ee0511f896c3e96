//! What a network accepts, and where its devices are kept.

use crate::connection::{terminal_word, wire_word, ConnectionType};
use crate::device_arena::{assigned_value, DeviceArena, DeviceRemoveResult};
use crate::device_chunk::blank_device;
use crate::float_bits::is_finite;
use crate::ids::{DefinitionId, ParameterId};
use crate::network::Network;
use crate::network_error::NetworkModelError;
use crate::registry::DefinitionRegistry;
use vstd::prelude::*;

verus! {

/// Two wires can be paired exactly if they are two and both exist. Else it is told that they are
/// one, or that one does not exist.
pub proof fn law_wires_are_paired_if_both_exist(network: Network, a: u32, b: u32)
    requires
        network.parts_wf(),
    ensures
        network.pair_refusal(a, b) is None <==> a != b && network.wire_live(a)
            && network.wire_live(b),
        network.pair_refusal(a, b) == Some(NetworkModelError::WireConnectToSelf) <==> a == b,
        a != b && network.wire_live(a) && !network.wire_live(b) ==> network.pair_refusal(a, b)
            == Some(NetworkModelError::IdNotAssigned { ty: ConnectionType::Wire, id: b }),
        a != b && !network.wire_live(a) && network.wire_live(b) ==> network.pair_refusal(a, b)
            == Some(NetworkModelError::IdNotAssigned { ty: ConnectionType::Wire, id: a }),
        a != b && !network.wire_live(a) && !network.wire_live(b) ==> network.pair_refusal(a, b)
            == Some(NetworkModelError::IdNotAssigned { ty: ConnectionType::Wire, id: a })
            || network.pair_refusal(a, b) == Some(
            NetworkModelError::IdNotAssigned { ty: ConnectionType::Wire, id: b },
        ),
{
}

/// A terminal can be attached to a wire exactly if both exist, the terminal has a number that leaves
/// the type bit free, and nothing is connected to it.
pub proof fn law_free_terminals_are_attached(
    network: Network,
    wire: u32,
    device: u32,
    terminal: u32,
)
    ensures
        network.attach_refusal(wire, device, terminal) is None <==> {
            &&& network.wire_live(wire)
            &&& network.device_live(device)
            &&& terminal < 0x8000_0000
            &&& terminal < network.device_model(device).terminals.len()
            &&& network.device_model(device).terminals[terminal as int] is None
        },
        network.attach_refusal(wire, device, terminal) == Some(
            NetworkModelError::TerminalAlreadyConnected,
        ) <==> {
            &&& network.wire_live(wire)
            &&& network.device_live(device)
            &&& terminal < 0x8000_0000
            &&& terminal < network.device_model(device).terminals.len()
            &&& network.device_model(device).terminals[terminal as int] is Some
        },
        network.attach_refusal(wire, device, terminal) == Some(NetworkModelError::InvalidTerminal)
            <==> {
            &&& network.wire_live(wire)
            &&& network.device_live(device)
            &&& terminal >= 0x8000_0000 || terminal >= network.device_model(device).terminals.len()
        },
        !network.wire_live(wire) ==> network.attach_refusal(wire, device, terminal) == Some(
            NetworkModelError::IdNotAssigned { ty: ConnectionType::Wire, id: wire },
        ),
        network.wire_live(wire) && !network.device_live(device) ==> network.attach_refusal(
            wire,
            device,
            terminal,
        ) == Some(NetworkModelError::IdNotAssigned { ty: ConnectionType::Device, id: device }),
{
}

/// A terminal can be detached from a wire exactly if it is attached to that wire.
pub proof fn law_attached_terminals_are_detached(
    network: Network,
    wire: u32,
    device: u32,
    terminal: u32,
)
    ensures
        network.detach_refusal(wire, device, terminal) is None <==> {
            &&& network.wire_live(wire)
            &&& network.device_live(device)
            &&& terminal < 0x8000_0000
            &&& terminal < network.device_model(device).terminals.len()
            &&& network.linked(terminal_word(device, terminal), wire_word(wire))
        },
        network.detach_refusal(wire, device, terminal) == Some(NetworkModelError::NotConnected)
            <==> {
            &&& network.wire_live(wire)
            &&& network.device_live(device)
            &&& terminal < 0x8000_0000
            &&& terminal < network.device_model(device).terminals.len()
            &&& !network.linked(terminal_word(device, terminal), wire_word(wire))
        },
{
}

/// A device can be added exactly if its number has 31 bits at most, leaves no gap and is free, its
/// definition is known, and there is a place for it: in a chunk that takes it, or in a new one. Of
/// several faults the first is told.
pub proof fn law_devices_are_added_where_there_is_room(
    network: Network,
    definitions: DefinitionRegistry,
    device: u32,
    definition: DefinitionId,
)
    ensures
        ({
            let refusal = network.add_device_refusal(definitions, device, definition);
            let len = network.arena().spec_directory_len();
            let known = 1 <= definition.value() <= definitions.spec_definitions().len();
            let room = network.arena().insertion_choice(definition) is Some
                || network.arena().spec_chunk_count() < 0x200_0000;
            &&& refusal is None <==> device <= 0x7FFF_FFFF && device <= len + 1
                && !network.arena().assigned(device) && known && room
            &&& refusal is Some && refusal->Some_0 is IdExceeds31Bit <==> device > 0x7FFF_FFFF
            &&& refusal is Some && refusal->Some_0 is IdOutOfBound <==> device <= 0x7FFF_FFFF
                && device > len + 1
            &&& refusal is Some && refusal->Some_0 is UnknownDefinition ==> !known
            &&& refusal is Some && refusal->Some_0 is DeviceArenaExhausted ==> known && !room
            &&& refusal is Some && refusal->Some_0 is IdAlreadyAssigned
                ==> network.arena().assigned(device)
        }),
{
}

/// A parameter can be given a value exactly if its device exists, its definition is known and has
/// the parameter, and the value meets the constraints that the definition puts on it. A value that
/// does not is refused for the reason that the constraints give.
pub proof fn law_parameters_take_what_their_constraints_accept(
    network: Network,
    definitions: DefinitionRegistry,
    device: u32,
    parameter: ParameterId,
    value: u64,
)
    requires
        network.device_live(device),
        definitions.knows(network.device_model(device).definition.value()),
        definitions.definition(network.device_model(device).definition.value()).spec_parameters().len()
            == network.device_model(device).parameters.len(),
    ensures
        ({
            let definition = definitions.spec_definitions()[network.device_model(
                device,
            ).definition.value() - 1];
            let constraints = definition.spec_parameters();
            let index = parameter.value() as int;
            let refusal = network.parameter_refusal(definitions, device, parameter, value);
            &&& refusal is None <==> index < constraints.len() && constraints[index].check(
                value,
            ) is Ok
            &&& index >= constraints.len() ==> refusal == Some(
                NetworkModelError::InvalidParameter { parameter },
            )
            &&& index < constraints.len() && constraints[index].check(value) is Err ==> refusal
                == Some(
                NetworkModelError::ParameterConstraintViolation {
                    parameter,
                    source: constraints[index].check(value)->Err_0,
                },
            )
        }),
{
}

/// A device that does not exist takes no parameter.
pub proof fn law_missing_devices_take_no_parameters(
    network: Network,
    definitions: DefinitionRegistry,
    device: u32,
    parameter: ParameterId,
    value: u64,
)
    requires
        !network.device_live(device),
    ensures
        network.parameter_refusal(definitions, device, parameter, value) == Some(
            NetworkModelError::IdNotAssigned { ty: ConnectionType::Device, id: device },
        ),
{
}

/// Whoever follows the report of a removal finds every device that is left: the one that is told to
/// have moved is where the removed device was, those of the chunk that is told to have moved are in
/// the same rows of its new place, and all others are where they were.
pub proof fn law_removals_report_what_moves(
    arena: DeviceArena,
    after: DeviceArena,
    device: u32,
    result: DeviceRemoveResult,
    other: u32,
)
    requires
        arena.wf(),
        arena.resident(device),
        arena.removed(after, device, result),
        arena.resident(other),
        other != device,
    ensures
        after.resident(other),
        !after.resident(device),
        result.spec_chunk() == arena.chunk_of(device),
        result.spec_row() == arena.row_of(device),
        ({
            let moved = result.spec_moved() is Some && result.spec_moved()->Some_0.value() == other;
            let relocated = result.spec_relocation() is Some
                && result.spec_relocation()->Some_0.spec_from() == arena.chunk_of(other);
            &&& moved ==> after.chunk_of(other) == arena.chunk_of(device) && after.row_of(other)
                == arena.row_of(device)
            &&& relocated ==> after.chunk_of(other)
                == result.spec_relocation()->Some_0.spec_to() && after.row_of(other)
                == arena.row_of(other)
            &&& !moved && !relocated ==> after.chunk_of(other) == arena.chunk_of(other)
                && after.row_of(other) == arena.row_of(other)
        }),
{
    arena.lemma_wf();
    let k = arena.chunk_of(device);
    assert(arena.device_at(arena.chunk_of(other), arena.row_of(other)) == other);
    assert(arena.device_at(k, arena.row_of(device)) == device);
    let tail = arena.device_at(k, arena.rows(k) - 1);
    assert(arena.resident(tail));
    assert(arena.chunk_of(tail) == k && arena.row_of(tail) == arena.rows(k) - 1);
}

/// Devices are kept in chunks of 64 at most, each of one definition; every device is found at its
/// place, and every place that is taken holds a device.
pub proof fn law_devices_are_kept_by_definition(arena: DeviceArena, device: u32, other: u32)
    requires
        arena.wf(),
        arena.resident(device),
        arena.resident(other),
    ensures
        0 <= arena.chunk_of(device) < arena.spec_chunk_count(),
        0 <= arena.row_of(device) < arena.rows(arena.chunk_of(device)) <= 64,
        arena.device_at(arena.chunk_of(device), arena.row_of(device)) == device,
        arena.chunk_of(device) == arena.chunk_of(other) && arena.row_of(device) == arena.row_of(
            other,
        ) ==> device == other,
        arena.device_model(device).definition == arena.spec_chunk_definition(
            arena.chunk_of(device),
        ),
{
    arena.lemma_wf();
    assert(arena.device_at(arena.chunk_of(device), arena.row_of(device)) == device);
    assert(arena.device_at(arena.chunk_of(other), arena.row_of(other)) == other);
}

/// A device goes to a chunk of its definition that has fewer than 64 devices, behind those that are
/// there. A new chunk is started only where all chunks of the definition are full.
pub proof fn law_devices_go_where_there_is_room(
    network: Network,
    definition: DefinitionId,
    chunk: int,
)
    requires
        network.wf(),
        0 <= chunk < network.arena().spec_chunk_count(),
    ensures
        ({
            let arena = network.arena();
            let (place, row) = network.planned_place(definition);
            &&& place < arena.spec_chunk_count() ==> 0 <= place && arena.spec_chunk_definition(
                place,
            ) == definition && row == arena.rows(place) && row < 64
            &&& place >= arena.spec_chunk_count() ==> place == arena.spec_chunk_count() && row == 0
            &&& place >= arena.spec_chunk_count() && arena.spec_chunk_definition(chunk)
                == definition ==> arena.rows(chunk) >= 64
        }),
{
    let arena = network.arena();
    arena.lemma_hint(definition);
    lemma_first_taking(arena, definition, 0, chunk);
}

proof fn lemma_first_taking(arena: DeviceArena, definition: DefinitionId, from: int, chunk: int)
    requires
        0 <= from <= arena.spec_chunk_count(),
    ensures
        match arena.first_taking(definition, from) {
            Some(first) => from <= first < arena.spec_chunk_count() && arena.takes(
                first,
                definition,
            ) && (from <= chunk < first ==> !arena.takes(chunk, definition)),
            None => from <= chunk < arena.spec_chunk_count() ==> !arena.takes(chunk, definition),
        },
    decreases arena.spec_chunk_count() - from,
{
    if from < arena.spec_chunk_count() && !arena.takes(from, definition) {
        lemma_first_taking(arena, definition, from + 1, chunk);
    }
}

/// The chunk that a removed device leaves is the first to be filled again by a device of its
/// definition, unless the chunk is gone with it.
pub proof fn law_places_that_are_left_are_filled_first(
    arena: DeviceArena,
    after: DeviceArena,
    device: u32,
    result: DeviceRemoveResult,
)
    requires
        arena.wf(),
        arena.resident(device),
        arena.removed(after, device, result),
    ensures
        ({
            let chunk = arena.chunk_of(device);
            let definition = arena.spec_chunk_definition(chunk);
            arena.rows(chunk) > 1 ==> after.insertion_choice(definition) == Some(chunk)
                && after.rows(chunk) == arena.rows(chunk) - 1
                && after.spec_chunk_definition(chunk) == definition
        }),
{
    arena.lemma_wf();
}

/// Where no chunk is to be tried first, a device goes to the first one with room.
pub proof fn law_the_first_chunk_with_room_is_taken(
    arena: DeviceArena,
    definition: DefinitionId,
    chunk: int,
)
    requires
        arena.wf(),
        arena.hint(definition) is None,
        0 <= chunk < arena.spec_chunk_count(),
        arena.spec_chunk_definition(chunk) == definition,
        arena.rows(chunk) < 64,
    ensures
        arena.insertion_choice(definition) matches Some(first) && 0 <= first <= chunk,
{
    lemma_first_taking(arena, definition, 0, chunk);
}

/// Every finite value that a parameter is given can be told from none.
pub proof fn law_finite_values_can_be_assigned(value: u64)
    requires
        is_finite(value),
    ensures
        assigned_value(value) == Some(value),
{
}

/// A new device has its definition's terminals, none of them connected, and its parameters, none of
/// them with a value.
pub proof fn law_new_devices_are_blank(
    definition: DefinitionId,
    terminals: nat,
    parameters: nat,
    index: int,
)
    ensures
        ({
            let device = blank_device(definition, terminals, parameters);
            &&& device.definition == definition
            &&& device.terminals.len() == terminals
            &&& device.parameters.len() == parameters
            &&& 0 <= index < terminals ==> device.terminals[index] is None
            &&& 0 <= index < parameters ==> assigned_value(device.parameters[index]) is None
        }),
{
}

} // verus!
