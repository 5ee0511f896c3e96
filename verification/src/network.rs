//! The network model: wires, devices, and the connections between wires and terminals.

use crate::connection::{
    group_words, is_terminal_word, is_word, terminal_word, wire_word, word_id, word_terminal,
    ConnectionRef, ConnectionType,
};
use crate::device_arena::{
    DeviceArena, DeviceInsertResult, DeviceLocation, DeviceRemoveResult, DeviceView,
};
use crate::device_chunk::{blank_device, DeviceModel};
use crate::float_bits::is_finite;
use crate::ids::{DefinitionId, DeviceId, ParameterId, TerminalId, WireId, MAX_PACKED_ID};
use crate::network_error::NetworkModelError;
use crate::registry::DefinitionRegistry;
use crate::small_list::{dropped, lemma_dropped, lemma_dropped_at, WordList};
use vstd::prelude::*;

verus! {

/// The connections of a wire, as packed references.
#[derive(Debug)]
pub struct WireSlot {
    connections: WordList,
}

impl WireSlot {
    pub closed spec fn words(self) -> Seq<u64> {
        self.connections@
    }

    /// A wire that nothing is connected to.
    pub fn new() -> (result: Self)
        ensures
            result.words() == Seq::<u64>::empty(),
    {
        WireSlot { connections: WordList::new() }
    }

    pub fn add_connection(&mut self, connection: ConnectionRef)
        ensures
            final(self).words() == old(self).words().push(connection.word()),
    {
        self.connections.push(connection.to_word());
    }

    /// Takes a connection out, and moves the last one to its place; false where there is no such
    /// connection.
    pub fn remove_connection(&mut self, connection: ConnectionRef) -> (result: bool)
        ensures
            result == old(self).words().contains(connection.word()),
            final(self).words() == dropped(old(self).words(), connection.word()),
    {
        match self.connections.position(connection.to_word()) {
            None => {
                proof {
                    self.words().index_of_first_ensures(connection.word());
                }
                false
            },
            Some(index) => {
                self.connections.swap_remove(index);
                proof {
                    lemma_dropped_at(old(self).words(), connection.word(), index as int);
                }
                true
            },
        }
    }

    pub fn contains_connection(&self, connection: ConnectionRef) -> (result: bool)
        ensures
            result == self.words().contains(connection.word()),
    {
        self.connections.contains(connection.to_word())
    }

    /// The number of connections.
    pub fn len(&self) -> (result: usize)
        ensures
            result == self.words().len(),
    {
        self.connections.len()
    }

    /// The packed form of a connection.
    pub fn word(&self, index: usize) -> (result: u64)
        requires
            index < self.words().len(),
        ensures
            result == self.words()[index as int],
    {
        self.connections.get(index)
    }
}

/// A place for a device that has been chosen but not taken yet.
#[derive(Debug, Clone, Copy, PartialEq, Eq, Structural)]
pub struct PreparedDeviceInsert {
    device: DeviceId,
    definition: DefinitionId,
    location: DeviceLocation,
    created_chunk: bool,
}

impl PreparedDeviceInsert {
    pub closed spec fn spec_device(self) -> DeviceId {
        self.device
    }

    pub closed spec fn spec_definition(self) -> DefinitionId {
        self.definition
    }

    pub closed spec fn spec_location(self) -> DeviceLocation {
        self.location
    }

    pub closed spec fn spec_created(self) -> bool {
        self.created_chunk
    }

    pub fn device(&self) -> (result: DeviceId)
        ensures
            result == self.spec_device(),
    {
        self.device
    }

    pub fn location(&self) -> (result: DeviceLocation)
        ensures
            result == self.spec_location(),
    {
        self.location
    }

    pub fn created_chunk(&self) -> (result: bool)
        ensures
            result == self.spec_created(),
    {
        self.created_chunk
    }
}

/// Wires, devices and their connections.
#[derive(Debug)]
pub struct Network {
    wires: Vec<Option<WireSlot>>,
    device_arena: DeviceArena,
}

/// Whether every connected terminal has a number that leaves the type bit free.
pub open spec fn ports_fit(arena: DeviceArena) -> bool {
    forall|d: u32, t: int|
        arena.resident(d) && 0 <= t < arena.device_model(d).terminals.len()
            && #[trigger] arena.device_model(d).terminals[t] is Some ==> t < 0x8000_0000
}

/// Whether a packed reference is one to a terminal of this device.
pub open spec fn belongs_to(word: u64, device: u32) -> bool {
    is_terminal_word(word) && word_id(word) == device
}

/// The connections that are left of `words` once the connected ones of a device's terminals are
/// taken out in turn.
pub open spec fn without_terminals(
    words: Seq<u64>,
    device: u32,
    terminals: Seq<Option<ConnectionRef>>,
) -> Seq<u64>
    decreases terminals.len(),
{
    if terminals.len() == 0 {
        words
    } else {
        let rest = without_terminals(words, device, terminals.drop_last());
        if terminals.last() is Some {
            dropped(rest, terminal_word(device, (terminals.len() - 1) as u32))
        } else {
            rest
        }
    }
}

impl Network {
    /// The number of wire numbers that have been given out.
    pub closed spec fn wire_slots(self) -> int {
        self.wires@.len() as int
    }

    /// Whether a wire exists.
    pub closed spec fn wire_live(self, wire: u32) -> bool {
        1 <= wire <= self.wires@.len() && self.wires@[wire - 1] is Some
    }

    /// The connections of a wire, packed, in order.
    pub closed spec fn wire_words(self, wire: u32) -> Seq<u64> {
        self.wires@[wire - 1]->Some_0.words()
    }

    /// The devices.
    pub closed spec fn arena(self) -> DeviceArena {
        self.device_arena
    }

    /// Whether a device exists.
    pub open spec fn device_live(self, device: u32) -> bool {
        self.arena().resident(device)
    }

    /// What is known of a device.
    pub open spec fn device_model(self, device: u32) -> DeviceModel {
        self.arena().device_model(device)
    }

    /// Whether the wire or terminal `from` holds a connection to the wire or terminal `to`.
    pub open spec fn linked(self, from: u64, to: u64) -> bool {
        &&& is_word(from)
        &&& if is_terminal_word(from) {
            let terminals = self.device_model(word_id(from)).terminals;
            let index = word_terminal(from) as int;
            &&& self.device_live(word_id(from))
            &&& index < terminals.len()
            &&& terminals[index] matches Some(connection)
            &&& connection.word() == to
        } else {
            self.wire_live(word_id(from)) && self.wire_words(word_id(from)).contains(to)
        }
    }

    /// Each connection of a wire is held once and is well packed; so is that of a terminal.
    pub open spec fn parts_wf(self) -> bool {
        &&& self.arena().wf()
        &&& self.wire_slots() <= u32::MAX
        &&& forall|w: u32| #[trigger]
            self.wire_live(w) ==> 1 <= w <= self.wire_slots() && self.wire_words(w).no_duplicates()
        &&& forall|from: u64, to: u64| #[trigger] self.linked(from, to) ==> is_word(to)
        &&& ports_fit(self.arena())
    }

    /// Connections are held at both ends, and nothing is connected to itself.
    pub open spec fn wf(self) -> bool {
        &&& self.parts_wf()
        &&& forall|from: u64, to: u64| #[trigger]
            self.linked(from, to) ==> self.linked(to, from) && from != to
    }

    /// The devices are as the definitions say.
    pub open spec fn fits(self, definitions: DefinitionRegistry) -> bool {
        self.arena().fits(definitions)
    }

    /// Whether `after` has the same wires.
    pub open spec fn same_wires(self, after: Self) -> bool {
        &&& after.wire_slots() == self.wire_slots()
        &&& forall|w: u32| #[trigger] after.wire_live(w) == self.wire_live(w)
    }

    /// Whether `after` has the same devices in the same places, connections aside.
    pub open spec fn same_devices(self, after: Self) -> bool {
        &&& self.arena().same_places(after.arena())
        &&& forall|d: u32| #[trigger]
            self.device_live(d) ==> {
                &&& after.device_model(d).definition == self.device_model(d).definition
                &&& after.device_model(d).parameters == self.device_model(d).parameters
                &&& after.device_model(d).terminals.len() == self.device_model(d).terminals.len()
            }
        &&& forall|definitions: DefinitionRegistry|
            self.fits(definitions) ==> #[trigger] after.fits(definitions)
    }

    /// Whether `after` holds the same connections.
    pub open spec fn same_links(self, after: Self) -> bool {
        forall|from: u64, to: u64| #[trigger] after.linked(from, to) == self.linked(from, to)
    }

    /// Whether `after` holds the connections of every wire of this network in the same order.
    pub open spec fn same_lists(self, after: Self) -> bool {
        forall|w: u32|
            self.wire_live(w) ==> #[trigger] after.wire_words(w) == self.wire_words(w)
    }

    /// Whether `after` is this network with one more wire.
    pub open spec fn wire_added(self, after: Self, wire: u32) -> bool {
        &&& after.wire_slots() == if wire > self.wire_slots() {
            wire as int
        } else {
            self.wire_slots()
        }
        &&& !self.wire_live(wire)
        &&& forall|w: u32| #[trigger] after.wire_live(w) == (self.wire_live(w) || w == wire)
        &&& after.wire_words(wire) == Seq::<u64>::empty()
        &&& self.same_lists(after)
        &&& self.same_links(after)
        &&& after.arena() == self.arena()
    }

    /// Whether `after` is this network with one more connection, which comes last at both its ends.
    pub open spec fn link_added(self, after: Self, a: u64, b: u64) -> bool {
        &&& self.same_wires(after)
        &&& self.same_devices(after)
        &&& !self.linked(a, b)
        &&& forall|from: u64, to: u64| #[trigger]
            after.linked(from, to) == (self.linked(from, to) || (from == a && to == b) || (from == b
                && to == a))
        &&& forall|w: u32|
            self.wire_live(w) ==> #[trigger] after.wire_words(w) == if wire_word(w) == a {
                self.wire_words(w).push(b)
            } else if wire_word(w) == b {
                self.wire_words(w).push(a)
            } else {
                self.wire_words(w)
            }
    }

    /// Whether `after` is this network with one connection less, whose place at each of its ends the
    /// last one there has taken.
    pub open spec fn link_removed(self, after: Self, a: u64, b: u64) -> bool {
        &&& self.same_wires(after)
        &&& self.same_devices(after)
        &&& self.linked(a, b)
        &&& forall|from: u64, to: u64| #[trigger]
            after.linked(from, to) == (self.linked(from, to) && !(from == a && to == b) && !(from
                == b && to == a))
        &&& forall|w: u32|
            self.wire_live(w) ==> #[trigger] after.wire_words(w) == if wire_word(w) == a {
                dropped(self.wire_words(w), b)
            } else if wire_word(w) == b {
                dropped(self.wire_words(w), a)
            } else {
                self.wire_words(w)
            }
    }

    /// Whether `after` is this network without a wire and its connections.
    pub open spec fn wire_removed(self, after: Self, wire: u32) -> bool {
        &&& after.wire_slots() == self.wire_slots()
        &&& self.wire_live(wire)
        &&& forall|w: u32| #[trigger] after.wire_live(w) == (self.wire_live(w) && w != wire)
        &&& self.same_devices(after)
        &&& forall|from: u64, to: u64| #[trigger]
            after.linked(from, to) == (self.linked(from, to) && from != wire_word(wire) && to
                != wire_word(wire))
        &&& forall|w: u32|
            self.wire_live(w) && w != wire ==> #[trigger] after.wire_words(w) == dropped(
                self.wire_words(w),
                wire_word(wire),
            )
    }

    /// Whether `after` is this network with one more device, to which nothing is connected.
    pub open spec fn device_added(
        self,
        after: Self,
        definitions: DefinitionRegistry,
        device: u32,
        definition: DefinitionId,
        insert: DeviceInsertResult,
    ) -> bool {
        &&& self.same_wires(after)
        &&& self.same_lists(after)
        &&& self.same_links(after)
        &&& !self.device_live(device)
        &&& definitions.knows(definition.value())
        &&& self.arena().inserted(after.arena(), device, definition, insert)
        &&& after.arena()@ == self.arena()@.insert(
            device,
            blank_device(
                definition,
                definitions.definition(definition.value()).spec_terminals().len(),
                definitions.definition(definition.value()).spec_parameters().len(),
            ),
        )
    }

    /// Whether `after` is this network without a device and its connections.
    pub open spec fn device_removed(
        self,
        after: Self,
        device: u32,
        removal: DeviceRemoveResult,
    ) -> bool {
        &&& self.same_wires(after)
        &&& self.device_live(device)
        &&& self.arena().removed(after.arena(), device, removal)
        &&& forall|d: u32| #[trigger]
            after.device_live(d) ==> {
                &&& after.device_model(d).definition == self.device_model(d).definition
                &&& after.device_model(d).parameters == self.device_model(d).parameters
                &&& after.device_model(d).terminals.len() == self.device_model(d).terminals.len()
            }
        &&& forall|definitions: DefinitionRegistry|
            self.fits(definitions) ==> #[trigger] after.fits(definitions)
        &&& forall|from: u64, to: u64| #[trigger]
            after.linked(from, to) == (self.linked(from, to) && !belongs_to(from, device)
                && !belongs_to(to, device))
        &&& forall|w: u32|
            self.wire_live(w) ==> #[trigger] after.wire_words(w) == without_terminals(
                self.wire_words(w),
                device,
                self.device_model(device).terminals,
            )
    }

    /// A network without wires and devices.
    pub fn new() -> (result: Self)
        ensures
            result.wf(),
            forall|definitions: DefinitionRegistry| #[trigger] result.fits(definitions),
            result.wire_slots() == 0,
            result.arena().spec_directory_len() == 0,
            result.arena().spec_chunk_count() == 0,
            forall|w: u32| !result.wire_live(w),
            forall|d: u32| !result.device_live(d),
            forall|d: u32| !#[trigger] result.arena().assigned(d),
            forall|definition: DefinitionId| #[trigger]
                result.arena().insertion_choice(definition) is None,
    {
        let result = Network { wires: Vec::new(), device_arena: DeviceArena::new() };
        assert forall|d: u32| !result.device_live(d) by {
            assert(!result.arena()@.contains_key(d));
        }
        assert(ports_fit(result.arena())) by {
            assert forall|d: u32| !result.arena().resident(d) by {
                assert(!result.device_live(d));
            }
        }
        result
    }

    /// A network without wires and devices, with room for a number of each.
    pub fn with_capacity(wires: usize, devices: usize) -> (result: Self)
        ensures
            result.wf(),
            forall|definitions: DefinitionRegistry| #[trigger] result.fits(definitions),
            result.wire_slots() == 0,
            result.arena().spec_directory_len() == 0,
            result.arena().spec_chunk_count() == 0,
            forall|w: u32| !result.wire_live(w),
            forall|d: u32| !result.device_live(d),
            forall|d: u32| !#[trigger] result.arena().assigned(d),
            forall|definition: DefinitionId| #[trigger]
                result.arena().insertion_choice(definition) is None,
    {
        let result = Network {
            wires: Vec::with_capacity(wires),
            device_arena: DeviceArena::with_directory_capacity(devices),
        };
        assert forall|d: u32| !result.device_live(d) by {
            assert(!result.arena()@.contains_key(d));
        }
        assert(ports_fit(result.arena())) by {
            assert forall|d: u32| !result.arena().resident(d) by {
                assert(!result.device_live(d));
            }
        }
        result
    }

    /// The number of wire numbers that have been given out.
    pub fn wire_count(&self) -> (result: usize)
        ensures
            result == self.wire_slots(),
    {
        self.wires.len()
    }

    /// Whether a wire exists.
    pub fn has_wire(&self, wire: u32) -> (result: bool)
        ensures
            result == self.wire_live(wire),
    {
        wire != 0 && ((wire - 1) as usize) < self.wires.len() && self.wires[(wire
            - 1) as usize].is_some()
    }

    /// The number of connections of a wire.
    pub fn connection_count(&self, wire: u32) -> (result: usize)
        requires
            self.wire_live(wire),
        ensures
            result == self.wire_words(wire).len(),
    {
        match &self.wires[(wire - 1) as usize] {
            Some(slot) => slot.len(),
            None => 0,
        }
    }

    /// A connection of a wire.
    pub fn connection(&self, wire: u32, index: usize) -> (result: ConnectionRef)
        requires
            self.parts_wf(),
            self.wire_live(wire),
            index < self.wire_words(wire).len(),
        ensures
            result.word() == self.wire_words(wire)[index as int],
            self.linked(wire_word(wire), result.word()),
    {
        broadcast use group_words;

        let word: u64 = self.wires[(wire - 1) as usize].as_ref().unwrap().word(index);
        assert(self.wire_words(wire).contains(word));
        assert(self.linked(wire_word(wire), word));
        ConnectionRef::from_word(word)
    }

    /// The connections of a wire, in order.
    pub fn wire_connections(&self, wire: WireId) -> (result: Result<
        Vec<ConnectionRef>,
        NetworkModelError,
    >)
        requires
            self.parts_wf(),
        ensures
            !self.wire_live(wire.value()) ==> result == Err::<Vec<ConnectionRef>, _>(
                NetworkModelError::IdNotAssigned { ty: ConnectionType::Wire, id: wire.value() },
            ),
            self.wire_live(wire.value()) ==> (result matches Ok(connections) && {
                &&& connections@.len() == self.wire_words(wire.value()).len()
                &&& forall|i: int|
                    0 <= i < connections@.len() ==> (#[trigger] connections@[i]).word()
                        == self.wire_words(wire.value())[i]
            }),
    {
        if !self.has_wire(wire.get()) {
            return Err(
                NetworkModelError::IdNotAssigned { ty: ConnectionType::Wire, id: wire.get() },
            );
        }
        let count: usize = self.connection_count(wire.get());
        let mut connections: Vec<ConnectionRef> = Vec::new();
        let mut index: usize = 0;
        while index < count
            invariant
                index <= count == self.wire_words(wire.value()).len(),
                self.parts_wf(),
                self.wire_live(wire.value()),
                connections@.len() == index,
                forall|i: int|
                    0 <= i < index ==> (#[trigger] connections@[i]).word() == self.wire_words(
                        wire.value(),
                    )[i],
            decreases count - index,
        {
            connections.push(self.connection(wire.get(), index));
            index = index + 1;
        }
        Ok(connections)
    }

    /// The wires; a number that is not taken holds none.
    pub fn wires(&self) -> (result: &[Option<WireSlot>])
        ensures
            result@.len() == self.wire_slots(),
            forall|w: u32|
                1 <= w <= result@.len() ==> (#[trigger] self.wire_live(w) == result@[w - 1] is Some),
            forall|w: u32| #[trigger]
                self.wire_live(w) ==> result@[w - 1]->Some_0.words() == self.wire_words(w),
    {
        self.wires.as_slice()
    }

    /// The device, where it exists.
    pub fn device(&self, device: DeviceId) -> (result: Result<DeviceView<'_>, NetworkModelError>)
        requires
            self.arena().wf(),
        ensures
            self.device_live(device.value()) ==> (result matches Ok(view) && view.wf() && view@
                == self.device_model(device.value())),
            !self.device_live(device.value()) ==> result == Err::<DeviceView<'_>, _>(
                NetworkModelError::IdNotAssigned { ty: ConnectionType::Device, id: device.value() },
            ),
    {
        self.device_arena.device(device)
    }

    /// The definition of a device.
    pub fn device_definition_id(&self, device: DeviceId) -> (result: Result<
        DefinitionId,
        NetworkModelError,
    >)
        requires
            self.arena().wf(),
        ensures
            result == if self.device_live(device.value()) {
                Ok(self.device_model(device.value()).definition)
            } else {
                Err(
                    NetworkModelError::IdNotAssigned {
                        ty: ConnectionType::Device,
                        id: device.value(),
                    },
                )
            },
    {
        match self.device(device) {
            Ok(view) => Ok(view.definition_id()),
            Err(error) => Err(error),
        }
    }

    /// Where a device is kept.
    pub fn device_location(&self, device: DeviceId) -> (result: Result<
        DeviceLocation,
        NetworkModelError,
    >)
        requires
            self.arena().wf(),
        ensures
            self.device_live(device.value()) ==> (result matches Ok(location)
                && location.spec_chunk() == self.arena().chunk_of(device.value())
                && location.spec_row() == self.arena().row_of(device.value())),
            !self.device_live(device.value()) ==> result == Err::<DeviceLocation, _>(
                NetworkModelError::IdNotAssigned { ty: ConnectionType::Device, id: device.value() },
            ),
    {
        self.device_arena.location(device)
    }

    /// The value of a parameter of the device at a place.
    pub fn parameter_at_location(&self, location: DeviceLocation, parameter: ParameterId) -> (result:
        Option<Option<u64>>)
        requires
            self.arena().wf(),
        ensures
            result == self.arena().spec_parameter_at(location, parameter),
    {
        self.device_arena.parameter_at(location, parameter)
    }

    /// The arena that keeps the devices.
    pub fn device_arena(&self) -> (result: &DeviceArena)
        ensures
            *result == self.arena(),
    {
        &self.device_arena
    }

    /// Whether one device is kept before another: in an earlier chunk, or in an earlier row.
    pub open spec fn kept_before(self, a: u32, b: u32) -> bool {
        let arena = self.arena();
        arena.chunk_of(a) < arena.chunk_of(b) || (arena.chunk_of(a) == arena.chunk_of(b)
            && arena.row_of(a) < arena.row_of(b))
    }

    /// The devices with what they are, chunk by chunk and row by row.
    pub fn iter_devices(&self) -> (result: Vec<(DeviceId, DeviceView<'_>)>)
        requires
            self.arena().wf(),
        ensures
            forall|d: u32| #[trigger]
                self.device_live(d) <==> exists|i: int|
                    0 <= i < result@.len() && (#[trigger] result@[i]).0.value() == d,
            forall|i: int, j: int|
                0 <= i < j < result@.len() ==> (#[trigger] result@[i]).0.value() != (
                #[trigger] result@[j]).0.value(),
            forall|i: int, j: int|
                0 <= i < j < result@.len() ==> self.kept_before(
                    (#[trigger] result@[i]).0.value(),
                    (#[trigger] result@[j]).0.value(),
                ),
            forall|i: int|
                0 <= i < result@.len() ==> (#[trigger] result@[i]).1.wf() && result@[i].1@
                    == self.device_model(result@[i].0.value()),
    {
        let ids = self.iter_device_ids();
        let mut devices: Vec<(DeviceId, DeviceView<'_>)> = Vec::new();
        while devices.len() < ids.len()
            invariant
                self.arena().wf(),
                devices@.len() <= ids@.len(),
                forall|d: u32| #[trigger]
                    self.device_live(d) <==> exists|i: int|
                        0 <= i < ids@.len() && (#[trigger] ids@[i]).value() == d,
                forall|i: int|
                    0 <= i < devices@.len() ==> (#[trigger] devices@[i]).0 == ids@[i]
                        && devices@[i].1.wf() && devices@[i].1@ == self.device_model(
                        ids@[i].value(),
                    ),
            decreases ids@.len() - devices@.len(),
        {
            let id = ids[devices.len()];
            assert(ids@[devices@.len() as int].value() == id.value());
            assert(self.device_live(id.value()));
            match self.device(id) {
                Ok(device) => {
                    devices.push((id, device));
                },
                Err(_) => {},
            }
        }
        proof {
            assert forall|d: u32| #[trigger] self.device_live(d) <==> exists|i: int|
                0 <= i < devices@.len() && (#[trigger] devices@[i]).0.value() == d by {
                if self.device_live(d) {
                    let i = choose|i: int| 0 <= i < ids@.len() && (#[trigger] ids@[i]).value() == d;
                    assert(devices@[i].0.value() == d);
                }
                if exists|i: int| 0 <= i < devices@.len() && (#[trigger] devices@[i]).0.value()
                    == d {
                    let i = choose|i: int|
                        0 <= i < devices@.len() && (#[trigger] devices@[i]).0.value() == d;
                    assert(ids@[i].value() == d);
                }
            }
            assert forall|i: int, j: int| 0 <= i < j < devices@.len() implies (
            #[trigger] devices@[i]).0.value() != (#[trigger] devices@[j]).0.value()
                && self.kept_before(devices@[i].0.value(), devices@[j].0.value()) by {
                assert(ids@[i].value() != ids@[j].value());
            }
        }
        devices
    }

    /// The devices, chunk by chunk and row by row.
    pub fn iter_device_ids(&self) -> (result: Vec<DeviceId>)
        requires
            self.arena().wf(),
        ensures
            forall|d: u32| #[trigger]
                self.device_live(d) <==> exists|i: int|
                    0 <= i < result@.len() && (#[trigger] result@[i]).value() == d,
            forall|i: int, j: int|
                0 <= i < j < result@.len() ==> (#[trigger] result@[i]).value() != (
                #[trigger] result@[j]).value() && self.kept_before(
                    result@[i].value(),
                    result@[j].value(),
                ),
    {
        let arena = &self.device_arena;
        let mut ids: Vec<DeviceId> = Vec::new();
        let mut chunk: usize = 0;
        proof {
            arena.lemma_wf();
        }
        while chunk < arena.chunk_count()
            invariant
                chunk <= arena.spec_chunk_count(),
                *arena == self.arena(),
                arena.wf(),
                forall|i: int|
                    0 <= i < ids@.len() ==> arena.resident((#[trigger] ids@[i]).value())
                        && arena.chunk_of(ids@[i].value()) < chunk,
                forall|d: u32|
                    #[trigger] arena.resident(d) && arena.chunk_of(d) < chunk ==> exists|i: int|
                        0 <= i < ids@.len() && (#[trigger] ids@[i]).value() == d,
                forall|i: int, j: int|
                    0 <= i < j < ids@.len() ==> (#[trigger] ids@[i]).value() != (
                    #[trigger] ids@[j]).value() && self.kept_before(
                        ids@[i].value(),
                        ids@[j].value(),
                    ),
            decreases arena.spec_chunk_count() - chunk,
        {
            let mut row: usize = 0;
            proof {
                arena.lemma_wf();
            }
            while row < arena.chunk_len(chunk)
                invariant
                    chunk < arena.spec_chunk_count(),
                    row <= arena.rows(chunk as int),
                    *arena == self.arena(),
                    arena.wf(),
                    forall|i: int|
                        0 <= i < ids@.len() ==> arena.resident((#[trigger] ids@[i]).value()) && (
                        arena.chunk_of(ids@[i].value()) < chunk || (arena.chunk_of(ids@[i].value())
                            == chunk && arena.row_of(ids@[i].value()) < row)),
                    forall|d: u32|
                        #[trigger] arena.resident(d) && (arena.chunk_of(d) < chunk
                            || (arena.chunk_of(d) == chunk && arena.row_of(d) < row)) ==> exists|
                            i: int,
                        | 0 <= i < ids@.len() && (#[trigger] ids@[i]).value() == d,
                    forall|i: int, j: int|
                        0 <= i < j < ids@.len() ==> (#[trigger] ids@[i]).value() != (
                        #[trigger] ids@[j]).value() && self.kept_before(
                            ids@[i].value(),
                            ids@[j].value(),
                        ),
                decreases arena.rows(chunk as int) - row,
            {
                let id = arena.device_in(chunk, row);
                let ghost before = ids@;
                proof {
                    arena.lemma_wf();
                    assert(arena.device_at(chunk as int, row as int) == id.value());
                }
                ids.push(id);
                assert forall|d: u32|
                    #[trigger] arena.resident(d) && (arena.chunk_of(d) < chunk || (arena.chunk_of(d)
                        == chunk && arena.row_of(d) < row + 1)) implies exists|i: int|
                    0 <= i < ids@.len() && (#[trigger] ids@[i]).value() == d by {
                    if arena.chunk_of(d) == chunk && arena.row_of(d) == row {
                        assert(arena.device_at(arena.chunk_of(d), arena.row_of(d)) == d);
                        assert(ids@[before.len() as int].value() == d);
                    } else {
                        let i = choose|i: int|
                            0 <= i < before.len() && (#[trigger] before[i]).value() == d;
                        assert(ids@[i].value() == d);
                    }
                }
                row = row + 1;
            }
            proof {
                arena.lemma_wf();
            }
            chunk = chunk + 1;
        }
        ids
    }

    /// Replacing the connections of one wire changes what is linked from that wire, and no more.
    proof fn lemma_words_changed(before: Self, after: Self, wire: u32, slot: WireSlot)
        requires
            before.wire_live(wire),
            after.wires@ == before.wires@.update(wire - 1, Some(slot)),
            after.device_arena == before.device_arena,
        ensures
            before.same_wires(after),
            before.same_devices(after),
            after.wire_words(wire) == slot.words(),
            forall|w: u32|
                w != wire && before.wire_live(w) ==> #[trigger] after.wire_words(w)
                    == before.wire_words(w),
            forall|from: u64, to: u64| #[trigger]
                after.linked(from, to) == if from == wire_word(wire) {
                    slot.words().contains(to)
                } else {
                    before.linked(from, to)
                },
    {
        broadcast use group_words;

        assert forall|from: u64, to: u64| #[trigger]
            after.linked(from, to) == if from == wire_word(wire) {
                slot.words().contains(to)
            } else {
                before.linked(from, to)
            } by {
            if is_word(from) && !is_terminal_word(from) {
                let w = word_id(from);
                assert(from == wire_word(w));
                if w != wire {
                    assert(after.wire_live(w) == before.wire_live(w));
                }
            }
        }
    }

    /// Replacing the connection of one terminal changes what is linked from that terminal, and no
    /// more.
    proof fn lemma_terminal_changed(
        before: Self,
        after: Self,
        device: u32,
        terminal: u32,
        connection: Option<ConnectionRef>,
    )
        requires
            before.device_live(device),
            device != 0,
            terminal < before.device_model(device).terminals.len(),
            terminal < 0x8000_0000,
            after.wires == before.wires,
            before.device_arena.same_places(after.device_arena),
            forall|definitions: DefinitionRegistry|
                before.fits(definitions) ==> #[trigger] after.fits(definitions),
            after.device_arena@ == before.device_arena@.insert(
                device,
                DeviceModel {
                    terminals: before.device_model(device).terminals.update(
                        terminal as int,
                        connection,
                    ),
                    ..before.device_model(device)
                },
            ),
        ensures
            before.same_wires(after),
            before.same_devices(after),
            forall|w: u32| #[trigger] after.wire_words(w) == before.wire_words(w),
            forall|d: u32|
                before.device_live(d) ==> #[trigger] after.device_model(d) == if d == device {
                    DeviceModel {
                        terminals: before.device_model(device).terminals.update(
                            terminal as int,
                            connection,
                        ),
                        ..before.device_model(device)
                    }
                } else {
                    before.device_model(d)
                },
            forall|from: u64, to: u64| #[trigger]
                after.linked(from, to) == if from == terminal_word(device, terminal) {
                    connection matches Some(c) && c.word() == to
                } else {
                    before.linked(from, to)
                },
    {
        broadcast use group_words;

        let updated = DeviceModel {
            terminals: before.device_model(device).terminals.update(terminal as int, connection),
            ..before.device_model(device)
        };
        assert forall|d: u32| before.device_live(d) implies #[trigger] after.device_model(d) == if d
            == device {
            updated
        } else {
            before.device_model(d)
        } by {
            assert(after.device_arena@[d] == before.device_arena@.insert(device, updated)[d]);
            assert(after.device_arena.resident(d));
        }
        assert forall|from: u64, to: u64| #[trigger]
            after.linked(from, to) == if from == terminal_word(device, terminal) {
                connection matches Some(c) && c.word() == to
            } else {
                before.linked(from, to)
            } by {
            if is_word(from) && is_terminal_word(from) {
                let d = word_id(from);
                let t = word_terminal(from);
                assert(from == terminal_word(d, t));
                assert(after.device_live(d) == before.device_live(d));
                if before.device_live(d) {
                    assert(after.device_model(d) == after.device_model(d));
                }
            }
        }
    }

    /// Adds a wire: under the next number, or under one that is free again.
    pub fn add_wire(&mut self, id: WireId) -> (result: Result<(), NetworkModelError>)
        requires
            old(self).wf(),
        ensures
            final(self).wf(),
            if id.value() - 1 > old(self).wire_slots() {
                &&& result == Err::<(), _>(
                    NetworkModelError::IdOutOfBound {
                        id: id.value(),
                        upper_bound: old(self).wire_slots() as usize,
                    },
                )
                &&& *final(self) == *old(self)
            } else if old(self).wire_live(id.value()) {
                &&& result == Err::<(), _>(NetworkModelError::IdAlreadyAssigned { id: id.value() })
                &&& *final(self) == *old(self)
            } else {
                &&& result is Ok
                &&& old(self).wire_added(*final(self), id.value())
            },
    {
        broadcast use group_words;

        let index: usize = id.index();
        let len: usize = self.wires.len();
        if index > len {
            return Err(NetworkModelError::IdOutOfBound { id: id.get(), upper_bound: len });
        }
        if index == len {
            self.wires.push(Some(WireSlot::new()));
        } else {
            if self.wires[index].is_some() {
                return Err(NetworkModelError::IdAlreadyAssigned { id: id.get() });
            }
            self.wires.set(index, Some(WireSlot::new()));
        }
        proof {
            let wire = id.value();
            assert forall|w: u32| #[trigger] self.wire_live(w) == (old(self).wire_live(w) || w
                == wire) by {}
            assert forall|w: u32| old(self).wire_live(w) implies #[trigger] self.wire_words(w)
                == old(self).wire_words(w) by {}
            assert forall|from: u64, to: u64| #[trigger] self.linked(from, to) == old(self).linked(
                from,
                to,
            ) by {
                if is_word(from) && !is_terminal_word(from) {
                    let w = word_id(from);
                    assert(self.wire_live(w) == (old(self).wire_live(w) || w == wire));
                }
            }
            assert forall|from: u64, to: u64| #[trigger] self.linked(from, to) implies self.linked(
                to,
                from,
            ) && from != to by {
                assert(old(self).linked(from, to));
                assert(old(self).linked(to, from));
            }
            assert(self.parts_wf());
        }
        Ok(())
    }

    /// Takes the connection to `peer` out of what `endpoint` holds.
    fn unlink_one_way(&mut self, endpoint: ConnectionRef, peer: ConnectionRef)
        requires
            old(self).parts_wf(),
            old(self).linked(endpoint.word(), peer.word()),
        ensures
            final(self).parts_wf(),
            old(self).same_wires(*final(self)),
            old(self).same_devices(*final(self)),
            forall|from: u64, to: u64| #[trigger]
                final(self).linked(from, to) == (old(self).linked(from, to) && !(from
                    == endpoint.word() && to == peer.word())),
            forall|w: u32|
                old(self).wire_live(w) ==> #[trigger] final(self).wire_words(w) == if wire_word(w)
                    == endpoint.word() {
                    dropped(old(self).wire_words(w), peer.word())
                } else {
                    old(self).wire_words(w)
                },
    {
        broadcast use {group_words, ConnectionRef::lemma_word_injective};

        match endpoint.as_wire() {
            Some(wire) => {
                let index: usize = wire.index();
                let ghost words = self.wire_words(wire.value());
                if let Some(slot) = &mut self.wires[index] {
                    let removed = slot.remove_connection(peer);
                }
                proof {
                    let slot = self.wires@[index as int]->Some_0;
                    Self::lemma_words_changed(*old(self), *self, wire.value(), slot);
                    lemma_dropped(words, peer.word());
                    assert forall|w: u32| #[trigger] self.wire_live(w) implies 1 <= w
                        <= self.wire_slots() && self.wire_words(w).no_duplicates() by {
                        assert(old(self).wire_live(w));
                    }
                    assert forall|from: u64, to: u64| #[trigger] self.linked(from, to) == (old(
                        self,
                    ).linked(from, to) && !(from == endpoint.word() && to == peer.word())) by {}
                }
            },
            None => {
                if let Some((device, terminal)) = endpoint.as_terminal() {
                    let number: u32 = device.get();
                    let removed = self.device_arena.detach_terminal(device, terminal);
                    proof {
                        Self::lemma_terminal_changed(
                            *old(self),
                            *self,
                            device.value(),
                            terminal.value(),
                            None,
                        );
                        assert forall|w: u32| #[trigger] self.wire_live(w) implies 1 <= w
                            <= self.wire_slots() && self.wire_words(w).no_duplicates() by {
                            assert(old(self).wire_live(w));
                        }
                        assert forall|d: u32, t: int|
                            self.arena().resident(d) && 0 <= t < self.arena().device_model(
                                d,
                            ).terminals.len() && #[trigger] self.arena().device_model(
                                d,
                            ).terminals[t] is Some implies t < 0x8000_0000 by {
                            assert(old(self).device_live(d));
                            assert(self.device_model(d) == self.device_model(d));
                            assert(old(self).arena().device_model(d).terminals[t] is Some);
                        }
                        assert forall|from: u64, to: u64| #[trigger] self.linked(from, to) == (old(
                            self,
                        ).linked(from, to) && !(from == endpoint.word() && to == peer.word())) by {
                        }
                    }
                }
            },
        }
    }

    /// Removes a wire and its connections.
    pub fn remove_wire(&mut self, id: WireId) -> (result: Result<(), NetworkModelError>)
        requires
            old(self).wf(),
        ensures
            final(self).wf(),
            if id.value() > old(self).wire_slots() {
                &&& result == Err::<(), _>(
                    NetworkModelError::IdOutOfBound {
                        id: id.value(),
                        upper_bound: old(self).wire_slots() as usize,
                    },
                )
                &&& *final(self) == *old(self)
            } else if !old(self).wire_live(id.value()) {
                &&& result == Err::<(), _>(
                    NetworkModelError::IdNotAssigned { ty: ConnectionType::Wire, id: id.value() },
                )
                &&& *final(self) == *old(self)
            } else {
                &&& result is Ok
                &&& old(self).wire_removed(*final(self), id.value())
            },
    {
        broadcast use group_words;

        let index: usize = id.index();
        let len: usize = self.wires.len();
        if index >= len {
            return Err(NetworkModelError::IdOutOfBound { id: id.get(), upper_bound: len });
        }
        if self.wires[index].is_none() {
            return Err(
                NetworkModelError::IdNotAssigned { ty: ConnectionType::Wire, id: id.get() },
            );
        }
        let removed_ref = ConnectionRef::from(id);
        let ghost gone = removed_ref.word();
        let mut slot: Option<WireSlot> = None;
        let ghost words = self.wire_words(id.value());
        assert(self.wire_live(id.value()));
        core::mem::swap(&mut self.wires[index], &mut slot);
        let slot = slot.unwrap();
        proof {
            assert forall|w: u32| #[trigger] self.wire_live(w) == (old(self).wire_live(w) && w
                != id.value()) by {}
            assert forall|w: u32| self.wire_live(w) implies #[trigger] self.wire_words(w)
                == old(self).wire_words(w) by {
                assert(old(self).wire_live(w));
            }
            assert forall|from: u64, to: u64| #[trigger] self.linked(from, to) == (old(
                self,
            ).linked(from, to) && from != gone) by {
                if is_word(from) && !is_terminal_word(from) {
                    let w = word_id(from);
                    assert(self.wire_live(w) == (old(self).wire_live(w) && w != id.value()));
                }
            }
            assert forall|w: u32| #[trigger] self.wire_live(w) implies 1 <= w <= self.wire_slots()
                && self.wire_words(w).no_duplicates() by {
                assert(old(self).wire_live(w));
            }
            assert(self.parts_wf());
        }
        let mut next: usize = 0;
        while next < slot.len()
            invariant
                next <= slot.words().len(),
                slot.words() == words,
                words.no_duplicates(),
                gone == removed_ref.word() == wire_word(id.value()),
                id.value() != 0,
                old(self).wf(),
                old(self).wire_live(id.value()),
                words == old(self).wire_words(id.value()),
                self.parts_wf(),
                self.wire_slots() == old(self).wire_slots(),
                forall|w: u32| #[trigger]
                    self.wire_live(w) == (old(self).wire_live(w) && w != id.value()),
                old(self).same_devices(*self),
                forall|from: u64, to: u64| #[trigger]
                    self.linked(from, to) == (old(self).linked(from, to) && from != gone && !(to
                        == gone && words.take(next as int).contains(from))),
                forall|w: u32|
                    old(self).wire_live(w) && w != id.value() ==> #[trigger] self.wire_words(w)
                        == if words.take(next as int).contains(wire_word(w)) {
                        dropped(old(self).wire_words(w), gone)
                    } else {
                        old(self).wire_words(w)
                    },
            decreases slot.words().len() - next,
        {
            let ghost endpoint = words[next as int];
            proof {
                broadcast use group_words;

                assert(words.contains(endpoint));
                assert(old(self).linked(gone, endpoint));
                assert(old(self).linked(endpoint, gone));
                assert(!words.take(next as int).contains(endpoint)) by {
                    if words.take(next as int).contains(endpoint) {
                        let i = choose|i: int|
                            0 <= i < next && words.take(next as int)[i] == endpoint;
                        assert(words[i] == words[next as int]);
                    }
                }
            }
            let ghost before = *self;
            self.unlink_one_way(ConnectionRef::from_word(slot.word(next)), removed_ref);
            proof {
                let taken = words.take(next as int);
                let more = words.take(next as int + 1);
                assert(more =~= taken.push(endpoint));
                assert forall|from: u64| #[trigger] more.contains(from) == (taken.contains(from)
                    || from == endpoint) by {
                    if taken.contains(from) {
                        let i = choose|i: int| 0 <= i < taken.len() && taken[i] == from;
                        assert(more[i] == from);
                    }
                    if from == endpoint {
                        assert(more[next as int] == from);
                    }
                }
                assert forall|from: u64, to: u64| #[trigger] self.linked(from, to) == (old(
                    self,
                ).linked(from, to) && from != gone && !(to == gone && more.contains(from))) by {
                    assert(before.linked(from, to) == (old(self).linked(from, to) && from != gone
                        && !(to == gone && taken.contains(from))));
                }
                assert forall|d: u32| #[trigger] old(self).device_live(d) implies {
                    &&& self.device_model(d).definition == old(self).device_model(d).definition
                    &&& self.device_model(d).parameters == old(self).device_model(d).parameters
                    &&& self.device_model(d).terminals.len() == old(self).device_model(
                        d,
                    ).terminals.len()
                } by {
                    assert(before.device_live(d));
                }
                assert(old(self).arena().same_places(self.arena()));
            }
            next = next + 1;
        }
        proof {
            assert(words.take(words.len() as int) =~= words);
            assert forall|w: u32|
                old(self).wire_live(w) && w != id.value() implies #[trigger] self.wire_words(w)
                == dropped(old(self).wire_words(w), gone) by {
                if !words.contains(wire_word(w)) {
                    assert(!old(self).linked(gone, wire_word(w)));
                    assert(!old(self).linked(wire_word(w), gone));
                    lemma_dropped(old(self).wire_words(w), gone);
                }
            }
            assert forall|from: u64, to: u64| #[trigger] self.linked(from, to) == (old(
                self,
            ).linked(from, to) && from != gone && to != gone) by {
                if old(self).linked(from, to) && to == gone {
                    assert(old(self).linked(gone, from));
                    assert(words.contains(from));
                }
            }
            assert forall|from: u64, to: u64| #[trigger] self.linked(from, to) implies self.linked(
                to,
                from,
            ) && from != to by {
                assert(old(self).linked(from, to));
                assert(old(self).linked(to, from));
            }
        }
        Ok(())
    }

    /// Why two wires cannot be paired, if they cannot.
    pub open spec fn pair_refusal(self, wire_a: u32, wire_b: u32) -> Option<NetworkModelError> {
        let missing_a = NetworkModelError::IdNotAssigned { ty: ConnectionType::Wire, id: wire_a };
        let missing_b = NetworkModelError::IdNotAssigned { ty: ConnectionType::Wire, id: wire_b };
        if wire_a == wire_b {
            Some(NetworkModelError::WireConnectToSelf)
        } else if wire_a > self.wire_slots() {
            Some(missing_a)
        } else if wire_b > self.wire_slots() {
            Some(missing_b)
        } else if !self.wire_live(wire_a) {
            Some(missing_a)
        } else if !self.wire_live(wire_b) {
            Some(missing_b)
        } else {
            None
        }
    }

    fn check_pair(&self, wire_a: WireId, wire_b: WireId) -> (result: Result<(), NetworkModelError>)
        ensures
            match self.pair_refusal(wire_a.value(), wire_b.value()) {
                Some(error) => result == Err::<(), _>(error),
                None => result is Ok,
            },
    {
        let missing_a = NetworkModelError::IdNotAssigned {
            ty: ConnectionType::Wire,
            id: wire_a.get(),
        };
        let missing_b = NetworkModelError::IdNotAssigned {
            ty: ConnectionType::Wire,
            id: wire_b.get(),
        };
        if wire_a.get() == wire_b.get() {
            return Err(NetworkModelError::WireConnectToSelf);
        }
        if wire_a.index() >= self.wires.len() {
            return Err(missing_a);
        }
        if wire_b.index() >= self.wires.len() {
            return Err(missing_b);
        }
        if !self.has_wire(wire_a.get()) {
            return Err(missing_a);
        }
        if !self.has_wire(wire_b.get()) {
            return Err(missing_b);
        }
        Ok(())
    }

    /// Whether the wire holds the connection.
    fn holds(&self, wire: WireId, connection: ConnectionRef) -> (result: bool)
        requires
            self.wire_live(wire.value()),
        ensures
            result == self.linked(wire_word(wire.value()), connection.word()),
    {
        broadcast use group_words;

        match &self.wires[wire.index()] {
            Some(slot) => slot.contains_connection(connection),
            None => false,
        }
    }

    /// Connects two wires.
    pub fn connect_wires(&mut self, wire_a: WireId, wire_b: WireId) -> (result: Result<
        (),
        NetworkModelError,
    >)
        requires
            old(self).wf(),
        ensures
            final(self).wf(),
            match old(self).pair_refusal(wire_a.value(), wire_b.value()) {
                Some(error) => result == Err::<(), _>(error) && *final(self) == *old(self),
                None => if old(self).linked(wire_word(wire_a.value()), wire_word(wire_b.value())) {
                    result == Err::<(), _>(NetworkModelError::AlreadyConnected) && *final(self)
                        == *old(self)
                } else {
                    &&& result is Ok
                    &&& old(self).link_added(
                        *final(self),
                        wire_word(wire_a.value()),
                        wire_word(wire_b.value()),
                    )
                },
            },
    {
        broadcast use group_words;

        if let Err(error) = self.check_pair(wire_a, wire_b) {
            return Err(error);
        }
        let a_to_b = ConnectionRef::from(wire_b);
        let b_to_a = ConnectionRef::from(wire_a);
        let a_connected = self.holds(wire_a, a_to_b);
        let b_connected = self.holds(wire_b, b_to_a);
        if a_connected || b_connected {
            assert(old(self).linked(a_to_b.word(), b_to_a.word()) == old(self).linked(
                b_to_a.word(),
                a_to_b.word(),
            ));
            return Err(NetworkModelError::AlreadyConnected);
        }
        self.push_link(wire_a, a_to_b);
        let ghost mid = *self;
        self.push_link(wire_b, b_to_a);
        proof {
            assert forall|from: u64, to: u64| #[trigger] self.linked(from, to) == (old(
                self,
            ).linked(from, to) || (from == b_to_a.word() && to == a_to_b.word()) || (from
                == a_to_b.word() && to == b_to_a.word())) by {
                assert(mid.linked(from, to) == (old(self).linked(from, to) || (from
                    == b_to_a.word() && to == a_to_b.word())));
            }
            assert(!mid.linked(a_to_b.word(), b_to_a.word()));
            self.lemma_symmetric_after_adding(*old(self), b_to_a.word(), a_to_b.word());
            old(self).lemma_same_devices_step(mid, *self);
        }
        Ok(())
    }

    /// Two steps that keep the devices keep them together.
    proof fn lemma_same_devices_step(self, mid: Self, after: Self)
        requires
            self.same_devices(mid),
            mid.same_devices(after),
        ensures
            self.same_devices(after),
    {
        assert forall|d: u32| #[trigger] self.device_live(d) implies {
            &&& after.device_model(d).definition == self.device_model(d).definition
            &&& after.device_model(d).parameters == self.device_model(d).parameters
            &&& after.device_model(d).terminals.len() == self.device_model(d).terminals.len()
        } by {
            assert(mid.device_live(d));
        }
        assert forall|definitions: DefinitionRegistry| self.fits(
            definitions,
        ) implies #[trigger] after.fits(definitions) by {
            assert(mid.fits(definitions));
        }
        assert(self.arena().same_places(after.arena()));
    }

    /// A connection added at both ends keeps connections symmetric.
    proof fn lemma_symmetric_after_adding(self, before: Self, a: u64, b: u64)
        requires
            before.wf(),
            a != b,
            forall|from: u64, to: u64| #[trigger]
                self.linked(from, to) == (before.linked(from, to) || (from == a && to == b) || (from
                    == b && to == a)),
        ensures
            forall|from: u64, to: u64| #[trigger]
                self.linked(from, to) ==> self.linked(to, from) && from != to,
    {
        assert forall|from: u64, to: u64| #[trigger] self.linked(from, to) implies self.linked(
            to,
            from,
        ) && from != to by {
            if before.linked(from, to) {
                assert(before.linked(to, from));
            }
        }
    }

    /// A connection removed at both ends keeps connections symmetric.
    proof fn lemma_symmetric_after_removing(self, before: Self, a: u64, b: u64)
        requires
            before.wf(),
            forall|from: u64, to: u64| #[trigger]
                self.linked(from, to) == (before.linked(from, to) && !(from == a && to == b) && !(
                from == b && to == a)),
        ensures
            forall|from: u64, to: u64| #[trigger]
                self.linked(from, to) ==> self.linked(to, from) && from != to,
    {
        assert forall|from: u64, to: u64| #[trigger] self.linked(from, to) implies self.linked(
            to,
            from,
        ) && from != to by {
            assert(before.linked(from, to));
            assert(before.linked(to, from));
        }
    }

    /// Appends a connection to what a wire holds.
    fn push_link(&mut self, wire: WireId, connection: ConnectionRef)
        requires
            old(self).parts_wf(),
            old(self).wire_live(wire.value()),
            is_word(connection.word()),
            !old(self).linked(wire_word(wire.value()), connection.word()),
        ensures
            final(self).parts_wf(),
            old(self).same_wires(*final(self)),
            old(self).same_devices(*final(self)),
            final(self).arena() == old(self).arena(),
            final(self).wire_words(wire.value()) == old(self).wire_words(wire.value()).push(
                connection.word(),
            ),
            forall|w: u32|
                w != wire.value() && old(self).wire_live(w) ==> #[trigger] final(self).wire_words(w)
                    == old(self).wire_words(w),
            forall|from: u64, to: u64| #[trigger]
                final(self).linked(from, to) == (old(self).linked(from, to) || (from == wire_word(
                    wire.value(),
                ) && to == connection.word())),
    {
        broadcast use group_words;

        let index: usize = wire.index();
        if let Some(slot) = &mut self.wires[index] {
            slot.add_connection(connection);
        }
        proof {
            let slot = self.wires@[index as int]->Some_0;
            let words = old(self).wire_words(wire.value());
            Self::lemma_words_changed(*old(self), *self, wire.value(), slot);
            assert(slot.words() == words.push(connection.word()));
            assert forall|to: u64| #[trigger] slot.words().contains(to) == (words.contains(to) || to
                == connection.word()) by {
                if words.contains(to) {
                    let i = choose|i: int| 0 <= i < words.len() && words[i] == to;
                    assert(slot.words()[i] == to);
                }
                if to == connection.word() {
                    assert(slot.words()[words.len() as int] == to);
                }
            }
            assert(!words.contains(connection.word()));
            assert forall|w: u32| #[trigger] self.wire_live(w) implies 1 <= w <= self.wire_slots()
                && self.wire_words(w).no_duplicates() by {
                assert(old(self).wire_live(w));
            }
            assert forall|from: u64, to: u64| #[trigger] self.linked(from, to) == (old(
                self,
            ).linked(from, to) || (from == wire_word(wire.value()) && to == connection.word())) by {
            }
        }
    }

    /// Disconnects two wires.
    pub fn disconnect_wires(&mut self, wire_a: WireId, wire_b: WireId) -> (result: Result<
        (),
        NetworkModelError,
    >)
        requires
            old(self).wf(),
        ensures
            final(self).wf(),
            match old(self).pair_refusal(wire_a.value(), wire_b.value()) {
                Some(error) => result == Err::<(), _>(error) && *final(self) == *old(self),
                None => if !old(self).linked(wire_word(wire_a.value()), wire_word(wire_b.value())) {
                    result == Err::<(), _>(NetworkModelError::NotConnected) && *final(self) == *old(
                        self,
                    )
                } else {
                    &&& result is Ok
                    &&& old(self).link_removed(
                        *final(self),
                        wire_word(wire_a.value()),
                        wire_word(wire_b.value()),
                    )
                },
            },
    {
        broadcast use group_words;

        if let Err(error) = self.check_pair(wire_a, wire_b) {
            return Err(error);
        }
        let a_to_b = ConnectionRef::from(wire_b);
        let b_to_a = ConnectionRef::from(wire_a);
        let a_connected = self.holds(wire_a, a_to_b);
        let b_connected = self.holds(wire_b, b_to_a);
        if !a_connected || !b_connected {
            assert(old(self).linked(a_to_b.word(), b_to_a.word()) == old(self).linked(
                b_to_a.word(),
                a_to_b.word(),
            ));
            return Err(NetworkModelError::NotConnected);
        }
        self.unlink_one_way(b_to_a, a_to_b);
        let ghost mid = *self;
        self.unlink_one_way(a_to_b, b_to_a);
        proof {
            assert forall|from: u64, to: u64| #[trigger] self.linked(from, to) == (old(
                self,
            ).linked(from, to) && !(from == b_to_a.word() && to == a_to_b.word()) && !(from
                == a_to_b.word() && to == b_to_a.word())) by {
                assert(mid.linked(from, to) == (old(self).linked(from, to) && !(from
                    == b_to_a.word() && to == a_to_b.word())));
            }
            self.lemma_symmetric_after_removing(*old(self), b_to_a.word(), a_to_b.word());
            old(self).lemma_same_devices_step(mid, *self);
        }
        Ok(())
    }

    /// Why a terminal cannot be attached to a wire, if it cannot.
    pub open spec fn attach_refusal(self, wire: u32, device: u32, terminal: u32) -> Option<
        NetworkModelError,
    > {
        if !self.wire_live(wire) {
            Some(NetworkModelError::IdNotAssigned { ty: ConnectionType::Wire, id: wire })
        } else if !self.device_live(device) {
            Some(NetworkModelError::IdNotAssigned { ty: ConnectionType::Device, id: device })
        } else if terminal >= ConnectionRef::TYPE_BIT || terminal >= self.device_model(
            device,
        ).terminals.len() {
            Some(NetworkModelError::InvalidTerminal)
        } else if self.device_model(device).terminals[terminal as int] is Some {
            Some(NetworkModelError::TerminalAlreadyConnected)
        } else {
            None
        }
    }

    /// Attaches a free terminal to a wire.
    pub fn attach_terminal(&mut self, wire: WireId, device: DeviceId, terminal: TerminalId) -> (result:
        Result<(), NetworkModelError>)
        requires
            old(self).wf(),
        ensures
            final(self).wf(),
            match old(self).attach_refusal(wire.value(), device.value(), terminal.value()) {
                Some(error) => result == Err::<(), _>(error) && *final(self) == *old(self),
                None => {
                    &&& result is Ok
                    &&& old(self).link_added(
                        *final(self),
                        wire_word(wire.value()),
                        terminal_word(device.value(), terminal.value()),
                    )
                },
            },
    {
        broadcast use {group_words, ConnectionRef::lemma_word_injective};

        if !self.has_wire(wire.get()) {
            return Err(
                NetworkModelError::IdNotAssigned { ty: ConnectionType::Wire, id: wire.get() },
            );
        }
        if let Err(error) = self.device_arena.resident_locator(device) {
            return Err(error);
        }
        let terminal_ref = match ConnectionRef::terminal(device, terminal) {
            Some(terminal_ref) => terminal_ref,
            None => {
                return Err(NetworkModelError::InvalidTerminal);
            },
        };
        let wire_ref = ConnectionRef::from(wire);
        let number: u32 = device.get();
        if let Err(error) = self.device_arena.terminal_connection(device, terminal) {
            return Err(error);
        }
        if let Ok(Some(_)) = self.device_arena.terminal_connection(device, terminal) {
            return Err(NetworkModelError::TerminalAlreadyConnected);
        }
        let attached = self.device_arena.attach_terminal(device, terminal, wire_ref);
        let ghost mid = *self;
        let ghost tw = terminal_ref.word();
        let ghost ww = wire_ref.word();
        proof {
            Self::lemma_terminal_changed(
                *old(self),
                *self,
                device.value(),
                terminal.value(),
                Some(wire_ref),
            );
            assert(!old(self).linked(tw, ww));
            assert(!old(self).linked(ww, tw)) by {
                if old(self).linked(ww, tw) {
                    assert(old(self).linked(tw, ww));
                }
            }
            assert forall|to: u64| !old(self).linked(tw, to) by {}
            assert forall|from: u64, to: u64| #[trigger] self.linked(from, to) == (old(
                self,
            ).linked(from, to) || (from == tw && to == ww)) by {}
            assert forall|w: u32| #[trigger] self.wire_live(w) implies 1 <= w <= self.wire_slots()
                && self.wire_words(w).no_duplicates() by {
                assert(old(self).wire_live(w));
            }
            assert forall|d: u32, t: int|
                self.arena().resident(d) && 0 <= t < self.arena().device_model(d).terminals.len()
                    && #[trigger] self.arena().device_model(d).terminals[t] is Some implies t
                < 0x8000_0000 by {
                assert(old(self).device_live(d));
                assert(self.device_model(d) == self.device_model(d));
                if d != device.value() || t != terminal.value() {
                    assert(old(self).arena().device_model(d).terminals[t] is Some);
                }
            }
            assert(self.parts_wf());
        }
        self.push_link(wire, terminal_ref);
        proof {
            assert forall|from: u64, to: u64| #[trigger] self.linked(from, to) == (old(
                self,
            ).linked(from, to) || (from == ww && to == tw) || (from == tw && to == ww)) by {
                assert(mid.linked(from, to) == (old(self).linked(from, to) || (from == tw && to
                    == ww)));
            }
            self.lemma_symmetric_after_adding(*old(self), ww, tw);
            old(self).lemma_same_devices_step(mid, *self);
        }
        Ok(())
    }

    /// Why a terminal cannot be detached from a wire, if it cannot.
    pub open spec fn detach_refusal(self, wire: u32, device: u32, terminal: u32) -> Option<
        NetworkModelError,
    > {
        if !self.wire_live(wire) {
            Some(NetworkModelError::IdNotAssigned { ty: ConnectionType::Wire, id: wire })
        } else if !self.device_live(device) {
            Some(NetworkModelError::IdNotAssigned { ty: ConnectionType::Device, id: device })
        } else if terminal >= ConnectionRef::TYPE_BIT || terminal >= self.device_model(
            device,
        ).terminals.len() {
            Some(NetworkModelError::InvalidTerminal)
        } else if !self.linked(terminal_word(device, terminal), wire_word(wire)) {
            Some(NetworkModelError::NotConnected)
        } else {
            None
        }
    }

    /// Detaches a terminal from the wire that it is attached to.
    pub fn detach_terminal(&mut self, wire: WireId, device: DeviceId, terminal: TerminalId) -> (result:
        Result<(), NetworkModelError>)
        requires
            old(self).wf(),
        ensures
            final(self).wf(),
            match old(self).detach_refusal(wire.value(), device.value(), terminal.value()) {
                Some(error) => result == Err::<(), _>(error) && *final(self) == *old(self),
                None => {
                    &&& result is Ok
                    &&& old(self).link_removed(
                        *final(self),
                        wire_word(wire.value()),
                        terminal_word(device.value(), terminal.value()),
                    )
                },
            },
    {
        broadcast use {group_words, ConnectionRef::lemma_word_injective};

        if !self.has_wire(wire.get()) {
            return Err(
                NetworkModelError::IdNotAssigned { ty: ConnectionType::Wire, id: wire.get() },
            );
        }
        if let Err(error) = self.device_arena.resident_locator(device) {
            return Err(error);
        }
        let wire_ref = ConnectionRef::from(wire);
        let terminal_ref = match ConnectionRef::terminal(device, terminal) {
            Some(terminal_ref) => terminal_ref,
            None => {
                return Err(NetworkModelError::InvalidTerminal);
            },
        };
        let number: u32 = device.get();
        let connection = match self.device_arena.terminal_connection(device, terminal) {
            Ok(connection) => connection,
            Err(error) => {
                return Err(error);
            },
        };
        let attached = match connection {
            Some(current) => current.to_word() == wire_ref.to_word(),
            None => false,
        };
        if !attached || !self.holds(wire, terminal_ref) {
            assert(old(self).linked(terminal_ref.word(), wire_ref.word()) == old(self).linked(
                wire_ref.word(),
                terminal_ref.word(),
            ));
            return Err(NetworkModelError::NotConnected);
        }
        self.unlink_one_way(terminal_ref, wire_ref);
        let ghost mid = *self;
        self.unlink_one_way(wire_ref, terminal_ref);
        proof {
            let tw = terminal_ref.word();
            let ww = wire_ref.word();
            assert forall|from: u64, to: u64| #[trigger] self.linked(from, to) == (old(
                self,
            ).linked(from, to) && !(from == ww && to == tw) && !(from == tw && to == ww)) by {
                assert(mid.linked(from, to) == (old(self).linked(from, to) && !(from == tw && to
                    == ww)));
            }
            self.lemma_symmetric_after_removing(*old(self), ww, tw);
            old(self).lemma_same_devices_step(mid, *self);
        }
        Ok(())
    }

    /// Why a device cannot be added, if it cannot.
    pub open spec fn add_device_refusal(
        self,
        definitions: DefinitionRegistry,
        device: u32,
        definition: DefinitionId,
    ) -> Option<NetworkModelError> {
        let len = self.arena().spec_directory_len();
        if device > MAX_PACKED_ID {
            Some(NetworkModelError::IdExceeds31Bit { id: device })
        } else if device - 1 > len {
            Some(NetworkModelError::IdOutOfBound { id: device, upper_bound: len as usize })
        } else if self.arena().assigned(device) {
            Some(NetworkModelError::IdAlreadyAssigned { id: device })
        } else if !definitions.knows(definition.value()) {
            Some(NetworkModelError::UnknownDefinition { definition })
        } else if self.arena().insertion_choice(definition) is None
            && self.arena().spec_chunk_count() >= crate::device_arena::MAX_DEVICE_CHUNKS {
            Some(NetworkModelError::DeviceArenaExhausted)
        } else {
            None
        }
    }

    /// Where a device that can be added will be kept.
    pub open spec fn planned_place(self, definition: DefinitionId) -> (int, int) {
        match self.arena().insertion_choice(definition) {
            Some(chunk) => (chunk, self.arena().rows(chunk)),
            None => (self.arena().spec_chunk_count(), 0),
        }
    }

    /// Whether a place was chosen for the device in this network.
    pub open spec fn prepared_for(
        self,
        definitions: DefinitionRegistry,
        prepared: PreparedDeviceInsert,
    ) -> bool {
        let definition = prepared.spec_definition();
        &&& self.add_device_refusal(
            definitions,
            prepared.spec_device().value(),
            definition,
        ) is None
        &&& prepared.spec_location().spec_chunk() == self.planned_place(definition).0
        &&& prepared.spec_location().spec_row() == self.planned_place(definition).1
        &&& prepared.spec_created() == (self.arena().insertion_choice(definition) is None)
    }

    /// Chooses the place for a device, without taking it yet.
    pub fn prepare_add_device(
        &self,
        definitions: &DefinitionRegistry,
        id: DeviceId,
        definition_id: DefinitionId,
    ) -> (result: Result<PreparedDeviceInsert, NetworkModelError>)
        requires
            self.wf(),
        ensures
            match self.add_device_refusal(*definitions, id.value(), definition_id) {
                Some(error) => result == Err::<PreparedDeviceInsert, _>(error),
                None => {
                    &&& result matches Ok(prepared)
                    &&& prepared.spec_device() == id
                    &&& prepared.spec_definition() == definition_id
                    &&& self.prepared_for(*definitions, prepared)
                },
            },
    {
        if id.get() > MAX_PACKED_ID {
            return Err(NetworkModelError::IdExceeds31Bit { id: id.get() });
        }
        let len: usize = self.device_arena.directory_len();
        if id.index() > len {
            return Err(NetworkModelError::IdOutOfBound { id: id.get(), upper_bound: len });
        }
        if self.device_arena.is_assigned(id) {
            return Err(NetworkModelError::IdAlreadyAssigned { id: id.get() });
        }
        if definitions.get(definition_id).is_none() {
            return Err(NetworkModelError::UnknownDefinition { definition: definition_id });
        }
        proof {
            self.device_arena.lemma_wf();
        }
        match self.device_arena.planned_chunk(definition_id) {
            Some(chunk) => {
                assert(self.arena().rows(chunk as int) <= 64);
                let row: usize = self.device_arena.chunk_len(chunk);
                Ok(
                    PreparedDeviceInsert {
                        device: id,
                        definition: definition_id,
                        location: DeviceLocation::new(chunk as u32, row as u8),
                        created_chunk: false,
                    },
                )
            },
            None => {
                let count: usize = self.device_arena.chunk_count();
                if count >= crate::device_arena::MAX_DEVICE_CHUNKS {
                    return Err(NetworkModelError::DeviceArenaExhausted);
                }
                Ok(
                    PreparedDeviceInsert {
                        device: id,
                        definition: definition_id,
                        location: DeviceLocation::new(count as u32, 0),
                        created_chunk: true,
                    },
                )
            },
        }
    }

    /// Adds a device in the place that was chosen for it.
    pub fn commit_add_device(
        &mut self,
        definitions: &DefinitionRegistry,
        prepared: PreparedDeviceInsert,
    ) -> (result: DeviceInsertResult)
        requires
            old(self).wf(),
            old(self).fits(*definitions),
            old(self).prepared_for(*definitions, prepared),
        ensures
            final(self).wf(),
            final(self).fits(*definitions),
            old(self).device_added(
                *final(self),
                *definitions,
                prepared.spec_device().value(),
                prepared.spec_definition(),
                result,
            ),
            result.spec_chunk() == prepared.spec_location().spec_chunk(),
            result.spec_row() == prepared.spec_location().spec_row(),
            result.spec_created() == prepared.spec_created(),
    {
        let device = prepared.device;
        let definition_id = prepared.definition;
        let definition = definitions.get(definition_id).unwrap();
        proof {
            assert forall|c: int|
                0 <= c < self.arena().spec_chunk_count() && (
                #[trigger] self.arena().spec_chunk_definition(c))
                    == definition_id implies self.arena().shaped_as(c, *definition) by {
                self.arena().lemma_shaped(*definitions, c);
            }
        }
        let number: u32 = device.get();
        proof {
            self.arena().lemma_wf();
        }
        let insert = self.device_arena.insert(device, definition_id, definition).unwrap();
        proof {
            Self::lemma_device_added(
                *old(self),
                *self,
                *definitions,
                device.value(),
                definition_id,
                insert,
            );
        }
        insert
    }

    /// A device without connections leaves the connections of a network as they are.
    proof fn lemma_device_added(
        before: Self,
        after: Self,
        definitions: DefinitionRegistry,
        device: u32,
        definition: DefinitionId,
        insert: DeviceInsertResult,
    )
        requires
            before.wf(),
            after.wires == before.wires,
            after.device_arena.wf(),
            device != 0,
            !before.device_live(device),
            before.device_arena.inserted(after.device_arena, device, definition, insert),
            definitions.knows(definition.value()),
            after.device_arena@ == before.device_arena@.insert(
                device,
                blank_device(
                    definition,
                    definitions.definition(definition.value()).spec_terminals().len(),
                    definitions.definition(definition.value()).spec_parameters().len(),
                ),
            ),
        ensures
            after.wf(),
            before.device_added(after, definitions, device, definition, insert),
    {
        broadcast use group_words;

        let blank = blank_device(
            definition,
            definitions.definition(definition.value()).spec_terminals().len(),
            definitions.definition(definition.value()).spec_parameters().len(),
        );
        assert forall|d: u32| after.device_live(d) implies #[trigger] after.device_model(d) == if d
            == device {
            blank
        } else {
            before.device_model(d)
        } by {
            assert(after.device_arena@[d] == before.device_arena@.insert(device, blank)[d]);
        }
        assert forall|from: u64, to: u64| #[trigger] after.linked(from, to) == before.linked(
            from,
            to,
        ) by {
            if is_word(from) && is_terminal_word(from) {
                let d = word_id(from);
                assert(after.device_live(d) == (before.device_live(d) || d == device));
                if after.device_live(d) {
                    assert(after.device_model(d) == after.device_model(d));
                }
            }
        }
        assert forall|from: u64, to: u64| #[trigger] after.linked(from, to) implies after.linked(
            to,
            from,
        ) && from != to && is_word(to) by {
            assert(before.linked(from, to));
            assert(before.linked(to, from));
        }
        assert forall|w: u32| #[trigger] after.wire_live(w) implies 1 <= w <= after.wire_slots()
            && after.wire_words(w).no_duplicates() by {
            assert(before.wire_live(w));
        }
        assert forall|d: u32, t: int|
            after.arena().resident(d) && 0 <= t < after.arena().device_model(d).terminals.len()
                && #[trigger] after.arena().device_model(d).terminals[t] is Some implies t
            < 0x8000_0000 by {
            assert(after.device_live(d));
            assert(after.device_model(d) == after.device_model(d));
            assert(d != device);
            assert(before.arena().device_model(d).terminals[t] is Some);
        }
    }

    /// Adds a device: under the next number, or under one that is free again.
    pub fn add_device(
        &mut self,
        definitions: &DefinitionRegistry,
        id: DeviceId,
        definition_id: DefinitionId,
    ) -> (result: Result<DeviceInsertResult, NetworkModelError>)
        requires
            old(self).wf(),
            old(self).fits(*definitions),
        ensures
            final(self).wf(),
            final(self).fits(*definitions),
            match old(self).add_device_refusal(*definitions, id.value(), definition_id) {
                Some(error) => result == Err::<DeviceInsertResult, _>(error) && *final(self)
                    == *old(self),
                None => {
                    &&& result matches Ok(insert)
                    &&& insert.spec_chunk() == old(self).planned_place(definition_id).0
                    &&& insert.spec_row() == old(self).planned_place(definition_id).1
                    &&& old(self).device_added(
                        *final(self),
                        *definitions,
                        id.value(),
                        definition_id,
                        insert,
                    )
                },
            },
    {
        match self.prepare_add_device(definitions, id, definition_id) {
            Ok(prepared) => Ok(self.commit_add_device(definitions, prepared)),
            Err(error) => Err(error),
        }
    }

    /// Removes a device and its connections.
    pub fn remove_device(&mut self, id: DeviceId) -> (result: Result<
        DeviceRemoveResult,
        NetworkModelError,
    >)
        requires
            old(self).wf(),
        ensures
            final(self).wf(),
            if id.value() > old(self).arena().spec_directory_len() {
                &&& result == Err::<DeviceRemoveResult, _>(
                    NetworkModelError::IdOutOfBound {
                        id: id.value(),
                        upper_bound: old(self).arena().spec_directory_len() as usize,
                    },
                )
                &&& *final(self) == *old(self)
            } else if !old(self).device_live(id.value()) {
                &&& result == Err::<DeviceRemoveResult, _>(
                    NetworkModelError::IdNotAssigned { ty: ConnectionType::Device, id: id.value() },
                )
                &&& *final(self) == *old(self)
            } else {
                &&& result matches Ok(removal)
                &&& old(self).device_removed(*final(self), id.value(), removal)
            },
    {
        broadcast use {group_words, ConnectionRef::lemma_word_injective};

        let index: usize = id.index();
        let len: usize = self.device_arena.directory_len();
        if index >= len {
            return Err(NetworkModelError::IdOutOfBound { id: id.get(), upper_bound: len });
        }
        let view = match self.device(id) {
            Ok(view) => view,
            Err(error) => {
                return Err(error);
            },
        };
        let ghost d = id.value();
        let ghost model = self.device_model(d);
        let slots = view.terminals();
        let mut terminals: Vec<Option<ConnectionRef>> = Vec::new();
        let mut copied: usize = 0;
        while copied < slots.len()
            invariant
                copied <= slots@.len(),
                terminals@ == slots@.take(copied as int),
            decreases slots@.len() - copied,
        {
            terminals.push(slots[copied]);
            copied = copied + 1;
            assert(terminals@ =~= slots@.take(copied as int));
        }
        assert(terminals@ =~= model.terminals);
        let mut next: usize = 0;
        while next < terminals.len()
            invariant
                next <= terminals@.len(),
                d == id.value(),
                d != 0,
                index == d - 1,
                old(self).wf(),
                old(self).device_live(d),
                model == old(self).device_model(d),
                terminals@ == model.terminals,
                self.parts_wf(),
                old(self).same_wires(*self),
                old(self).same_devices(*self),
                forall|from: u64, to: u64| #[trigger]
                    self.linked(from, to) == (old(self).linked(from, to) && !(!belongs_to(from, d)
                        && belongs_to(to, d) && word_terminal(to) < next)),
                forall|w: u32|
                    old(self).wire_live(w) ==> #[trigger] self.wire_words(w) == without_terminals(
                        old(self).wire_words(w),
                        d,
                        model.terminals.take(next as int),
                    ),
            decreases terminals@.len() - next,
        {
            broadcast use {group_words, ConnectionRef::lemma_word_injective};

            let ghost before = *self;
            let ghost done = model.terminals.take(next as int);
            let ghost more = model.terminals.take(next as int + 1);
            assert(more.drop_last() =~= done);
            assert(more.last() == model.terminals[next as int]);
            if let Some(connection) = terminals[next] {
                proof {
                    assert(old(self).arena().device_model(d).terminals[next as int] is Some);
                }
                let own = match connection.as_terminal() {
                    Some((device, _)) => device.get() == id.get(),
                    None => false,
                };
                let word: u64 = connection.to_word();
                if !own {
                    let terminal = TerminalId::new(next as u32);
                    if let Some(removed_ref) = ConnectionRef::terminal(id, terminal) {
                        let ghost tw = removed_ref.word();
                        proof {
                            assert(old(self).linked(tw, word));
                            assert(old(self).linked(word, tw));
                            assert(!belongs_to(word, d));
                        }
                        self.unlink_one_way(connection, removed_ref);
                        proof {
                            assert forall|from: u64, to: u64| #[trigger] self.linked(from, to) == (
                            old(self).linked(from, to) && !(!belongs_to(from, d) && belongs_to(
                                to,
                                d,
                            ) && word_terminal(to) < next + 1)) by {
                                assert(self.linked(from, to) == (before.linked(from, to) && !(from
                                    == word && to == tw)));
                                if old(self).linked(from, to) && !belongs_to(from, d) && belongs_to(
                                    to,
                                    d,
                                ) && word_terminal(to) == next {
                                    assert(is_word(to));
                                    assert(to == tw);
                                    assert(old(self).linked(to, from));
                                }
                            }
                            old(self).lemma_same_devices_step(before, *self);
                            assert forall|w: u32|
                                old(self).wire_live(w) implies #[trigger] self.wire_words(w)
                                == without_terminals(old(self).wire_words(w), d, more) by {
                                assert(before.wire_live(w));
                                if wire_word(w) != word {
                                    assert(!before.linked(wire_word(w), tw)) by {
                                        if before.linked(wire_word(w), tw) {
                                            assert(old(self).linked(tw, wire_word(w)));
                                        }
                                    }
                                    lemma_dropped(before.wire_words(w), tw);
                                }
                            }
                        }
                    }
                } else {
                    proof {
                        let tw = terminal_word(d, next as u32);
                        assert forall|w: u32|
                            old(self).wire_live(w) implies #[trigger] self.wire_words(w)
                            == without_terminals(old(self).wire_words(w), d, more) by {
                            assert(before.wire_live(w));
                            assert(!before.linked(wire_word(w), tw)) by {
                                if before.linked(wire_word(w), tw) {
                                    assert(old(self).linked(tw, wire_word(w)));
                                }
                            }
                            lemma_dropped(before.wire_words(w), tw);
                        }
                        assert forall|from: u64, to: u64| #[trigger] self.linked(from, to) == (old(
                            self,
                        ).linked(from, to) && !(!belongs_to(from, d) && belongs_to(to, d)
                            && word_terminal(to) < next + 1)) by {
                            if old(self).linked(from, to) && !belongs_to(from, d) && belongs_to(
                                to,
                                d,
                            ) && word_terminal(to) == next {
                                assert(is_word(to));
                                assert(old(self).linked(to, from));
                            }
                        }
                    }
                }
            } else {
                proof {
                    assert forall|from: u64, to: u64| #[trigger] self.linked(from, to) == (old(
                        self,
                    ).linked(from, to) && !(!belongs_to(from, d) && belongs_to(to, d)
                        && word_terminal(to) < next + 1)) by {
                        if old(self).linked(from, to) && belongs_to(to, d) && word_terminal(to)
                            == next {
                            assert(is_word(to));
                            assert(old(self).linked(to, from));
                        }
                    }
                }
            }
            next = next + 1;
        }
        assert(model.terminals.take(terminals@.len() as int) =~= model.terminals);
        let ghost mid = *self;
        let result = self.device_arena.remove(id);
        proof {
            match result {
                Ok(removal) => {
                    Self::lemma_device_removed(*old(self), mid, *self, d, removal);
                },
                Err(_) => {},
            }
        }
        result
    }

    /// Once nothing else is linked to a device, taking it out of the arena removes it.
    proof fn lemma_device_removed(
        before: Self,
        mid: Self,
        after: Self,
        device: u32,
        removal: DeviceRemoveResult,
    )
        requires
            before.wf(),
            mid.parts_wf(),
            before.device_live(device),
            device != 0,
            before.same_wires(mid),
            before.same_devices(mid),
            forall|from: u64, to: u64| #[trigger]
                mid.linked(from, to) == (before.linked(from, to) && !(!belongs_to(from, device)
                    && belongs_to(to, device) && word_terminal(to) < before.device_model(
                    device,
                ).terminals.len())),
            forall|w: u32|
                before.wire_live(w) ==> #[trigger] mid.wire_words(w) == without_terminals(
                    before.wire_words(w),
                    device,
                    before.device_model(device).terminals,
                ),
            after.wires == mid.wires,
            after.device_arena.wf(),
            mid.device_arena.removed(after.device_arena, device, removal),
            after.device_arena@ == mid.device_arena@.remove(device),
            forall|definitions: DefinitionRegistry|
                mid.fits(definitions) ==> #[trigger] after.fits(definitions),
        ensures
            after.wf(),
            before.device_removed(after, device, removal),
    {
        broadcast use group_words;

        assert forall|d: u32| #[trigger] after.device_live(d) implies after.device_model(d)
            == mid.device_model(d) && mid.device_live(d) && before.device_live(d) by {
            assert(after.device_arena@[d] == mid.device_arena@.remove(device)[d]);
        }
        assert forall|from: u64, to: u64| #[trigger] after.linked(from, to) == (before.linked(
            from,
            to,
        ) && !belongs_to(from, device) && !belongs_to(to, device)) by {
            assert(after.linked(from, to) == (mid.linked(from, to) && !belongs_to(from, device))) by {
                if is_word(from) && is_terminal_word(from) {
                    let d = word_id(from);
                    assert(after.device_live(d) == (mid.device_live(d) && d != device));
                }
            }
            if before.linked(from, to) && belongs_to(to, device) {
                assert(is_word(to));
                assert(before.linked(to, from));
            }
        }
        assert forall|from: u64, to: u64| #[trigger] after.linked(from, to) implies after.linked(
            to,
            from,
        ) && from != to && is_word(to) by {
            assert(before.linked(from, to));
            assert(before.linked(to, from));
        }
        assert forall|w: u32| #[trigger] after.wire_live(w) == mid.wire_live(w) by {}
        assert forall|w: u32| before.wire_live(w) implies #[trigger] after.wire_words(w)
            == without_terminals(
            before.wire_words(w),
            device,
            before.device_model(device).terminals,
        ) by {
            assert(after.wire_words(w) == mid.wire_words(w));
        }
        assert forall|w: u32| #[trigger] after.wire_live(w) implies 1 <= w <= after.wire_slots()
            && after.wire_words(w).no_duplicates() by {
            assert(mid.wire_live(w));
        }
        assert forall|d: u32, t: int|
            after.arena().resident(d) && 0 <= t < after.arena().device_model(d).terminals.len()
                && #[trigger] after.arena().device_model(d).terminals[t] is Some implies t
            < 0x8000_0000 by {
            assert(after.device_live(d));
            assert(mid.arena().device_model(d).terminals[t] is Some);
        }
        assert forall|definitions: DefinitionRegistry| before.fits(
            definitions,
        ) implies #[trigger] after.fits(definitions) by {
            assert(mid.fits(definitions));
        }
        let k = before.arena().chunk_of(device);
        before.arena().lemma_wf();
        mid.arena().lemma_wf();
        assert(before.device_live(device));
        assert(mid.arena().resident(device));
        let last = before.arena().device_at(k, before.arena().rows(k) - 1);
        assert(before.arena().resident(last));
        assert(mid.arena().resident(last));
        assert(mid.arena().device_at(mid.arena().chunk_of(last), mid.arena().row_of(last))
            == last);
        assert(before.arena().removed(after.arena(), device, removal));
    }

    /// Why a parameter cannot be given a value, if it cannot.
    pub open spec fn parameter_refusal(
        self,
        definitions: DefinitionRegistry,
        device: u32,
        parameter: ParameterId,
        value: u64,
    ) -> Option<NetworkModelError> {
        let model = self.device_model(device);
        let constraints = definitions.definition(model.definition.value()).spec_parameters();
        if !self.device_live(device) {
            Some(NetworkModelError::IdNotAssigned { ty: ConnectionType::Device, id: device })
        } else if !definitions.knows(model.definition.value()) {
            Some(NetworkModelError::UnknownDefinition { definition: model.definition })
        } else if parameter.value() >= constraints.len() {
            Some(NetworkModelError::InvalidParameter { parameter })
        } else {
            match constraints[parameter.value() as int].check(value) {
                Err(source) => Some(
                    NetworkModelError::ParameterConstraintViolation { parameter, source },
                ),
                Ok(_) => if parameter.value() >= model.parameters.len() {
                    Some(NetworkModelError::InvalidParameter { parameter })
                } else {
                    None
                },
            }
        }
    }

    /// Gives a parameter of a device a value that meets the constraints on it.
    pub fn set_device_parameter(
        &mut self,
        definitions: &DefinitionRegistry,
        device: DeviceId,
        parameter: ParameterId,
        value: u64,
    ) -> (result: Result<(), NetworkModelError>)
        requires
            old(self).wf(),
        ensures
            final(self).wf(),
            old(self).same_wires(*final(self)),
            old(self).same_lists(*final(self)),
            old(self).same_links(*final(self)),
            old(self).arena().same_places(final(self).arena()),
            forall|registry: DefinitionRegistry|
                old(self).fits(registry) ==> #[trigger] final(self).fits(registry),
            match old(self).parameter_refusal(*definitions, device.value(), parameter, value) {
                Some(error) => result == Err::<(), _>(error) && *final(self) == *old(self),
                None => {
                    let model = old(self).device_model(device.value());
                    &&& result is Ok
                    &&& final(self).arena()@ == old(self).arena()@.insert(
                        device.value(),
                        DeviceModel {
                            parameters: model.parameters.update(parameter.value() as int, value),
                            ..model
                        },
                    )
                },
            },
    {
        broadcast use group_words;

        let definition_id = match self.device_definition_id(device) {
            Ok(definition_id) => definition_id,
            Err(error) => {
                return Err(error);
            },
        };
        let definition = match definitions.get(definition_id) {
            Some(definition) => definition,
            None => {
                return Err(NetworkModelError::UnknownDefinition { definition: definition_id });
            },
        };
        if parameter.index() >= definition.parameters().len() {
            return Err(NetworkModelError::InvalidParameter { parameter });
        }
        if let Err(source) = definition.parameters().get(parameter.index()).validate(value) {
            return Err(NetworkModelError::ParameterConstraintViolation { parameter, source });
        }
        assert(is_finite(value));
        let result = self.device_arena.set_parameter(device, parameter, value);
        proof {
            assert forall|d: u32| #[trigger] self.device_live(d) == old(self).device_live(d) by {}
            assert forall|d: u32| #[trigger] self.device_live(d) implies self.device_model(
                d,
            ).terminals == old(self).device_model(d).terminals by {
                assert(self.device_arena@[d] == self.device_model(d));
                assert(old(self).device_arena@[d] == old(self).device_model(d));
            }
            assert forall|w: u32| #[trigger] self.wire_live(w) == old(self).wire_live(w) by {}
            assert forall|from: u64, to: u64| #[trigger] self.linked(from, to) == old(self).linked(
                from,
                to,
            ) by {
                if is_word(from) && is_terminal_word(from) {
                    assert(self.device_live(word_id(from)) == old(self).device_live(word_id(from)));
                }
            }
            assert forall|from: u64, to: u64| #[trigger] self.linked(from, to) implies self.linked(
                to,
                from,
            ) && from != to && is_word(to) by {
                assert(old(self).linked(from, to));
                assert(old(self).linked(to, from));
            }
            assert forall|w: u32| #[trigger] self.wire_live(w) implies 1 <= w <= self.wire_slots()
                && self.wire_words(w).no_duplicates() by {
                assert(old(self).wire_live(w));
            }
            assert forall|d: u32, t: int|
                self.arena().resident(d) && 0 <= t < self.arena().device_model(d).terminals.len()
                    && #[trigger] self.arena().device_model(d).terminals[t] is Some implies t
                < 0x8000_0000 by {
                assert(self.device_live(d));
                assert(old(self).arena().device_model(d).terminals[t] is Some);
            }
        }
        result
    }
}

/// Taking out a connection that was just made gives back what was there: the wires, the devices, and
/// the connections in their order.
pub proof fn law_disconnecting_undoes_connecting(
    before: Network,
    connected: Network,
    after: Network,
    a: u64,
    b: u64,
)
    requires
        before.wf(),
        before.link_added(connected, a, b),
        connected.link_removed(after, a, b),
    ensures
        before.same_wires(after),
        before.same_devices(after),
        before.same_lists(after),
        before.same_links(after),
{
    broadcast use group_words;

    assert forall|w: u32| before.wire_live(w) implies #[trigger] after.wire_words(w)
        == before.wire_words(w) by {
        assert(connected.wire_live(w));
        let words = before.wire_words(w);
        if wire_word(w) == a || wire_word(w) == b {
            let end = if wire_word(w) == a {
                b
            } else {
                a
            };
            assert(!words.contains(end)) by {
                if words.contains(end) {
                    assert(before.linked(wire_word(w), end));
                    assert(before.linked(end, wire_word(w)));
                }
            }
            assert(connected.wire_words(w) == words.push(end));
            lemma_dropped_at(words.push(end), end, words.len() as int);
            assert(after.wire_words(w) =~= words);
        }
    }
    assert(before.arena().same_places(after.arena())) by {
        let (x, y, z) = (before.arena(), connected.arena(), after.arena());
        assert forall|c: int| 0 <= c < x.spec_chunk_count() implies #[trigger] z.rows(c) == x.rows(
            c,
        ) by {
            assert(y.rows(c) == x.rows(c));
        }
        assert forall|c: int|
            0 <= c < x.spec_chunk_count() implies #[trigger] z.spec_chunk_definition(c)
            == x.spec_chunk_definition(c) by {
            assert(y.spec_chunk_definition(c) == x.spec_chunk_definition(c));
        }
        assert forall|d: u32| #[trigger] z.resident(d) == x.resident(d) by {
            assert(y.resident(d) == x.resident(d));
        }
        assert forall|d: u32| #[trigger] z.assigned(d) == x.assigned(d) by {
            assert(y.assigned(d) == x.assigned(d));
        }
        assert forall|d: u32| x.resident(d) implies #[trigger] z.chunk_of(d) == x.chunk_of(d) by {
            assert(y.resident(d) == x.resident(d));
            assert(y.chunk_of(d) == x.chunk_of(d));
        }
        assert forall|d: u32| x.resident(d) implies #[trigger] z.row_of(d) == x.row_of(d) by {
            assert(y.resident(d) == x.resident(d));
            assert(y.row_of(d) == x.row_of(d));
        }
    }
    assert forall|w: u32| #[trigger] after.wire_live(w) == before.wire_live(w) by {
        assert(connected.wire_live(w) == before.wire_live(w));
    }
    assert forall|d: u32| #[trigger] before.device_live(d) implies {
        &&& after.device_model(d).definition == before.device_model(d).definition
        &&& after.device_model(d).parameters == before.device_model(d).parameters
        &&& after.device_model(d).terminals.len() == before.device_model(d).terminals.len()
    } by {
        assert(connected.device_live(d));
    }
    assert forall|definitions: DefinitionRegistry| before.fits(
        definitions,
    ) implies #[trigger] after.fits(definitions) by {
        assert(connected.fits(definitions));
    }
    assert forall|from: u64, to: u64| #[trigger]
        after.linked(from, to) == before.linked(from, to) by {
        assert(connected.linked(from, to) == (before.linked(from, to) || (from == a && to == b) || (
        from == b && to == a)));
        if before.linked(b, a) {
            assert(before.linked(a, b));
        }
    }
}

/// Adding a wire and taking it out again leaves the other wires, the devices, and the connections in
/// their order as they were.
pub proof fn law_removing_undoes_adding_a_wire(
    before: Network,
    added: Network,
    after: Network,
    wire: u32,
)
    requires
        before.wf(),
        before.wire_added(added, wire),
        added.wire_removed(after, wire),
    ensures
        forall|w: u32| #[trigger] after.wire_live(w) == before.wire_live(w),
        before.same_lists(after),
        before.same_links(after),
        before.same_devices(after),
{
    broadcast use group_words;

    assert forall|w: u32| before.wire_live(w) implies #[trigger] after.wire_words(w)
        == before.wire_words(w) by {
        assert(added.wire_live(w) && w != wire);
        assert(added.wire_words(w) == before.wire_words(w));
        assert(!before.wire_words(w).contains(wire_word(wire))) by {
            if before.wire_words(w).contains(wire_word(wire)) {
                assert(before.linked(wire_word(w), wire_word(wire)));
                assert(before.linked(wire_word(wire), wire_word(w)));
            }
        }
        lemma_dropped(before.wire_words(w), wire_word(wire));
    }

    assert forall|w: u32| #[trigger] after.wire_live(w) == before.wire_live(w) by {
        assert(added.wire_live(w) == (before.wire_live(w) || w == wire));
    }
    assert forall|from: u64, to: u64| #[trigger]
        after.linked(from, to) == before.linked(from, to) by {
        assert(added.linked(from, to) == before.linked(from, to));
        if before.linked(from, to) {
            assert(before.linked(to, from));
            assert(word_id(wire_word(wire)) == wire && !is_terminal_word(wire_word(wire)));
        }
    }
    assert forall|d: u32| #[trigger] before.device_live(d) implies {
        &&& after.device_model(d).definition == before.device_model(d).definition
        &&& after.device_model(d).parameters == before.device_model(d).parameters
        &&& after.device_model(d).terminals.len() == before.device_model(d).terminals.len()
    } by {
        assert(added.device_live(d));
    }
    assert forall|definitions: DefinitionRegistry| before.fits(
        definitions,
    ) implies #[trigger] after.fits(definitions) by {
        assert(added.fits(definitions));
    }
}

} // verus!
