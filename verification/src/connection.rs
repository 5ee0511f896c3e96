//! Packed references: to the other end of a connection, and to a component of a device.

use crate::ids::{DeviceId, TerminalId, TerminalPartitionId, WireId};
use vstd::prelude::*;

verus! {

/// The reference to the wire `id`, packed.
pub closed spec fn wire_word(id: u32) -> u64 {
    (id * 0x1_0000_0000) as u64
}

/// The reference to terminal `terminal` of device `device`, packed.
pub closed spec fn terminal_word(device: u32, terminal: u32) -> u64 {
    (device * 0x1_0000_0000 + 0x8000_0000 + terminal) as u64
}

/// Whether a packed reference is one to a terminal.
pub closed spec fn is_terminal_word(word: u64) -> bool {
    word % 0x1_0000_0000 >= 0x8000_0000
}

/// The wire or device that a packed reference names.
pub closed spec fn word_id(word: u64) -> u32 {
    (word / 0x1_0000_0000) as u32
}

/// The terminal that a packed reference to one names.
pub closed spec fn word_terminal(word: u64) -> u32 {
    (word % 0x1_0000_0000 - 0x8000_0000) as u32
}

/// Whether a word is the packed form of some reference.
pub closed spec fn is_word(word: u64) -> bool {
    &&& word >= 0x1_0000_0000
    &&& word % 0x1_0000_0000 < 0x8000_0000 ==> word % 0x1_0000_0000 == 0
}

/// A packed reference to a wire unpacks to that wire.
pub broadcast proof fn lemma_wire_word(id: u32)
    ensures
        #![trigger wire_word(id)]
        word_id(wire_word(id)) == id,
        !is_terminal_word(wire_word(id)),
        id != 0 ==> is_word(wire_word(id)),
{
}

/// A packed reference to a terminal unpacks to that terminal.
pub broadcast proof fn lemma_terminal_word(device: u32, terminal: u32)
    ensures
        #![trigger terminal_word(device, terminal)]
        terminal < 0x8000_0000 ==> {
            &&& word_id(terminal_word(device, terminal)) == device
            &&& word_terminal(terminal_word(device, terminal)) == terminal
            &&& is_terminal_word(terminal_word(device, terminal))
            &&& device != 0 ==> is_word(terminal_word(device, terminal))
        },
{
}

/// A packed reference is determined by what it unpacks to.
pub broadcast proof fn lemma_word_unpacks(word: u64)
    requires
        #[trigger] is_word(word),
    ensures
        word_id(word) != 0,
        is_terminal_word(word) ==> word_terminal(word) < 0x8000_0000 && word == terminal_word(
            word_id(word),
            word_terminal(word),
        ),
        !is_terminal_word(word) ==> word == wire_word(word_id(word)),
{
}

pub broadcast group group_words {
    lemma_wire_word,
    lemma_terminal_word,
    lemma_word_unpacks,
}

/// What stands at the other end of a connection.
#[derive(Debug, Clone, Copy, PartialEq, Eq, PartialOrd, Ord, Hash, Structural)]
pub enum ConnectionType {
    Wire,
    Device,
}

/// A reference to a wire, or to a terminal of a device, in one word.
///
/// The upper half holds the number of the wire or device. The lower half holds the type bit and,
/// for a terminal, its number.
#[derive(Debug, Clone, Copy, PartialEq, Eq, PartialOrd, Ord, Hash, Structural)]
pub struct ConnectionRef {
    word: u64,
}

impl ConnectionRef {
    pub const TYPE_BIT: u32 = 0x8000_0000;

    /// The packed form.
    pub closed spec fn word(self) -> u64 {
        self.word
    }

    #[verifier::type_invariant]
    spec fn well_packed(self) -> bool {
        is_word(self.word)
    }

    /// Two references with one packed form are one reference.
    pub broadcast proof fn lemma_word_injective(a: Self, b: Self)
        ensures
            #![trigger a.word(), b.word()]
            a.word() == b.word() ==> a == b,
    {
    }

    /// The reference to a wire.
    pub fn from(id: WireId) -> (result: Self)
        ensures
            result.word() == wire_word(id.value()),
    {
        broadcast use group_words;

        ConnectionRef { word: id.get() as u64 * 0x1_0000_0000 }
    }

    /// The reference to a terminal of a device; the terminal's number has to leave the type bit
    /// free.
    pub fn terminal(device: DeviceId, terminal: TerminalId) -> (result: Option<Self>)
        ensures
            terminal.value() >= Self::TYPE_BIT ==> result is None,
            terminal.value() < Self::TYPE_BIT ==> (result matches Some(connection)
                && connection.word() == terminal_word(device.value(), terminal.value())),
    {
        broadcast use group_words;

        if terminal.id() >= Self::TYPE_BIT {
            return None;
        }
        let low: u64 = 0x8000_0000 + terminal.id() as u64;
        Some(ConnectionRef { word: device.get() as u64 * 0x1_0000_0000 + low })
    }

    /// The reference that `word` is the packed form of.
    pub(crate) fn from_word(word: u64) -> (result: Self)
        requires
            is_word(word),
        ensures
            result.word() == word,
    {
        ConnectionRef { word }
    }

    /// The packed form.
    pub(crate) fn to_word(self) -> (result: u64)
        ensures
            result == self.word(),
            is_word(result),
    {
        proof {
            use_type_invariant(self);
        }
        self.word
    }

    /// The wire, where the reference is to one.
    pub fn as_wire(self) -> (result: Option<WireId>)
        ensures
            is_terminal_word(self.word()) ==> result is None,
            !is_terminal_word(self.word()) ==> (result matches Some(wire) && wire.value() == word_id(
                self.word(),
            ) && self.word() == wire_word(wire.value())),
    {
        broadcast use group_words;

        proof {
            use_type_invariant(self);
        }
        match self.connection_type() {
            ConnectionType::Wire => Some(WireId::new((self.word / 0x1_0000_0000) as u32)),
            ConnectionType::Device => None,
        }
    }

    /// The device and terminal, where the reference is to a terminal.
    pub fn as_terminal(self) -> (result: Option<(DeviceId, TerminalId)>)
        ensures
            !is_terminal_word(self.word()) ==> result is None,
            is_terminal_word(self.word()) ==> (result matches Some((device, terminal))
                && device.value() == word_id(self.word()) && terminal.value() == word_terminal(
                self.word(),
            ) && terminal.value() < Self::TYPE_BIT && self.word() == terminal_word(
                device.value(),
                terminal.value(),
            )),
    {
        broadcast use group_words;

        proof {
            use_type_invariant(self);
        }
        match self.connection_type() {
            ConnectionType::Wire => None,
            ConnectionType::Device => Some(
                (
                    DeviceId::new((self.word / 0x1_0000_0000) as u32),
                    TerminalId::new((self.word % 0x1_0000_0000 - 0x8000_0000) as u32),
                ),
            ),
        }
    }

    /// What the reference is to.
    pub fn connection_type(self) -> (result: ConnectionType)
        ensures
            result == if is_terminal_word(self.word()) {
                ConnectionType::Device
            } else {
                ConnectionType::Wire
            },
    {
        if self.word % 0x1_0000_0000 >= 0x8000_0000 {
            ConnectionType::Device
        } else {
            ConnectionType::Wire
        }
    }
}

/// Component `partition` of device `device`, packed.
pub closed spec fn component_word(device: u32, partition: u16) -> u64 {
    (device * 0x1_0000 + partition) as u64
}

/// The device that a packed component belongs to.
pub closed spec fn component_device(word: u64) -> u32 {
    (word / 0x1_0000) as u32
}

/// The partition that a packed component stands for.
pub closed spec fn component_partition(word: u64) -> u16 {
    (word % 0x1_0000) as u16
}

/// A packed component unpacks to its device and partition.
pub broadcast proof fn lemma_component_word(device: u32, partition: u16)
    ensures
        #![trigger component_word(device, partition)]
        component_device(component_word(device, partition)) == device,
        component_partition(component_word(device, partition)) == partition,
{
}

/// One partition of the terminals of one device: what a net or an island holds of the device.
#[derive(Debug, Clone, Copy, PartialEq, Eq, PartialOrd, Ord, Hash, Structural)]
pub struct DeviceComponent {
    device: u32,
    partition: u16,
    /// Always set. The values that a `bool` leaves free keep an `Option` of a component as small
    /// as the component.
    occupied: bool,
}

impl DeviceComponent {
    /// The packed form.
    pub closed spec fn word(self) -> u64 {
        component_word(self.device, self.partition)
    }

    #[verifier::type_invariant]
    spec fn inhabited(self) -> bool {
        self.device != 0 && self.occupied
    }

    /// Component `partition` of `device`.
    pub fn new(device: DeviceId, partition: TerminalPartitionId) -> (result: Self)
        ensures
            result.word() == component_word(device.value(), partition.value()),
    {
        DeviceComponent { device: device.get(), partition: partition.id(), occupied: true }
    }

    /// The component that `word` is the packed form of.
    pub(crate) fn from_word(word: u64) -> (result: Self)
        requires
            component_device(word) != 0,
            word == component_word(component_device(word), component_partition(word)),
        ensures
            result.word() == word,
    {
        assert(word / 0x1_0000 <= u32::MAX);
        DeviceComponent {
            device: (word / 0x1_0000) as u32,
            partition: (word % 0x1_0000) as u16,
            occupied: true,
        }
    }

    /// The packed form.
    pub(crate) fn to_word(self) -> (result: u64)
        ensures
            result == self.word(),
    {
        self.device as u64 * 0x1_0000 + self.partition as u64
    }

    /// The device.
    pub fn device(self) -> (result: DeviceId)
        ensures
            result.value() == component_device(self.word()),
    {
        broadcast use lemma_component_word;

        proof {
            use_type_invariant(self);
        }
        DeviceId::new(self.device)
    }

    /// The partition.
    pub fn partition(self) -> (result: TerminalPartitionId)
        ensures
            result.value() == component_partition(self.word()),
    {
        broadcast use lemma_component_word;

        TerminalPartitionId::new(self.partition)
    }
}

} // verus!
