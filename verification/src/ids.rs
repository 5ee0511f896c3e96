//! Identifiers of the model and of the topology derived from it.
//!
//! One-based identifiers never hold zero; the position that belongs to one is its value less one.
//! Zero-based identifiers are plain positions.

use vstd::prelude::*;

verus! {

/// The identifier zero, which no one-based identifier can hold.
#[derive(Debug, Clone, Copy, PartialEq, Eq, Structural)]
pub struct ZeroIdError;

/// The largest identifier that fits the 31 bits left beside a type bit.
pub const MAX_PACKED_ID: u32 = 0x7FFF_FFFF;

/// A wire of a network. One-based.
#[derive(Debug, Clone, Copy, PartialEq, Eq, PartialOrd, Ord, Hash, Structural)]
pub struct WireId {
    raw: u32,
}

impl WireId {
    /// The number that the identifier holds.
    pub closed spec fn value(self) -> u32 {
        self.raw
    }

    #[verifier::type_invariant]
    spec fn non_zero(self) -> bool {
        self.raw != 0
    }

    /// The identifier with the number `id`.
    pub fn new(id: u32) -> (result: Self)
        requires
            id != 0,
        ensures
            result.value() == id,
    {
        WireId { raw: id }
    }

    /// The identifier with the number `raw`; zero is refused.
    pub fn try_from(raw: u32) -> (result: Result<Self, ZeroIdError>)
        ensures
            raw == 0 ==> result == Err::<Self, ZeroIdError>(ZeroIdError),
            raw != 0 ==> (result matches Ok(id) && id.value() == raw),
    {
        if raw == 0 {
            Err(ZeroIdError)
        } else {
            Ok(WireId { raw })
        }
    }

    /// The number that the identifier holds.
    pub fn id(self) -> (result: u32)
        ensures
            result == self.value(),
            result != 0,
    {
        proof {
            use_type_invariant(self);
        }
        self.raw
    }

    /// The number that the identifier holds.
    pub fn get(self) -> (result: u32)
        ensures
            result == self.value(),
            result != 0,
    {
        self.id()
    }

    /// The zero-based position of the identifier.
    pub fn index(self) -> (result: usize)
        ensures
            result == self.value() - 1,
            self.value() != 0,
    {
        (self.id() - 1) as usize
    }

    /// Two identifiers with one number are one identifier.
    pub broadcast proof fn lemma_value_injective(a: Self, b: Self)
        ensures
            #![trigger a.value(), b.value()]
            a.value() == b.value() ==> a == b,
    {
    }
}

/// A device of a network. One-based.
#[derive(Debug, Clone, Copy, PartialEq, Eq, PartialOrd, Ord, Hash, Structural)]
pub struct DeviceId {
    raw: u32,
}

impl DeviceId {
    /// The number that the identifier holds.
    pub closed spec fn value(self) -> u32 {
        self.raw
    }

    #[verifier::type_invariant]
    spec fn non_zero(self) -> bool {
        self.raw != 0
    }

    /// The identifier with the number `id`.
    pub fn new(id: u32) -> (result: Self)
        requires
            id != 0,
        ensures
            result.value() == id,
    {
        DeviceId { raw: id }
    }

    /// The identifier with the number `raw`; zero is refused.
    pub fn try_from(raw: u32) -> (result: Result<Self, ZeroIdError>)
        ensures
            raw == 0 ==> result == Err::<Self, ZeroIdError>(ZeroIdError),
            raw != 0 ==> (result matches Ok(id) && id.value() == raw),
    {
        if raw == 0 {
            Err(ZeroIdError)
        } else {
            Ok(DeviceId { raw })
        }
    }

    /// The number that the identifier holds.
    pub fn id(self) -> (result: u32)
        ensures
            result == self.value(),
            result != 0,
    {
        proof {
            use_type_invariant(self);
        }
        self.raw
    }

    /// The number that the identifier holds.
    pub fn get(self) -> (result: u32)
        ensures
            result == self.value(),
            result != 0,
    {
        self.id()
    }

    /// The zero-based position of the identifier.
    pub fn index(self) -> (result: usize)
        ensures
            result == self.value() - 1,
            self.value() != 0,
    {
        (self.id() - 1) as usize
    }

    /// Two identifiers with one number are one identifier.
    pub broadcast proof fn lemma_value_injective(a: Self, b: Self)
        ensures
            #![trigger a.value(), b.value()]
            a.value() == b.value() ==> a == b,
    {
    }
}

/// A registered device definition. One-based.
#[derive(Debug, Clone, Copy, PartialEq, Eq, PartialOrd, Ord, Hash, Structural)]
pub struct DefinitionId {
    raw: u32,
}

impl DefinitionId {
    /// The number that the identifier holds.
    pub closed spec fn value(self) -> u32 {
        self.raw
    }

    #[verifier::type_invariant]
    spec fn non_zero(self) -> bool {
        self.raw != 0
    }

    /// The identifier with the number `id`.
    pub fn new(id: u32) -> (result: Self)
        requires
            id != 0,
        ensures
            result.value() == id,
    {
        DefinitionId { raw: id }
    }

    /// The identifier with the number `raw`; zero is refused.
    pub fn try_from(raw: u32) -> (result: Result<Self, ZeroIdError>)
        ensures
            raw == 0 ==> result == Err::<Self, ZeroIdError>(ZeroIdError),
            raw != 0 ==> (result matches Ok(id) && id.value() == raw),
    {
        if raw == 0 {
            Err(ZeroIdError)
        } else {
            Ok(DefinitionId { raw })
        }
    }

    /// The number that the identifier holds.
    pub fn id(self) -> (result: u32)
        ensures
            result == self.value(),
            result != 0,
    {
        proof {
            use_type_invariant(self);
        }
        self.raw
    }

    /// The number that the identifier holds.
    pub fn get(self) -> (result: u32)
        ensures
            result == self.value(),
            result != 0,
    {
        self.id()
    }

    /// The zero-based position of the identifier.
    pub fn index(self) -> (result: usize)
        ensures
            result == self.value() - 1,
            self.value() != 0,
    {
        (self.id() - 1) as usize
    }

    /// Two identifiers with one number are one identifier.
    pub broadcast proof fn lemma_value_injective(a: Self, b: Self)
        ensures
            #![trigger a.value(), b.value()]
            a.value() == b.value() ==> a == b,
    {
    }
}

/// A net: wires that are connected to one another. One-based.
#[derive(Debug, Clone, Copy, PartialEq, Eq, PartialOrd, Ord, Hash, Structural)]
pub struct NetId {
    raw: u32,
}

impl NetId {
    /// The number that the identifier holds.
    pub closed spec fn value(self) -> u32 {
        self.raw
    }

    #[verifier::type_invariant]
    spec fn non_zero(self) -> bool {
        self.raw != 0
    }

    /// The identifier with the number `id`.
    pub fn new(id: u32) -> (result: Self)
        requires
            id != 0,
        ensures
            result.value() == id,
    {
        NetId { raw: id }
    }

    /// The identifier with the number `raw`; zero is refused.
    pub fn try_from(raw: u32) -> (result: Result<Self, ZeroIdError>)
        ensures
            raw == 0 ==> result == Err::<Self, ZeroIdError>(ZeroIdError),
            raw != 0 ==> (result matches Ok(id) && id.value() == raw),
    {
        if raw == 0 {
            Err(ZeroIdError)
        } else {
            Ok(NetId { raw })
        }
    }

    /// The number that the identifier holds.
    pub fn id(self) -> (result: u32)
        ensures
            result == self.value(),
            result != 0,
    {
        proof {
            use_type_invariant(self);
        }
        self.raw
    }

    /// The number that the identifier holds.
    pub fn get(self) -> (result: u32)
        ensures
            result == self.value(),
            result != 0,
    {
        self.id()
    }

    /// The zero-based position of the identifier.
    pub fn index(self) -> (result: usize)
        ensures
            result == self.value() - 1,
            self.value() != 0,
    {
        (self.id() - 1) as usize
    }

    /// Two identifiers with one number are one identifier.
    pub broadcast proof fn lemma_value_injective(a: Self, b: Self)
        ensures
            #![trigger a.value(), b.value()]
            a.value() == b.value() ==> a == b,
    {
    }
}

/// An island: device components and nets that are connected to one another. One-based.
#[derive(Debug, Clone, Copy, PartialEq, Eq, PartialOrd, Ord, Hash, Structural)]
pub struct IslandId {
    raw: u32,
}

impl IslandId {
    /// The number that the identifier holds.
    pub closed spec fn value(self) -> u32 {
        self.raw
    }

    #[verifier::type_invariant]
    spec fn non_zero(self) -> bool {
        self.raw != 0
    }

    /// The identifier with the number `id`.
    pub fn new(id: u32) -> (result: Self)
        requires
            id != 0,
        ensures
            result.value() == id,
    {
        IslandId { raw: id }
    }

    /// The identifier with the number `raw`; zero is refused.
    pub fn try_from(raw: u32) -> (result: Result<Self, ZeroIdError>)
        ensures
            raw == 0 ==> result == Err::<Self, ZeroIdError>(ZeroIdError),
            raw != 0 ==> (result matches Ok(id) && id.value() == raw),
    {
        if raw == 0 {
            Err(ZeroIdError)
        } else {
            Ok(IslandId { raw })
        }
    }

    /// The number that the identifier holds.
    pub fn id(self) -> (result: u32)
        ensures
            result == self.value(),
            result != 0,
    {
        proof {
            use_type_invariant(self);
        }
        self.raw
    }

    /// The number that the identifier holds.
    pub fn get(self) -> (result: u32)
        ensures
            result == self.value(),
            result != 0,
    {
        self.id()
    }

    /// The zero-based position of the identifier.
    pub fn index(self) -> (result: usize)
        ensures
            result == self.value() - 1,
            self.value() != 0,
    {
        (self.id() - 1) as usize
    }

    /// Two identifiers with one number are one identifier.
    pub broadcast proof fn lemma_value_injective(a: Self, b: Self)
        ensures
            #![trigger a.value(), b.value()]
            a.value() == b.value() ==> a == b,
    {
    }
}

/// A node of a circuit. Zero-based.
#[derive(Debug, Clone, Copy, PartialEq, Eq, PartialOrd, Ord, Hash, Structural)]
pub struct NodeId {
    raw: u32,
}

impl NodeId {
    /// The number that the identifier holds.
    pub closed spec fn value(self) -> u32 {
        self.raw
    }

    /// The identifier with the number `index`.
    pub fn new(index: u32) -> (result: Self)
        ensures
            result.value() == index,
    {
        NodeId { raw: index }
    }

    /// The number that the identifier holds.
    pub fn id(self) -> (result: u32)
        ensures
            result == self.value(),
    {
        self.raw
    }

    /// The number that the identifier holds, as a position.
    pub fn index(self) -> (result: usize)
        ensures
            result == self.value(),
    {
        self.raw as usize
    }

    /// Two identifiers with one number are one identifier.
    pub broadcast proof fn lemma_value_injective(a: Self, b: Self)
        ensures
            #![trigger a.value(), b.value()]
            a.value() == b.value() ==> a == b,
    {
    }
}

/// An element of a circuit. Zero-based.
#[derive(Debug, Clone, Copy, PartialEq, Eq, PartialOrd, Ord, Hash, Structural)]
pub struct ElementId {
    raw: u32,
}

impl ElementId {
    /// The number that the identifier holds.
    pub closed spec fn value(self) -> u32 {
        self.raw
    }

    /// The identifier with the number `index`.
    pub fn new(index: u32) -> (result: Self)
        ensures
            result.value() == index,
    {
        ElementId { raw: index }
    }

    /// The number that the identifier holds.
    pub fn id(self) -> (result: u32)
        ensures
            result == self.value(),
    {
        self.raw
    }

    /// The number that the identifier holds, as a position.
    pub fn index(self) -> (result: usize)
        ensures
            result == self.value(),
    {
        self.raw as usize
    }

    /// Two identifiers with one number are one identifier.
    pub broadcast proof fn lemma_value_injective(a: Self, b: Self)
        ensures
            #![trigger a.value(), b.value()]
            a.value() == b.value() ==> a == b,
    {
    }
}

/// A terminal of a device. Zero-based.
#[derive(Debug, Clone, Copy, PartialEq, Eq, PartialOrd, Ord, Hash, Structural)]
pub struct TerminalId {
    raw: u32,
}

impl TerminalId {
    /// The number that the identifier holds.
    pub closed spec fn value(self) -> u32 {
        self.raw
    }

    /// The identifier with the number `index`.
    pub fn new(index: u32) -> (result: Self)
        ensures
            result.value() == index,
    {
        TerminalId { raw: index }
    }

    /// The number that the identifier holds.
    pub fn id(self) -> (result: u32)
        ensures
            result == self.value(),
    {
        self.raw
    }

    /// The number that the identifier holds, as a position.
    pub fn index(self) -> (result: usize)
        ensures
            result == self.value(),
    {
        self.raw as usize
    }

    /// Two identifiers with one number are one identifier.
    pub broadcast proof fn lemma_value_injective(a: Self, b: Self)
        ensures
            #![trigger a.value(), b.value()]
            a.value() == b.value() ==> a == b,
    {
    }
}

/// A parameter of a definition. Zero-based.
#[derive(Debug, Clone, Copy, PartialEq, Eq, PartialOrd, Ord, Hash, Structural)]
pub struct ParameterId {
    raw: u32,
}

impl ParameterId {
    /// The number that the identifier holds.
    pub closed spec fn value(self) -> u32 {
        self.raw
    }

    /// The identifier with the number `index`.
    pub closed spec fn of(index: u32) -> Self {
        ParameterId { raw: index }
    }

    /// An identifier is the one with its number, and has the number that it was made with.
    pub proof fn lemma_of(self)
        ensures
            Self::of(self.value()) == self,
            forall|index: u32| #[trigger] Self::of(index).value() == index,
    {
    }

    /// The identifier with the number `index`.
    pub fn new(index: u32) -> (result: Self)
        ensures
            result.value() == index,
            result == Self::of(index),
    {
        ParameterId { raw: index }
    }

    /// The number that the identifier holds.
    pub fn id(self) -> (result: u32)
        ensures
            result == self.value(),
    {
        self.raw
    }

    /// The number that the identifier holds, as a position.
    pub fn index(self) -> (result: usize)
        ensures
            result == self.value(),
    {
        self.raw as usize
    }

    /// Two identifiers with one number are one identifier.
    pub broadcast proof fn lemma_value_injective(a: Self, b: Self)
        ensures
            #![trigger a.value(), b.value()]
            a.value() == b.value() ==> a == b,
    {
    }
}

/// A partition of a definition's terminals. Zero-based.
#[derive(Debug, Clone, Copy, PartialEq, Eq, PartialOrd, Ord, Hash, Structural)]
pub struct TerminalPartitionId {
    raw: u16,
}

impl TerminalPartitionId {
    /// The number that the identifier holds.
    pub closed spec fn value(self) -> u16 {
        self.raw
    }

    /// The identifier with the number `index`.
    pub fn new(index: u16) -> (result: Self)
        ensures
            result.value() == index,
    {
        TerminalPartitionId { raw: index }
    }

    /// The number that the identifier holds.
    pub fn id(self) -> (result: u16)
        ensures
            result == self.value(),
    {
        self.raw
    }

    /// The number that the identifier holds, as a position.
    pub fn index(self) -> (result: usize)
        ensures
            result == self.value(),
    {
        self.raw as usize
    }

    /// Two identifiers with one number are one identifier.
    pub broadcast proof fn lemma_value_injective(a: Self, b: Self)
        ensures
            #![trigger a.value(), b.value()]
            a.value() == b.value() ==> a == b,
    {
    }
}

} // verus!
