//! The registry of device definitions.

use crate::circuit::Circuit;
use crate::definition::{DeviceBody, DeviceDefinition, PrimitiveElementKind};
use crate::ids::DefinitionId;
use vstd::prelude::*;

verus! {

/// Why a definition cannot be registered.
#[derive(Debug, Clone, Copy, PartialEq, Eq, Hash, Structural)]
pub enum RegisterDeviceError {
    DefinitionIdExhausted,
    PrimitiveRegistrationForbidden { kind: PrimitiveElementKind },
    /// More terminals than nodes; a number of terminals that does not fit is given as the largest.
    TerminalCountExceedsNodeCount { terminal_count: u32, node_count: u32 },
    UnknownDefinition { definition: DefinitionId },
}

/// The known definitions: the primitives, then the composites in the order of registration.
#[derive(Debug)]
pub struct DefinitionRegistry {
    definitions: Vec<DeviceDefinition>,
}

/// The first element, from `from` on, whose definition a registry of `count` does not hold.
pub open spec fn first_unknown(circuit: Circuit, count: int, from: int) -> Option<DefinitionId>
    decreases circuit.spec_elements().len() - from,
{
    let elements = circuit.spec_elements();
    if from >= elements.len() {
        None
    } else if elements[from].spec_definition().value() > count {
        Some(elements[from].spec_definition())
    } else {
        first_unknown(circuit, count, from + 1)
    }
}

/// The reason for which `definition` cannot be registered after `known` ones, if there is one.
pub open spec fn refusal_among(
    known: Seq<DeviceDefinition>,
    definition: DeviceDefinition,
) -> Option<RegisterDeviceError> {
    if known.len() + 1 > u32::MAX {
        Some(RegisterDeviceError::DefinitionIdExhausted)
    } else {
        match definition.spec_body() {
            DeviceBody::Primitive(kind) => Some(
                RegisterDeviceError::PrimitiveRegistrationForbidden { kind },
            ),
            DeviceBody::Composite(circuit) => {
                let terminal_count = definition.spec_terminals().len();
                if terminal_count > circuit.spec_node_count() {
                    Some(
                        RegisterDeviceError::TerminalCountExceedsNodeCount {
                            terminal_count: if terminal_count > u32::MAX {
                                u32::MAX
                            } else {
                                terminal_count as u32
                            },
                            node_count: circuit.spec_node_count(),
                        },
                    )
                } else {
                    match first_unknown(circuit, known.len() as int, 0) {
                        Some(definition) => Some(
                            RegisterDeviceError::UnknownDefinition { definition },
                        ),
                        None => None,
                    }
                }
            },
        }
    }
}

impl DefinitionRegistry {
    pub const COMPOSITE_DEFINITION_ID_BASE: u32 = 12;

    /// The definitions, in the order of their identifiers.
    pub closed spec fn spec_definitions(self) -> Seq<DeviceDefinition> {
        self.definitions@
    }

    /// Whether `id` is registered.
    pub open spec fn knows(self, id: u32) -> bool {
        1 <= id <= self.spec_definitions().len()
    }

    /// The definition registered under `id`.
    pub open spec fn definition(self, id: u32) -> DeviceDefinition {
        self.spec_definitions()[id - 1]
    }

    /// Every definition is well formed, and the primitives stand under their own identifiers.
    pub open spec fn wf(self) -> bool {
        &&& 11 <= self.spec_definitions().len() <= usize::MAX
        &&& forall|i: int|
            0 <= i < self.spec_definitions().len() ==> (#[trigger] self.spec_definitions()[i]).wf()
        &&& forall|kind: PrimitiveElementKind|
            self.spec_definitions()[#[trigger] kind.number() as int].is_primitive(kind)
    }

    /// A registry that holds the primitives.
    pub fn new() -> (result: Self)
        ensures
            result.wf(),
            result.spec_definitions().len() == 11,
    {
        let kinds = PrimitiveElementKind::all();
        let mut definitions: Vec<DeviceDefinition> = Vec::new();
        let mut index: usize = 0;
        while index < 11
            invariant
                index <= 11,
                definitions.len() == index,
                forall|i: int| 0 <= i < 11 ==> (#[trigger] kinds@[i]).number() == i,
                forall|i: int|
                    0 <= i < index ==> (#[trigger] definitions@[i]).wf()
                        && definitions@[i].is_primitive(kinds@[i]),
            decreases 11 - index,
        {
            definitions.push(kinds[index].definition());
            index = index + 1;
        }
        assert forall|kind: PrimitiveElementKind|
            definitions@[#[trigger] kind.number() as int].is_primitive(kind) by {
            let n = kind.number() as int;
            assert(kinds@[n].number() == n);
            assert(kinds@[n] == kind);
            assert(definitions@[n].is_primitive(kinds@[n]));
        }
        DefinitionRegistry { definitions }
    }

    /// The reason for which `definition` cannot be registered, if there is one.
    pub open spec fn refusal(self, definition: DeviceDefinition) -> Option<RegisterDeviceError> {
        refusal_among(self.spec_definitions(), definition)
    }

    /// Registers a composite under the next identifier.
    #[verifier::loop_isolation(false)]
    pub fn register(&mut self, definition: DeviceDefinition) -> (result: Result<
        DefinitionId,
        RegisterDeviceError,
    >)
        requires
            old(self).wf(),
            definition.wf(),
        ensures
            final(self).wf(),
            match old(self).refusal(definition) {
                Some(error) => result == Err::<DefinitionId, _>(error)
                    && final(self).spec_definitions() == old(self).spec_definitions(),
                None => {
                    &&& final(self).spec_definitions() == old(self).spec_definitions().push(
                        definition,
                    )
                    &&& result matches Ok(id)
                    &&& id.value() == final(self).spec_definitions().len()
                },
            },
    {
        let count: usize = self.definitions.len();
        if count >= u32::MAX as usize {
            return Err(RegisterDeviceError::DefinitionIdExhausted);
        }
        let id = DefinitionId::new(count as u32 + 1);
        match definition.body() {
            DeviceBody::Primitive(kind) => {
                return Err(RegisterDeviceError::PrimitiveRegistrationForbidden { kind: *kind });
            },
            DeviceBody::Composite(circuit) => {
                let terminal_count: usize = definition.terminals().len();
                if terminal_count > circuit.node_count() as usize {
                    return Err(
                        RegisterDeviceError::TerminalCountExceedsNodeCount {
                            terminal_count: if terminal_count > u32::MAX as usize {
                                u32::MAX
                            } else {
                                terminal_count as u32
                            },
                            node_count: circuit.node_count(),
                        },
                    );
                }
                let elements = circuit.elements();
                let mut index: usize = 0;
                while index < elements.len()
                    invariant
                        index <= elements.len(),
                        elements@ == circuit.spec_elements(),
                        count == self.definitions.len(),
                        first_unknown(*circuit, count as int, 0) == first_unknown(
                            *circuit,
                            count as int,
                            index as int,
                        ),
                    decreases elements.len() - index,
                {
                    let element_definition = elements[index].definition();
                    if self.get(element_definition).is_none() {
                        return Err(
                            RegisterDeviceError::UnknownDefinition {
                                definition: element_definition,
                            },
                        );
                    }
                    index = index + 1;
                }
            },
        }
        self.definitions.push(definition);
        assert(self.wf()) by {
            assert forall|i: int| 0 <= i < self.spec_definitions().len() implies (
            #[trigger] self.spec_definitions()[i]).wf() by {
                if i < count {
                    assert(self.spec_definitions()[i] == old(self).spec_definitions()[i]);
                }
            }
            assert forall|kind: PrimitiveElementKind|
                self.spec_definitions()[#[trigger] kind.number() as int].is_primitive(kind) by {
                assert(old(self).spec_definitions()[kind.number() as int].is_primitive(kind));
            }
        }
        Ok(id)
    }

    /// The definition registered under `id`.
    pub fn get(&self, id: DefinitionId) -> (result: Option<&DeviceDefinition>)
        ensures
            self.knows(id.value()) ==> (result matches Some(definition) && *definition
                == self.definition(id.value())),
            !self.knows(id.value()) ==> result is None,
            id.value() != 0,
    {
        let index: usize = id.index();
        if index < self.definitions.len() {
            Some(&self.definitions[index])
        } else {
            None
        }
    }
}

/// The known definitions after some attempts to register more.
pub open spec fn after_attempts(
    known: Seq<DeviceDefinition>,
    attempts: Seq<DeviceDefinition>,
) -> Seq<DeviceDefinition>
    decreases attempts.len(),
{
    if attempts.len() == 0 {
        known
    } else {
        let before = after_attempts(known, attempts.drop_last());
        if refusal_among(before, attempts.last()) is None {
            before.push(attempts.last())
        } else {
            before
        }
    }
}

/// The number of attempts that succeed.
pub open spec fn successes(known: Seq<DeviceDefinition>, attempts: Seq<DeviceDefinition>) -> nat
    decreases attempts.len(),
{
    if attempts.len() == 0 {
        0
    } else {
        let before = after_attempts(known, attempts.drop_last());
        successes(known, attempts.drop_last()) + if refusal_among(before, attempts.last()) is None {
            1nat
        } else {
            0
        }
    }
}

/// Whether a definition is a composite with no more terminals than nodes, all of whose elements have
/// one of the first `count` identifiers.
pub open spec fn is_sound(definition: DeviceDefinition, count: int) -> bool {
    &&& definition.spec_body() matches DeviceBody::Composite(circuit)
    &&& definition.spec_terminals().len() <= circuit.spec_node_count()
    &&& forall|i: int|
        0 <= i < circuit.spec_elements().len() ==> (
        #[trigger] circuit.spec_elements()[i]).spec_definition().value() <= count
}

proof fn lemma_first_unknown(circuit: Circuit, count: int, from: int)
    requires
        0 <= from <= circuit.spec_elements().len(),
    ensures
        first_unknown(circuit, count, from) is None <==> forall|i: int|
            from <= i < circuit.spec_elements().len() ==> (
            #[trigger] circuit.spec_elements()[i]).spec_definition().value() <= count,
    decreases circuit.spec_elements().len() - from,
{
    if from < circuit.spec_elements().len() {
        lemma_first_unknown(circuit, count, from + 1);
        let first = circuit.spec_elements()[from];
        if first.spec_definition().value() <= count {
            assert forall|i: int|
                from + 1 <= i < circuit.spec_elements().len() && (
                #[trigger] circuit.spec_elements()[i]).spec_definition().value()
                    > count implies exists|k: int|
                from <= k < circuit.spec_elements().len() && (
                #[trigger] circuit.spec_elements()[k]).spec_definition().value() > count by {
                assert(circuit.spec_elements()[i].spec_definition().value() > count);
            }
        }
    }
}

/// Whatever was tried before, a definition is registered exactly if it is a sound composite and an
/// identifier is left, and then under the identifier after those of the primitives and of the
/// definitions registered so far: failed attempts use up no identifier. Earlier identifiers keep
/// their definitions.
pub proof fn law_definitions_are_numbered_in_order(
    primitives: Seq<DeviceDefinition>,
    attempts: Seq<DeviceDefinition>,
    definition: DeviceDefinition,
)
    requires
        primitives.len() == PrimitiveElementKind::COUNT,
    ensures
        ({
            let known = after_attempts(primitives, attempts);
            let k = successes(primitives, attempts);
            let next = after_attempts(primitives, attempts.push(definition));
            let registered = known.len() + 1 <= u32::MAX && is_sound(
                definition,
                known.len() as int,
            );
            &&& known.len() == PrimitiveElementKind::COUNT + k
            &&& refusal_among(known, definition) is None <==> registered
            &&& registered ==> next == known.push(definition) && next.len()
                == PrimitiveElementKind::COUNT + k + 1
            &&& !registered ==> next == known
            &&& forall|i: int| 0 <= i < known.len() ==> #[trigger] next[i] == known[i]
        }),
    decreases attempts.len(),
{
    let known = after_attempts(primitives, attempts);
    assert(attempts.push(definition).drop_last() =~= attempts);
    if attempts.len() > 0 {
        law_definitions_are_numbered_in_order(primitives, attempts.drop_last(), definition);
    }
    if let DeviceBody::Composite(circuit) = definition.spec_body() {
        lemma_first_unknown(circuit, known.len() as int, 0);
    }
}

/// A definition that is not registered is refused for the first reason of these that holds: no
/// identifier is left, it is a primitive, it has more terminals than nodes, or it has an element of
/// an unknown definition, of which the first is told.
pub proof fn law_refused_definitions_are_told_why(
    known: Seq<DeviceDefinition>,
    definition: DeviceDefinition,
    first: int,
)
    ensures
        ({
            let refusal = refusal_among(known, definition);
            let full = known.len() >= u32::MAX;
            &&& refusal == Some(RegisterDeviceError::DefinitionIdExhausted) <==> full
            &&& !full ==> match definition.spec_body() {
                DeviceBody::Primitive(kind) => refusal == Some(
                    RegisterDeviceError::PrimitiveRegistrationForbidden { kind },
                ),
                DeviceBody::Composite(circuit) => {
                    let terminals = definition.spec_terminals().len();
                    let nodes = circuit.spec_node_count();
                    let elements = circuit.spec_elements();
                    let unknown = |i: int| elements[i].spec_definition().value() > known.len();
                    &&& terminals > nodes && terminals <= u32::MAX ==> refusal == Some(
                        RegisterDeviceError::TerminalCountExceedsNodeCount {
                            terminal_count: terminals as u32,
                            node_count: nodes,
                        },
                    )
                    &&& terminals <= nodes && 0 <= first < elements.len() && unknown(first) && (
                    forall|i: int| 0 <= i < first ==> !#[trigger] unknown(i)) ==> refusal == Some(
                        RegisterDeviceError::UnknownDefinition {
                            definition: elements[first].spec_definition(),
                        },
                    )
                    &&& terminals <= nodes && (forall|i: int|
                        0 <= i < elements.len() ==> !#[trigger] unknown(i)) ==> refusal is None
                },
            }
        }),
{
    if let DeviceBody::Composite(circuit) = definition.spec_body() {
        let elements = circuit.spec_elements();
        let unknown = |i: int| elements[i].spec_definition().value() > known.len();
        if 0 <= first < elements.len() && unknown(first) && (forall|i: int|
            0 <= i < first ==> !#[trigger] unknown(i)) {
            assert forall|i: int| 0 <= i < first implies (
            #[trigger] elements[i]).spec_definition().value() <= known.len() by {
                assert(!unknown(i));
            }
            lemma_first_unknown_is_first(circuit, known.len() as int, 0, first);
        }
        if forall|i: int| 0 <= i < elements.len() ==> !#[trigger] unknown(i) {
            assert forall|i: int| 0 <= i < elements.len() implies (
            #[trigger] elements[i]).spec_definition().value() <= known.len() by {
                assert(!unknown(i));
            }
            lemma_first_unknown(circuit, known.len() as int, 0);
        }
    }
}

proof fn lemma_first_unknown_is_first(circuit: Circuit, count: int, from: int, first: int)
    requires
        0 <= from <= first < circuit.spec_elements().len(),
        circuit.spec_elements()[first].spec_definition().value() > count,
        forall|i: int|
            from <= i < first ==> (
            #[trigger] circuit.spec_elements()[i]).spec_definition().value() <= count,
    ensures
        first_unknown(circuit, count, from) == Some(
            circuit.spec_elements()[first].spec_definition(),
        ),
    decreases first - from,
{
    if from < first {
        assert(circuit.spec_elements()[from].spec_definition().value() <= count);
        lemma_first_unknown_is_first(circuit, count, from + 1, first);
    }
}

} // verus!
