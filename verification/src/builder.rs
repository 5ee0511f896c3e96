//! Building composite device definitions.

use crate::circuit::{Circuit, Element, ElementModel, ValueRef};
use crate::definition::{DeviceBody, DeviceDefinition, PrimitiveParameterError};
use crate::graph::{
    connected, lemma_connected_edge, lemma_connected_self, lemma_connected_sym,
    lemma_connected_trans, lemma_connected_within,
};
use crate::ids::{DefinitionId, ElementId, NodeId, ParameterId, TerminalPartitionId};
use crate::parameter::{ParameterConstraintError, ParameterConstraints};
use crate::registry::DefinitionRegistry;
use crate::small_list::{numbers, IdList};
use crate::union_find::UnionFind;
use vstd::prelude::*;

verus! {

/// Why something cannot be added to a definition, or a definition cannot be built.
#[allow(inconsistent_fields)]
#[derive(Debug, PartialEq, Eq)]
pub enum DeviceDefinitionBuilderError {
    UnknownDefinition { definition_id: DefinitionId },
    TerminalCountMismatch { definition_id: DefinitionId, expected: Vec<NodeId>, actual: Vec<NodeId> },
    ParameterCountMismatch { definition_id: DefinitionId, expected: usize, actual: usize },
    NodeOutOfRange { terminal_index: usize, node: NodeId, node_count: u32 },
    ParameterOutOfRange { parameter_index: usize, parameter: ParameterId, parameter_count: usize },
    ParameterConstraint { parameter_index: usize, source: ParameterConstraintError },
    PrimitiveParameters { definition_id: DefinitionId, source: PrimitiveParameterError },
    UnusedInternalNode { node: NodeId },
    InternalComponentWithoutTerminal { node: NodeId },
    NodeIdExhausted,
    ParameterIdExhausted,
    ElementIdExhausted,
    DevicePartitionIdExhausted,
}

/// What an error says, with the nodes by their numbers.
#[allow(inconsistent_fields)]
pub enum Refusal {
    UnknownDefinition { definition_id: u32 },
    TerminalCountMismatch { definition_id: u32, expected: Seq<u32>, actual: Seq<u32> },
    ParameterCountMismatch { definition_id: u32, expected: int, actual: int },
    NodeOutOfRange { terminal_index: int, node: u32, node_count: u32 },
    ParameterOutOfRange { parameter_index: int, parameter: ParameterId, parameter_count: int },
    ParameterConstraint { parameter_index: int, source: ParameterConstraintError },
    PrimitiveParameters { definition_id: u32, source: PrimitiveParameterError },
    UnusedInternalNode { node: u32 },
    InternalComponentWithoutTerminal { node: u32 },
    NodeIdExhausted,
    ParameterIdExhausted,
    ElementIdExhausted,
    DevicePartitionIdExhausted,
}

impl DeviceDefinitionBuilderError {
    pub open spec fn view(self) -> Refusal {
        match self {
            DeviceDefinitionBuilderError::UnknownDefinition { definition_id } => {
                Refusal::UnknownDefinition { definition_id: definition_id.value() }
            },
            DeviceDefinitionBuilderError::TerminalCountMismatch {
                definition_id,
                expected,
                actual,
            } => {
                Refusal::TerminalCountMismatch {
                    definition_id: definition_id.value(),
                    expected: numbers(expected@, |node: NodeId| node.value()),
                    actual: numbers(actual@, |node: NodeId| node.value()),
                }
            },
            DeviceDefinitionBuilderError::ParameterCountMismatch {
                definition_id,
                expected,
                actual,
            } => {
                Refusal::ParameterCountMismatch {
                    definition_id: definition_id.value(),
                    expected: expected as int,
                    actual: actual as int,
                }
            },
            DeviceDefinitionBuilderError::NodeOutOfRange { terminal_index, node, node_count } => {
                Refusal::NodeOutOfRange {
                    terminal_index: terminal_index as int,
                    node: node.value(),
                    node_count,
                }
            },
            DeviceDefinitionBuilderError::ParameterOutOfRange {
                parameter_index,
                parameter,
                parameter_count,
            } => {
                Refusal::ParameterOutOfRange {
                    parameter_index: parameter_index as int,
                    parameter,
                    parameter_count: parameter_count as int,
                }
            },
            DeviceDefinitionBuilderError::ParameterConstraint { parameter_index, source } => {
                Refusal::ParameterConstraint { parameter_index: parameter_index as int, source }
            },
            DeviceDefinitionBuilderError::PrimitiveParameters { definition_id, source } => {
                Refusal::PrimitiveParameters { definition_id: definition_id.value(), source }
            },
            DeviceDefinitionBuilderError::UnusedInternalNode { node } => {
                Refusal::UnusedInternalNode { node: node.value() }
            },
            DeviceDefinitionBuilderError::InternalComponentWithoutTerminal { node } => {
                Refusal::InternalComponentWithoutTerminal { node: node.value() }
            },
            DeviceDefinitionBuilderError::NodeIdExhausted => Refusal::NodeIdExhausted,
            DeviceDefinitionBuilderError::ParameterIdExhausted => Refusal::ParameterIdExhausted,
            DeviceDefinitionBuilderError::ElementIdExhausted => Refusal::ElementIdExhausted,
            DeviceDefinitionBuilderError::DevicePartitionIdExhausted => {
                Refusal::DevicePartitionIdExhausted
            },
        }
    }
}

/// The first terminal, from `from` on, that stands on no node.
pub open spec fn first_outside(terminals: Seq<u32>, node_count: u32, from: int) -> Option<int>
    decreases terminals.len() - from,
{
    if from >= terminals.len() {
        None
    } else if terminals[from] >= node_count {
        Some(from)
    } else {
        first_outside(terminals, node_count, from + 1)
    }
}

/// What is wrong with the first parameter, from `from` on, that cannot be taken.
pub open spec fn value_refusal(
    values: Seq<ValueRef>,
    constraints: Seq<ParameterConstraints>,
    parameter_count: int,
    from: int,
) -> Option<Refusal>
    decreases values.len() - from,
{
    if from >= values.len() {
        None
    } else {
        match values[from] {
            ValueRef::Literal(literal) => match constraints[from].check(literal) {
                Ok(_) => value_refusal(values, constraints, parameter_count, from + 1),
                Err(source) => Some(
                    Refusal::ParameterConstraint { parameter_index: from, source },
                ),
            },
            ValueRef::Parameter(parameter) => if parameter.value() >= parameter_count {
                Some(
                    Refusal::ParameterOutOfRange {
                        parameter_index: from,
                        parameter,
                        parameter_count,
                    },
                )
            } else {
                value_refusal(values, constraints, parameter_count, from + 1)
            },
        }
    }
}

/// Whether all values are numbers.
pub open spec fn all_literal(values: Seq<ValueRef>) -> bool {
    forall|i: int| 0 <= i < values.len() ==> #[trigger] values[i] is Literal
}

/// The numbers among values that are all numbers.
pub open spec fn literals(values: Seq<ValueRef>) -> Seq<u64> {
    Seq::new(values.len(), |i: int| values[i]->Literal_0)
}

/// What is wrong with an element, if anything is.
pub open spec fn element_refusal(
    registry: DefinitionRegistry,
    node_count: u32,
    parameter_count: int,
    element: ElementModel,
) -> Option<Refusal> {
    let definition_id = element.definition;
    let definition = registry.definition(definition_id);
    let terminals = element.terminals;
    let values = element.parameters;
    let constraints = definition.spec_parameters();
    if !registry.knows(definition_id) {
        Some(Refusal::UnknownDefinition { definition_id })
    } else if terminals.len() != definition.spec_terminals().len() {
        Some(
            Refusal::TerminalCountMismatch {
                definition_id,
                expected: definition.spec_terminals(),
                actual: terminals,
            },
        )
    } else if values.len() != constraints.len() {
        Some(
            Refusal::ParameterCountMismatch {
                definition_id,
                expected: constraints.len() as int,
                actual: values.len() as int,
            },
        )
    } else if let Some(terminal_index) = first_outside(terminals, node_count, 0) {
        Some(
            Refusal::NodeOutOfRange {
                terminal_index,
                node: terminals[terminal_index],
                node_count,
            },
        )
    } else if let Some(refusal) = value_refusal(values, constraints, parameter_count, 0) {
        Some(refusal)
    } else if let DeviceBody::Primitive(kind) = definition.spec_body() {
        if all_literal(values) {
            match kind.check(literals(values)) {
                Ok(_) => None,
                Err(source) => Some(Refusal::PrimitiveParameters { definition_id, source }),
            }
        } else {
            None
        }
    } else {
        None
    }
}

/// The node that a terminal of an element stands on.
pub open spec fn pin(elements: Seq<ElementModel>, element: int, terminal: int) -> u32 {
    elements[element].terminals[terminal]
}

/// The number of terminals of an element.
pub open spec fn pins(elements: Seq<ElementModel>, element: int) -> int {
    elements[element].terminals.len() as int
}

/// The partition that a terminal of an element belongs to.
pub open spec fn pin_partition(
    registry: DefinitionRegistry,
    elements: Seq<ElementModel>,
    element: int,
    terminal: int,
) -> u32 {
    registry.definition(elements[element].definition).spec_partitions()[terminal]
}

/// Whether some element joins two nodes: terminals of one partition stand on them.
pub open spec fn nodes_joined(
    registry: DefinitionRegistry,
    elements: Seq<ElementModel>,
    u: u32,
    v: u32,
) -> bool {
    exists|e: int, i: int, j: int|
        0 <= e < elements.len() && 0 <= i < pins(elements, e) && 0 <= j < pins(elements, e)
            && #[trigger] pin(elements, e, i) == u && #[trigger] pin(elements, e, j) == v
            && pin_partition(registry, elements, e, i) == pin_partition(registry, elements, e, j)
}

/// The graph of the nodes that elements join.
pub open spec fn node_edge(registry: DefinitionRegistry, elements: Seq<ElementModel>) -> spec_fn(
    u32,
    u32,
) -> bool {
    |u: u32, v: u32| nodes_joined(registry, elements, u, v)
}

/// Whether a terminal of some element stands on a node.
pub open spec fn referenced(elements: Seq<ElementModel>, node: u32) -> bool {
    exists|e: int, i: int|
        0 <= e < elements.len() && 0 <= i < pins(elements, e) && #[trigger] pin(elements, e, i)
            == node
}

/// Whether a node is joined, directly or not, with one that an outer terminal stands on.
pub open spec fn reachable(
    registry: DefinitionRegistry,
    elements: Seq<ElementModel>,
    terminals: Seq<u32>,
    node: u32,
) -> bool {
    exists|t: int|
        0 <= t < terminals.len() && connected(
            node_edge(registry, elements),
            node,
            #[trigger] terminals[t],
        )
}

/// Whether a node is neither an outer terminal nor used by an element.
pub open spec fn unused(elements: Seq<ElementModel>, terminals: Seq<u32>, node: u32) -> bool {
    !terminals.contains(node) && !referenced(elements, node)
}

/// Whether a node is used by an element, but not joined with any outer terminal.
pub open spec fn enclosed(
    registry: DefinitionRegistry,
    elements: Seq<ElementModel>,
    terminals: Seq<u32>,
    node: u32,
) -> bool {
    referenced(elements, node) && !reachable(registry, elements, terminals, node)
}

/// The first outer terminal, from `from` on, that is joined with terminal `index`, or that one.
pub open spec fn first_joined(
    registry: DefinitionRegistry,
    elements: Seq<ElementModel>,
    terminals: Seq<u32>,
    index: int,
    from: int,
) -> int
    decreases index - from,
{
    if from >= index {
        index
    } else if connected(node_edge(registry, elements), terminals[from], terminals[index]) {
        from
    } else {
        first_joined(registry, elements, terminals, index, from + 1)
    }
}

/// How many of the first outer terminals are not joined with an earlier one.
pub open spec fn groups(
    registry: DefinitionRegistry,
    elements: Seq<ElementModel>,
    terminals: Seq<u32>,
    count: int,
) -> int
    decreases count,
{
    if count <= 0 {
        0
    } else {
        groups(registry, elements, terminals, count - 1) + if first_joined(
            registry,
            elements,
            terminals,
            count - 1,
            0,
        ) == count - 1 {
            1int
        } else {
            0
        }
    }
}

/// The partition of an outer terminal: joined terminals share one, and they are numbered in the
/// order in which they first occur.
pub open spec fn partition_of(
    registry: DefinitionRegistry,
    elements: Seq<ElementModel>,
    terminals: Seq<u32>,
    index: int,
) -> int {
    groups(
        registry,
        elements,
        terminals,
        first_joined(registry, elements, terminals, index, 0),
    )
}

/// A composite device definition in the making.
pub struct DeviceDefinitionBuilder<'a> {
    registry: &'a DefinitionRegistry,
    terminals: Vec<NodeId>,
    param_constraints: Vec<ParameterConstraints>,
    node_count: u32,
    elements: Vec<Element>,
}

fn nodes_of(list: &IdList) -> (result: Vec<NodeId>)
    ensures
        numbers(result@, |node: NodeId| node.value()) == list@,
{
    let mut nodes: Vec<NodeId> = Vec::new();
    let mut index: usize = 0;
    while index < list.len()
        invariant
            index <= list@.len(),
            nodes@.len() == index,
            forall|i: int| 0 <= i < index ==> (#[trigger] nodes@[i]).value() == list@[i],
        decreases list@.len() - index,
    {
        nodes.push(NodeId::new(list.get(index)));
        index = index + 1;
    }
    assert(numbers(nodes@, |node: NodeId| node.value()) =~= list@);
    nodes
}

impl<'a> DeviceDefinitionBuilder<'a> {
    pub closed spec fn spec_registry(self) -> DefinitionRegistry {
        *self.registry
    }

    /// The numbers of the nodes that the outer terminals stand on.
    pub closed spec fn spec_terminals(self) -> Seq<u32> {
        numbers(self.terminals@, |node: NodeId| node.value())
    }

    pub closed spec fn spec_parameters(self) -> Seq<ParameterConstraints> {
        self.param_constraints@
    }

    pub closed spec fn spec_node_count(self) -> u32 {
        self.node_count
    }

    pub closed spec fn spec_elements(self) -> Seq<ElementModel> {
        Seq::new(self.elements@.len(), |i: int| self.elements@[i]@)
    }

    /// Terminals stand on nodes, and elements are used as their definitions say.
    pub open spec fn wf(self) -> bool {
        &&& self.spec_registry().wf()
        &&& self.spec_terminals().no_duplicates()
        &&& forall|t: int|
            0 <= t < self.spec_terminals().len() ==> #[trigger] self.spec_terminals()[t]
                < self.spec_node_count()
        &&& forall|e: int|
            0 <= e < self.spec_elements().len() ==> {
                let element = #[trigger] self.spec_elements()[e];
                let definition = self.spec_registry().definition(
                    element.definition,
                );
                &&& self.spec_registry().knows(element.definition)
                &&& element.terminals.len() == definition.spec_terminals().len()
                &&& first_outside(element.terminals, self.spec_node_count(), 0) is None
            }
    }

    /// Nothing yet.
    pub fn new(definition_registry: &'a DefinitionRegistry) -> (result: Self)
        requires
            definition_registry.wf(),
        ensures
            result.wf(),
            result.spec_registry() == *definition_registry,
            result.spec_terminals() == Seq::<u32>::empty(),
            result.spec_parameters() == Seq::<ParameterConstraints>::empty(),
            result.spec_node_count() == 0,
            result.spec_elements() == Seq::<ElementModel>::empty(),
    {
        let result = DeviceDefinitionBuilder {
            registry: definition_registry,
            terminals: Vec::new(),
            param_constraints: Vec::new(),
            node_count: 0,
            elements: Vec::new(),
        };
        assert(result.spec_terminals() =~= Seq::<u32>::empty());
        result
    }

    /// Whether `after` has the same registry, parameters and elements.
    pub open spec fn same_contents(self, after: Self) -> bool {
        &&& after.spec_registry() == self.spec_registry()
        &&& after.spec_parameters() == self.spec_parameters()
        &&& after.spec_elements() == self.spec_elements()
    }

    /// Adds an inner node.
    pub fn add_node(&mut self) -> (result: Result<NodeId, DeviceDefinitionBuilderError>)
        requires
            old(self).wf(),
        ensures
            final(self).wf(),
            old(self).same_contents(*final(self)),
            final(self).spec_terminals() == old(self).spec_terminals(),
            match result {
                Ok(node) => {
                    &&& old(self).spec_node_count() < u32::MAX
                    &&& node.value() == old(self).spec_node_count()
                    &&& final(self).spec_node_count() == old(self).spec_node_count() + 1
                },
                Err(error) => {
                    &&& old(self).spec_node_count() == u32::MAX
                    &&& error@ == Refusal::NodeIdExhausted
                    &&& final(self).spec_node_count() == old(self).spec_node_count()
                },
            },
    {
        if self.node_count == u32::MAX {
            return Err(DeviceDefinitionBuilderError::NodeIdExhausted);
        }
        let node = NodeId::new(self.node_count);
        self.node_count = self.node_count + 1;
        proof {
            self.lemma_more_nodes(*old(self));
        }
        Ok(node)
    }

    /// With more nodes, everything still stands on nodes.
    proof fn lemma_more_nodes(self, before: Self)
        requires
            before.wf(),
            before.same_contents(self),
            self.spec_node_count() >= before.spec_node_count(),
        ensures
            forall|e: int|
                0 <= e < self.spec_elements().len() ==> {
                    let element = #[trigger] self.spec_elements()[e];
                    let definition = self.spec_registry().definition(
                        element.definition,
                    );
                    &&& self.spec_registry().knows(element.definition)
                    &&& element.terminals.len() == definition.spec_terminals().len()
                    &&& first_outside(element.terminals, self.spec_node_count(), 0) is None
                },
    {
        assert forall|e: int| 0 <= e < self.spec_elements().len() implies {
            let element = #[trigger] self.spec_elements()[e];
            let definition = self.spec_registry().definition(element.definition);
            &&& self.spec_registry().knows(element.definition)
            &&& element.terminals.len() == definition.spec_terminals().len()
            &&& first_outside(element.terminals, self.spec_node_count(), 0) is None
        } by {
            let element = before.spec_elements()[e];
            lemma_none_outside(element.terminals, before.spec_node_count(), 0);
            lemma_all_inside(element.terminals, self.spec_node_count(), 0);
        }
    }

    /// Adds a node with an outer terminal.
    pub fn add_terminal(&mut self) -> (result: Result<NodeId, DeviceDefinitionBuilderError>)
        requires
            old(self).wf(),
        ensures
            final(self).wf(),
            old(self).same_contents(*final(self)),
            match result {
                Ok(node) => {
                    &&& old(self).spec_node_count() < u32::MAX
                    &&& node.value() == old(self).spec_node_count()
                    &&& final(self).spec_node_count() == old(self).spec_node_count() + 1
                    &&& final(self).spec_terminals() == old(self).spec_terminals().push(
                        node.value(),
                    )
                },
                Err(error) => {
                    &&& old(self).spec_node_count() == u32::MAX
                    &&& error@ == Refusal::NodeIdExhausted
                    &&& final(self).spec_node_count() == old(self).spec_node_count()
                    &&& final(self).spec_terminals() == old(self).spec_terminals()
                },
            },
    {
        if self.node_count == u32::MAX {
            return Err(DeviceDefinitionBuilderError::NodeIdExhausted);
        }
        let node = NodeId::new(self.node_count);
        self.node_count = self.node_count + 1;
        self.terminals.push(node);
        proof {
            assert(self.spec_terminals() =~= old(self).spec_terminals().push(node.value()));
            self.lemma_more_nodes(*old(self));
            assert(self.spec_terminals().no_duplicates()) by {
                assert forall|i: int|
                    0 <= i < old(self).spec_terminals().len() implies #[trigger] old(
                    self,
                ).spec_terminals()[i] < node.value() by {}
            }
        }
        Ok(node)
    }

    /// Adds a parameter.
    pub fn add_parameter(&mut self, parameter: ParameterConstraints) -> (result: Result<
        ParameterId,
        DeviceDefinitionBuilderError,
    >)
        requires
            old(self).wf(),
        ensures
            final(self).wf(),
            final(self).spec_registry() == old(self).spec_registry(),
            final(self).spec_terminals() == old(self).spec_terminals(),
            final(self).spec_node_count() == old(self).spec_node_count(),
            final(self).spec_elements() == old(self).spec_elements(),
            match result {
                Ok(id) => {
                    &&& old(self).spec_parameters().len() <= u32::MAX
                    &&& id.value() == old(self).spec_parameters().len()
                    &&& final(self).spec_parameters() == old(self).spec_parameters().push(parameter)
                },
                Err(error) => {
                    &&& old(self).spec_parameters().len() > u32::MAX
                    &&& error@ == Refusal::ParameterIdExhausted
                    &&& final(self).spec_parameters() == old(self).spec_parameters()
                },
            },
    {
        let count: usize = self.param_constraints.len();
        if count > u32::MAX as usize {
            return Err(DeviceDefinitionBuilderError::ParameterIdExhausted);
        }
        self.param_constraints.push(parameter);
        Ok(ParameterId::new(count as u32))
    }

    /// Adds an element.
    pub fn add_element(&mut self, element: Element) -> (result: Result<
        ElementId,
        DeviceDefinitionBuilderError,
    >)
        requires
            old(self).wf(),
        ensures
            final(self).wf(),
            final(self).spec_registry() == old(self).spec_registry(),
            final(self).spec_terminals() == old(self).spec_terminals(),
            final(self).spec_parameters() == old(self).spec_parameters(),
            final(self).spec_node_count() == old(self).spec_node_count(),
            match element_refusal(
                old(self).spec_registry(),
                old(self).spec_node_count(),
                old(self).spec_parameters().len() as int,
                element@,
            ) {
                Some(refusal) => {
                    &&& result matches Err(error)
                    &&& error@ == refusal
                    &&& final(self).spec_elements() == old(self).spec_elements()
                },
                None => if old(self).spec_elements().len() > u32::MAX {
                    &&& result matches Err(error)
                    &&& error@ == Refusal::ElementIdExhausted
                    &&& final(self).spec_elements() == old(self).spec_elements()
                } else {
                    &&& result matches Ok(id)
                    &&& id.value() == old(self).spec_elements().len()
                    &&& final(self).spec_elements() == old(self).spec_elements().push(element@)
                },
            },
    {
        match self.validate_element(&element) {
            Ok(_) => {},
            Err(error) => {
                return Err(error);
            },
        }
        let count: usize = self.elements.len();
        if count > u32::MAX as usize {
            return Err(DeviceDefinitionBuilderError::ElementIdExhausted);
        }
        self.elements.push(element);
        proof {
            assert forall|e: int| 0 <= e < self.spec_elements().len() implies {
                let element = #[trigger] self.spec_elements()[e];
                let definition = self.spec_registry().definition(
                    element.definition,
                );
                &&& self.spec_registry().knows(element.definition)
                &&& element.terminals.len() == definition.spec_terminals().len()
                &&& first_outside(element.terminals, self.spec_node_count(), 0) is None
            } by {
                if e < count {
                    assert(self.spec_elements()[e] == old(self).spec_elements()[e]);
                }
            }
        }
        Ok(ElementId::new(count as u32))
    }

    /// Tells what is wrong with an element, if anything is.
    #[verifier::loop_isolation(false)]
    fn validate_element(&self, element: &Element) -> (result: Result<
        (),
        DeviceDefinitionBuilderError,
    >)
        requires
            self.wf(),
        ensures
            match element_refusal(
                self.spec_registry(),
                self.spec_node_count(),
                self.spec_parameters().len() as int,
                element@,
            ) {
                Some(refusal) => result matches Err(error) && error@ == refusal,
                None => result is Ok,
            },
    {
        let definition_id = element.definition();
        let definition = match self.registry.get(definition_id) {
            Some(definition) => definition,
            None => {
                return Err(DeviceDefinitionBuilderError::UnknownDefinition { definition_id });
            },
        };
        let definition_terminals = definition.terminals();
        let element_terminals = element.terminals();
        if element_terminals.len() != definition_terminals.len() {
            return Err(
                DeviceDefinitionBuilderError::TerminalCountMismatch {
                    definition_id,
                    expected: nodes_of(definition_terminals),
                    actual: nodes_of(element_terminals),
                },
            );
        }
        let definition_constraints = definition.parameters();
        let element_parameters = element.parameters();
        if element_parameters.len() != definition_constraints.len() {
            return Err(
                DeviceDefinitionBuilderError::ParameterCountMismatch {
                    definition_id,
                    expected: definition_constraints.len(),
                    actual: element_parameters.len(),
                },
            );
        }
        let ghost terminals = element.spec_terminals();
        let ghost values = element.spec_parameters();
        let ghost constraints = definition.spec_parameters();
        let mut terminal_index: usize = 0;
        while terminal_index < element_terminals.len()
            invariant
                terminal_index <= terminals.len(),
                first_outside(terminals, self.node_count, 0) == first_outside(
                    terminals,
                    self.node_count,
                    terminal_index as int,
                ),
            decreases terminals.len() - terminal_index,
        {
            let node: u32 = element_terminals.get(terminal_index);
            if node >= self.node_count {
                return Err(
                    DeviceDefinitionBuilderError::NodeOutOfRange {
                        terminal_index,
                        node: NodeId::new(node),
                        node_count: self.node_count,
                    },
                );
            }
            terminal_index = terminal_index + 1;
        }
        let parameter_count: usize = self.param_constraints.len();
        let mut parameter_index: usize = 0;
        while parameter_index < element_parameters.len()
            invariant
                parameter_index <= values.len(),
                value_refusal(values, constraints, parameter_count as int, 0) == value_refusal(
                    values,
                    constraints,
                    parameter_count as int,
                    parameter_index as int,
                ),
            decreases values.len() - parameter_index,
        {
            match element_parameters.get(parameter_index) {
                ValueRef::Literal(literal) => {
                    match definition_constraints.get(parameter_index).validate(literal) {
                        Ok(_) => {},
                        Err(source) => {
                            return Err(
                                DeviceDefinitionBuilderError::ParameterConstraint {
                                    parameter_index,
                                    source,
                                },
                            );
                        },
                    }
                },
                ValueRef::Parameter(parameter) => {
                    if parameter.index() >= parameter_count {
                        return Err(
                            DeviceDefinitionBuilderError::ParameterOutOfRange {
                                parameter_index,
                                parameter,
                                parameter_count,
                            },
                        );
                    }
                },
            }
            parameter_index = parameter_index + 1;
        }
        if let DeviceBody::Primitive(kind) = definition.body() {
            let mut parameters: Vec<u64> = Vec::new();
            let mut literal = true;
            let mut index: usize = 0;
            while literal && index < element_parameters.len()
                invariant
                    index <= values.len(),
                    literal ==> parameters@.len() == index,
                    literal ==> forall|i: int|
                        0 <= i < index ==> #[trigger] values[i] == ValueRef::Literal(parameters@[i]),
                    !literal ==> !all_literal(values),
                decreases values.len() - index,
            {
                match element_parameters.get(index) {
                    ValueRef::Literal(value) => {
                        parameters.push(value);
                    },
                    ValueRef::Parameter(_) => {
                        assert(!(values[index as int] is Literal));
                        literal = false;
                    },
                }
                index = index + 1;
            }
            if literal {
                assert(parameters@ =~= literals(values));
                match kind.validate_parameters(parameters.as_slice()) {
                    Ok(_) => {},
                    Err(source) => {
                        return Err(
                            DeviceDefinitionBuilderError::PrimitiveParameters {
                                definition_id,
                                source,
                            },
                        );
                    },
                }
            }
        }
        Ok(())
    }
}

/// Where no terminal is outside, each stands on a node.
proof fn lemma_none_outside(terminals: Seq<u32>, node_count: u32, from: int)
    requires
        0 <= from,
        first_outside(terminals, node_count, from) is None,
    ensures
        forall|t: int| from <= t < terminals.len() ==> #[trigger] terminals[t] < node_count,
    decreases terminals.len() - from,
{
    if from < terminals.len() {
        lemma_none_outside(terminals, node_count, from + 1);
    }
}

/// Where each terminal stands on a node, none is outside.
proof fn lemma_all_inside(terminals: Seq<u32>, node_count: u32, from: int)
    requires
        0 <= from,
        forall|t: int| from <= t < terminals.len() ==> #[trigger] terminals[t] < node_count,
    ensures
        first_outside(terminals, node_count, from) is None,
    decreases terminals.len() - from,
{
    if from < terminals.len() {
        lemma_all_inside(terminals, node_count, from + 1);
    }
}

/// Whether nodes in one set are joined.
spec fn sound(
    registry: DefinitionRegistry,
    elements: Seq<ElementModel>,
    sets: UnionFind,
) -> bool {
    forall|x: u32, y: u32|
        #![trigger sets.root(x as int), sets.root(y as int)]
        x < sets.spec_len() && y < sets.spec_len() && sets.root(x as int) == sets.root(y as int)
            ==> connected(node_edge(registry, elements), x, y)
}

/// Whether the nodes that the first terminals of an element join are in one set.
spec fn joined_upto(
    registry: DefinitionRegistry,
    elements: Seq<ElementModel>,
    sets: UnionFind,
    element: int,
    upto: int,
) -> bool {
    forall|i: int, j: int|
        #![trigger pin(elements, element, i), pin(elements, element, j)]
        0 <= i < upto && 0 <= j < upto && pin_partition(registry, elements, element, i)
            == pin_partition(registry, elements, element, j) ==> sets.root(
            pin(elements, element, i) as int,
        ) == sets.root(pin(elements, element, j) as int)
}

/// Whether nodes that are in one set stay so.
spec fn coarser(before: UnionFind, after: UnionFind) -> bool {
    &&& after.spec_len() == before.spec_len()
    &&& forall|x: int, y: int|
        #![trigger after.root(x), after.root(y)]
        0 <= x < before.spec_len() && 0 <= y < before.spec_len() && before.root(x) == before.root(y)
            ==> after.root(x) == after.root(y)
}

/// Joined nodes are joined both ways.
proof fn lemma_node_edge_sym(registry: DefinitionRegistry, elements: Seq<ElementModel>)
    ensures
        forall|u: u32, v: u32| #[trigger]
            node_edge(registry, elements)(u, v) ==> node_edge(registry, elements)(v, u),
{
    assert forall|u: u32, v: u32| #[trigger]
        node_edge(registry, elements)(u, v) implies node_edge(registry, elements)(v, u) by {
        let (e, i, j) = choose|e: int, i: int, j: int|
            0 <= e < elements.len() && 0 <= i < pins(elements, e) && 0 <= j < pins(elements, e)
                && #[trigger] pin(elements, e, i) == u && #[trigger] pin(elements, e, j) == v
                && pin_partition(registry, elements, e, i) == pin_partition(
                registry,
                elements,
                e,
                j,
            );
        assert(pin(elements, e, j) == v && pin(elements, e, i) == u);
    }
}

/// Joining the sets of two joined nodes keeps the sets sound.
proof fn lemma_sound_union(
    registry: DefinitionRegistry,
    elements: Seq<ElementModel>,
    before: UnionFind,
    after: UnionFind,
    a: u32,
    b: u32,
)
    requires
        sound(registry, elements, before),
        after.spec_len() == before.spec_len(),
        a < before.spec_len(),
        b < before.spec_len(),
        node_edge(registry, elements)(a, b),
        forall|x: int, y: int|
            #![trigger after.root(x), after.root(y)]
            0 <= x < before.spec_len() && 0 <= y < before.spec_len() ==> (after.root(x)
                == after.root(y)) == {
                ||| before.root(x) == before.root(y)
                ||| before.root(x) == before.root(a as int) && before.root(y) == before.root(
                    b as int,
                )
                ||| before.root(x) == before.root(b as int) && before.root(y) == before.root(
                    a as int,
                )
            },
    ensures
        sound(registry, elements, after),
{
    let edge = node_edge(registry, elements);
    lemma_node_edge_sym(registry, elements);
    lemma_connected_edge(edge, a, b);
    lemma_connected_edge(edge, b, a);
    assert forall|x: u32, y: u32|
        #![trigger after.root(x as int), after.root(y as int)]
        x < after.spec_len() && y < after.spec_len() && after.root(x as int) == after.root(
            y as int,
        ) implies connected(edge, x, y) by {
        if before.root(x as int) == before.root(y as int) {
            assert(connected(edge, x, y));
        } else {
            let (p, q) = if before.root(x as int) == before.root(a as int) && before.root(y as int)
                == before.root(b as int) {
                (a, b)
            } else {
                (b, a)
            };
            assert(connected(edge, x, p));
            assert(connected(edge, q, y));
            lemma_connected_trans(edge, x, p, q);
            lemma_connected_trans(edge, x, q, y);
        }
    }
}

/// Once the nodes of every element are in sets as it joins them, the sets are what is joined.
proof fn lemma_sets_complete(
    registry: DefinitionRegistry,
    elements: Seq<ElementModel>,
    sets: UnionFind,
    x: u32,
    y: u32,
)
    requires
        sound(registry, elements, sets),
        x < sets.spec_len(),
        y < sets.spec_len(),
        forall|e: int|
            0 <= e < elements.len() ==> #[trigger] joined_upto(
                registry,
                elements,
                sets,
                e,
                pins(elements, e),
            ),
        forall|e: int, i: int|
            0 <= e < elements.len() && 0 <= i < pins(elements, e) ==> #[trigger] pin(elements, e, i)
                < sets.spec_len(),
    ensures
        sets.root(x as int) == sets.root(y as int) <==> connected(
            node_edge(registry, elements),
            x,
            y,
        ),
{
    let edge = node_edge(registry, elements);
    if connected(edge, x, y) {
        let within = |n: u32| sets.root(n as int) == sets.root(x as int);
        assert forall|u: u32, v: u32| within(u) && #[trigger] edge(u, v) implies within(v) && edge(
            u,
            v,
        ) by {
            let (e, i, j) = choose|e: int, i: int, j: int|
                0 <= e < elements.len() && 0 <= i < pins(elements, e) && 0 <= j < pins(elements, e)
                    && #[trigger] pin(elements, e, i) == u && #[trigger] pin(elements, e, j) == v
                    && pin_partition(registry, elements, e, i) == pin_partition(
                    registry,
                    elements,
                    e,
                    j,
                );
            assert(joined_upto(registry, elements, sets, e, pins(elements, e)));
            assert(sets.root(pin(elements, e, i) as int) == sets.root(pin(elements, e, j) as int));
        }
        lemma_connected_within(edge, edge, within, x, y);
    }
}

impl<'a> DeviceDefinitionBuilder<'a> {
    /// Every terminal of every element stands on a node and has a partition.
    proof fn lemma_pins(self, e: int)
        requires
            self.wf(),
            0 <= e < self.spec_elements().len(),
        ensures
            forall|i: int|
                0 <= i < pins(self.spec_elements(), e) ==> #[trigger] pin(
                    self.spec_elements(),
                    e,
                    i,
                ) < self.spec_node_count(),
            pins(self.spec_elements(), e) == self.spec_registry().definition(
                self.spec_elements()[e].definition,
            ).spec_partitions().len(),
    {
        let element = self.spec_elements()[e];
        lemma_none_outside(element.terminals, self.spec_node_count(), 0);
        let id = element.definition;
        assert(self.spec_registry().spec_definitions()[id - 1].wf());
        assert forall|i: int| 0 <= i < pins(self.spec_elements(), e) implies #[trigger] pin(
            self.spec_elements(),
            e,
            i,
        ) < self.spec_node_count() by {
            assert(element.terminals[i] < self.spec_node_count());
        }
    }

    /// Marks the nodes of an element, and puts those that it joins into one set.
    #[verifier::loop_isolation(false)]
    #[verifier::spinoff_prover]
    #[verifier::rlimit(40)]
    fn join_element(&self, e: usize, sets: &mut UnionFind, marks: &mut Vec<bool>)
        requires
            self.wf(),
            e < self.spec_elements().len(),
            old(sets).wf(),
            old(sets).spec_len() == self.spec_node_count(),
            old(marks)@.len() == self.spec_node_count(),
            sound(self.spec_registry(), self.spec_elements(), *old(sets)),
        ensures
            final(sets).wf(),
            coarser(*old(sets), *final(sets)),
            sound(self.spec_registry(), self.spec_elements(), *final(sets)),
            joined_upto(
                self.spec_registry(),
                self.spec_elements(),
                *final(sets),
                e as int,
                pins(self.spec_elements(), e as int),
            ),
            final(marks)@.len() == old(marks)@.len(),
            forall|n: int|
                0 <= n < old(marks)@.len() ==> (#[trigger] final(marks)@[n] <==> (old(marks)@[n]
                    || exists|i: int|
                    0 <= i < pins(self.spec_elements(), e as int) && #[trigger] pin(
                        self.spec_elements(),
                        e as int,
                        i,
                    ) == n)),
    {
        let ghost registry = self.spec_registry();
        let ghost elements = self.spec_elements();
        let ghost at = e as int;
        proof {
            self.lemma_pins(at);
        }
        let element = &self.elements[e];
        let definition = self.registry.get(element.definition()).unwrap();
        let terminals = element.terminals();
        let partitions = definition.terminal_partitions();
        let count: usize = terminals.len();
        let mut index: usize = 0;
        while index < count
            invariant
                index <= count,
                marks@.len() == old(marks)@.len(),
                forall|n: int|
                    0 <= n < old(marks)@.len() ==> (#[trigger] marks@[n] <==> (old(marks)@[n]
                        || exists|i: int|
                        0 <= i < index && #[trigger] pin(elements, at, i) == n)),
            decreases count - index,
        {
            let node: u32 = terminals.get(index);
            assert(pin(elements, at, index as int) == node);
            let ghost before = marks@;
            marks.set(node as usize, true);
            proof {
                assert forall|n: int| 0 <= n < old(marks)@.len() implies (#[trigger] marks@[n]
                    <==> (old(marks)@[n] || exists|i: int|
                    0 <= i < index + 1 && #[trigger] pin(elements, at, i) == n)) by {
                    if n == node {
                        assert(pin(elements, at, index as int) == n);
                    } else {
                        assert(marks@[n] == before[n]);
                        if exists|i: int| 0 <= i < index + 1 && #[trigger] pin(elements, at, i)
                            == n {
                            let i = choose|i: int|
                                0 <= i < index + 1 && #[trigger] pin(elements, at, i) == n;
                            assert(i < index);
                        }
                    }
                }
            }
            index = index + 1;
        }
        let mut current: usize = if count == 0 {
            0
        } else {
            1
        };
        while current < count
            invariant
                current <= count,
                count > 0 ==> current >= 1,
                sets.wf(),
                coarser(*old(sets), *sets),
                sound(registry, elements, *sets),
                joined_upto(registry, elements, *sets, at, current as int),
            decreases count - current,
        {
            let ghost before = *sets;
            let partition: u32 = partitions.get(current);
            let mut previous: usize = 0;
            while previous < current && partitions.get(previous) != partition
                invariant
                    previous <= current,
                    forall|i: int|
                        0 <= i < previous ==> #[trigger] pin_partition(registry, elements, at, i)
                            != partition,
                decreases current - previous,
            {
                assert(pin_partition(registry, elements, at, previous as int) != partition);
                previous = previous + 1;
            }
            if previous < current {
                let a: u32 = terminals.get(current);
                let b: u32 = terminals.get(previous);
                proof {
                    assert(pin(elements, at, current as int) == a);
                    assert(pin(elements, at, previous as int) == b);
                    assert(node_edge(registry, elements)(a, b));
                }
                sets.union(a as usize, b as usize);
                proof {
                    lemma_sound_union(registry, elements, before, *sets, a, b);
                    assert forall|i: int, j: int|
                        #![trigger pin(elements, at, i), pin(elements, at, j)]
                        0 <= i < current + 1 && 0 <= j < current + 1 && pin_partition(
                            registry,
                            elements,
                            at,
                            i,
                        ) == pin_partition(registry, elements, at, j) implies sets.root(
                        pin(elements, at, i) as int,
                    ) == sets.root(pin(elements, at, j) as int) by {
                        let u = pin(elements, at, i) as int;
                        let v = pin(elements, at, j) as int;
                        if i < current && j < current {
                            assert(before.root(u) == before.root(v));
                        } else if i < current {
                            assert(pin_partition(registry, elements, at, previous as int)
                                == pin_partition(registry, elements, at, i));
                            assert(before.root(u) == before.root(
                                pin(elements, at, previous as int) as int,
                            ));
                        } else if j < current {
                            assert(pin_partition(registry, elements, at, previous as int)
                                == pin_partition(registry, elements, at, j));
                            assert(before.root(v) == before.root(
                                pin(elements, at, previous as int) as int,
                            ));
                        }
                    }
                }
            } else {
                proof {
                    assert forall|i: int, j: int|
                        #![trigger pin(elements, at, i), pin(elements, at, j)]
                        0 <= i < current + 1 && 0 <= j < current + 1 && pin_partition(
                            registry,
                            elements,
                            at,
                            i,
                        ) == pin_partition(registry, elements, at, j) implies sets.root(
                        pin(elements, at, i) as int,
                    ) == sets.root(pin(elements, at, j) as int) by {
                        if i < current && j == current {
                            assert(pin_partition(registry, elements, at, i) != partition);
                        }
                        if j < current && i == current {
                            assert(pin_partition(registry, elements, at, j) != partition);
                        }
                    }
                }
            }
            current = current + 1;
        }
    }
}

/// The first node, from `from` on, that is neither an outer terminal nor used by an element.
pub open spec fn first_unused(
    elements: Seq<ElementModel>,
    terminals: Seq<u32>,
    node_count: u32,
    from: int,
) -> Option<u32>
    decreases node_count - from,
{
    if from >= node_count {
        None
    } else if unused(elements, terminals, from as u32) {
        Some(from as u32)
    } else {
        first_unused(elements, terminals, node_count, from + 1)
    }
}

/// The first node, from `from` on, that is used but not joined with any outer terminal.
pub open spec fn first_enclosed(
    registry: DefinitionRegistry,
    elements: Seq<ElementModel>,
    terminals: Seq<u32>,
    node_count: u32,
    from: int,
) -> Option<u32>
    decreases node_count - from,
{
    if from >= node_count {
        None
    } else if enclosed(registry, elements, terminals, from as u32) {
        Some(from as u32)
    } else {
        first_enclosed(registry, elements, terminals, node_count, from + 1)
    }
}

/// The reason for which a definition with these parts cannot be built, if there is one.
pub open spec fn refusal_to_build(
    registry: DefinitionRegistry,
    elements: Seq<ElementModel>,
    terminals: Seq<u32>,
    node_count: u32,
) -> Option<Refusal> {
    if let Some(node) = first_unused(elements, terminals, node_count, 0) {
        Some(Refusal::UnusedInternalNode { node })
    } else if let Some(node) = first_enclosed(registry, elements, terminals, node_count, 0) {
        Some(Refusal::InternalComponentWithoutTerminal { node })
    } else if groups(registry, elements, terminals, terminals.len() as int) > 0x1_0000 {
        Some(Refusal::DevicePartitionIdExhausted)
    } else {
        None
    }
}

/// More terminals have no fewer groups.
proof fn lemma_groups_grow(
    registry: DefinitionRegistry,
    elements: Seq<ElementModel>,
    terminals: Seq<u32>,
    count: int,
    more: int,
)
    requires
        0 <= count <= more,
    ensures
        0 <= groups(registry, elements, terminals, count) <= groups(
            registry,
            elements,
            terminals,
            more,
        ),
    decreases more,
{
    if count < more {
        lemma_groups_grow(registry, elements, terminals, count, more - 1);
    } else if count > 0 {
        lemma_groups_grow(registry, elements, terminals, count - 1, more - 1);
    }
}

/// The first joined terminal is joined, and none before it is.
pub(crate) proof fn lemma_first_joined(
    registry: DefinitionRegistry,
    elements: Seq<ElementModel>,
    terminals: Seq<u32>,
    index: int,
    from: int,
)
    requires
        0 <= from <= index < terminals.len(),
    ensures
        ({
            let first = first_joined(registry, elements, terminals, index, from);
            let edge = node_edge(registry, elements);
            &&& from <= first <= index
            &&& connected(edge, terminals[first], terminals[index])
            &&& forall|k: int|
                from <= k < first ==> !connected(edge, #[trigger] terminals[k], terminals[index])
        }),
    decreases index - from,
{
    if from < index && !connected(
        node_edge(registry, elements),
        terminals[from],
        terminals[index],
    ) {
        lemma_first_joined(registry, elements, terminals, index, from + 1);
    } else if from >= index {
        lemma_connected_self(node_edge(registry, elements), terminals[index]);
    }
}

impl<'a> DeviceDefinitionBuilder<'a> {
    /// The reason for which the definition cannot be built, if there is one.
    pub open spec fn build_refusal(self) -> Option<Refusal> {
        refusal_to_build(
            self.spec_registry(),
            self.spec_elements(),
            self.spec_terminals(),
            self.spec_node_count(),
        )
    }

    /// The sets of joined nodes, and for each node whether an element uses it.
    fn join_elements(&self) -> (result: (UnionFind, Vec<bool>))
        requires
            self.wf(),
        ensures
            result.0.wf(),
            result.0.spec_len() == self.spec_node_count(),
            forall|x: u32, y: u32|
                #![trigger result.0.root(x as int), result.0.root(y as int)]
                x < self.spec_node_count() && y < self.spec_node_count() ==> (result.0.root(
                    x as int,
                ) == result.0.root(y as int) <==> connected(
                    node_edge(self.spec_registry(), self.spec_elements()),
                    x,
                    y,
                )),
            result.1@.len() == self.spec_node_count(),
            forall|n: u32|
                n < self.spec_node_count() ==> (#[trigger] result.1@[n as int] <==> referenced(
                    self.spec_elements(),
                    n,
                )),
    {
        let ghost registry = self.spec_registry();
        let ghost elements = self.spec_elements();
        let node_count: usize = self.node_count as usize;
        let mut sets = UnionFind::new(node_count);
        let mut marks: Vec<bool> = Vec::new();
        let mut filled: usize = 0;
        while filled < node_count
            invariant
                filled <= node_count,
                marks@.len() == filled,
                forall|n: int| 0 <= n < filled ==> !#[trigger] marks@[n],
            decreases node_count - filled,
        {
            marks.push(false);
            filled = filled + 1;
        }
        proof {
            assert(sound(registry, elements, sets)) by {
                assert forall|x: u32, y: u32|
                    #![trigger sets.root(x as int), sets.root(y as int)]
                    x < sets.spec_len() && y < sets.spec_len() && sets.root(x as int) == sets.root(
                        y as int,
                    ) implies connected(node_edge(registry, elements), x, y) by {
                    lemma_connected_self(node_edge(registry, elements), x);
                }
            }
        }
        let mut e: usize = 0;
        while e < self.elements.len()
            invariant
                self.wf(),
                registry == self.spec_registry(),
                elements == self.spec_elements(),
                node_count == self.spec_node_count(),
                e <= elements.len(),
                elements.len() == self.elements@.len(),
                sets.wf(),
                sets.spec_len() == node_count,
                sound(registry, elements, sets),
                forall|k: int|
                    0 <= k < e ==> #[trigger] joined_upto(
                        registry,
                        elements,
                        sets,
                        k,
                        pins(elements, k),
                    ),
                marks@.len() == node_count,
                forall|n: int|
                    0 <= n < node_count ==> (#[trigger] marks@[n] <==> exists|k: int, i: int|
                        0 <= k < e && 0 <= i < pins(elements, k) && #[trigger] pin(elements, k, i)
                            == n),
            decreases elements.len() - e,
        {
            let ghost before = sets;
            let ghost before_marks = marks@;
            self.join_element(e, &mut sets, &mut marks);
            proof {
                assert forall|k: int| 0 <= k < e + 1 implies #[trigger] joined_upto(
                    registry,
                    elements,
                    sets,
                    k,
                    pins(elements, k),
                ) by {
                    if k < e {
                        self.lemma_pins(k);
                        assert(joined_upto(registry, elements, before, k, pins(elements, k)));
                        assert forall|i: int, j: int|
                            #![trigger pin(elements, k, i), pin(elements, k, j)]
                            0 <= i < pins(elements, k) && 0 <= j < pins(elements, k)
                                && pin_partition(registry, elements, k, i) == pin_partition(
                                registry,
                                elements,
                                k,
                                j,
                            ) implies sets.root(pin(elements, k, i) as int) == sets.root(
                            pin(elements, k, j) as int,
                        ) by {
                            assert(before.root(pin(elements, k, i) as int) == before.root(
                                pin(elements, k, j) as int,
                            ));
                        }
                    }
                }
                assert forall|n: int| 0 <= n < node_count implies (#[trigger] marks@[n] <==> exists|
                    k: int,
                    i: int,
                |
                    0 <= k < e + 1 && 0 <= i < pins(elements, k) && #[trigger] pin(elements, k, i)
                        == n) by {
                    assert(before_marks[n] <==> exists|k: int, i: int|
                        0 <= k < e && 0 <= i < pins(elements, k) && #[trigger] pin(elements, k, i)
                            == n);
                    if marks@[n] {
                        if !before_marks[n] {
                            let i = choose|i: int|
                                0 <= i < pins(elements, e as int) && #[trigger] pin(
                                    elements,
                                    e as int,
                                    i,
                                ) == n;
                            assert(pin(elements, e as int, i) == n);
                        }
                    }
                    if exists|k: int, i: int|
                        0 <= k < e + 1 && 0 <= i < pins(elements, k) && #[trigger] pin(
                            elements,
                            k,
                            i,
                        ) == n {
                        let (k, i) = choose|k: int, i: int|
                            0 <= k < e + 1 && 0 <= i < pins(elements, k) && #[trigger] pin(
                                elements,
                                k,
                                i,
                            ) == n;
                        if k < e {
                            assert(before_marks[n]);
                        } else {
                            assert(pin(elements, e as int, i) == n);
                        }
                    }
                }
            }
            e = e + 1;
        }
        proof {
            assert forall|k: int, i: int|
                0 <= k < elements.len() && 0 <= i < pins(elements, k) implies #[trigger] pin(
                elements,
                k,
                i,
            ) < sets.spec_len() by {
                self.lemma_pins(k);
            }
            assert forall|x: u32, y: u32|
                #![trigger sets.root(x as int), sets.root(y as int)]
                x < node_count && y < node_count implies (sets.root(x as int) == sets.root(y as int)
                <==> connected(node_edge(registry, elements), x, y)) by {
                lemma_sets_complete(registry, elements, sets, x, y);
            }
            assert forall|n: u32| n < node_count implies (#[trigger] marks@[n as int]
                <==> referenced(elements, n)) by {
                assert(marks@[n as int] <==> exists|k: int, i: int|
                    0 <= k < elements.len() && 0 <= i < pins(elements, k) && #[trigger] pin(
                        elements,
                        k,
                        i,
                    ) == n as int);
                if referenced(elements, n) {
                    let (k, i) = choose|k: int, i: int|
                        0 <= k < elements.len() && 0 <= i < pins(elements, k) && #[trigger] pin(
                            elements,
                            k,
                            i,
                        ) == n;
                    assert(pin(elements, k, i) == n as int);
                }
                if marks@[n as int] {
                    let (k, i) = choose|k: int, i: int|
                        0 <= k < elements.len() && 0 <= i < pins(elements, k) && #[trigger] pin(
                            elements,
                            k,
                            i,
                        ) == n as int;
                    assert(pin(elements, k, i) == n);
                }
            }
        }
        (sets, marks)
    }

    /// The partitions of the outer terminals.
    #[verifier::loop_isolation(false)]
    #[verifier::spinoff_prover]
    #[verifier::rlimit(60)]
    fn derive_terminal_partitions(&self) -> (result: Result<
        Vec<TerminalPartitionId>,
        DeviceDefinitionBuilderError,
    >)
        requires
            self.wf(),
        ensures
            match self.build_refusal() {
                Some(refusal) => result matches Err(error) && error@ == refusal,
                None => {
                    &&& result matches Ok(partitions)
                    &&& partitions@.len() == self.spec_terminals().len()
                    &&& forall|t: int|
                        0 <= t < partitions@.len() ==> (#[trigger] partitions@[t]).value()
                            == partition_of(
                            self.spec_registry(),
                            self.spec_elements(),
                            self.spec_terminals(),
                            t,
                        )
                },
            },
    {
        let ghost registry = self.spec_registry();
        let ghost elements = self.spec_elements();
        let ghost terminals = self.spec_terminals();
        let ghost edge = node_edge(registry, elements);
        let node_count: usize = self.node_count as usize;
        let terminal_count: usize = self.terminals.len();
        let (mut sets, marks) = self.join_elements();
        let ghost roots = sets;
        let mut exposed: Vec<bool> = Vec::new();
        let mut external: Vec<bool> = Vec::new();
        let mut root_partitions: Vec<Option<u16>> = Vec::new();
        let mut filled: usize = 0;
        while filled < node_count
            invariant
                filled <= node_count,
                exposed@.len() == filled,
                external@.len() == filled,
                root_partitions@.len() == filled,
                forall|n: int| 0 <= n < filled ==> !#[trigger] exposed@[n],
                forall|n: int| 0 <= n < filled ==> !#[trigger] external@[n],
                forall|n: int| 0 <= n < filled ==> #[trigger] root_partitions@[n] is None,
            decreases node_count - filled,
        {
            exposed.push(false);
            external.push(false);
            root_partitions.push(None);
            filled = filled + 1;
        }
        let mut index: usize = 0;
        while index < terminal_count
            invariant
                index <= terminal_count,
                sets.wf(),
                sets.spec_len() == node_count,
                forall|n: int| 0 <= n < node_count ==> #[trigger] sets.root(n) == roots.root(n),
                exposed@.len() == node_count,
                external@.len() == node_count,
                forall|n: int|
                    0 <= n < node_count ==> (#[trigger] exposed@[n] <==> exists|t: int|
                        0 <= t < index && #[trigger] terminals[t] == n),
                forall|r: int|
                    0 <= r < node_count ==> (#[trigger] external@[r] <==> exists|t: int|
                        0 <= t < index && roots.root(#[trigger] terminals[t] as int) == r),
            decreases terminal_count - index,
        {
            let node: usize = self.terminals[index].id() as usize;
            assert(terminals[index as int] == node);
            let ghost before = exposed@;
            let ghost before_external = external@;
            exposed.set(node, true);
            let root: usize = sets.find(node);
            external.set(root, true);
            proof {
                assert forall|n: int| 0 <= n < node_count implies (#[trigger] exposed@[n]
                    <==> exists|t: int| 0 <= t < index + 1 && #[trigger] terminals[t] == n) by {
                    assert(before[n] <==> exists|t: int|
                        0 <= t < index && #[trigger] terminals[t] == n);
                    if exists|t: int| 0 <= t < index + 1 && #[trigger] terminals[t] == n {
                        let t = choose|t: int| 0 <= t < index + 1 && #[trigger] terminals[t] == n;
                        if t < index {
                            assert(before[n]);
                        }
                    }
                }
                assert forall|r: int| 0 <= r < node_count implies (#[trigger] external@[r]
                    <==> exists|t: int|
                    0 <= t < index + 1 && roots.root(#[trigger] terminals[t] as int) == r) by {
                    assert(before_external[r] <==> exists|t: int|
                        0 <= t < index && roots.root(#[trigger] terminals[t] as int) == r);
                    if exists|t: int|
                        0 <= t < index + 1 && roots.root(#[trigger] terminals[t] as int) == r {
                        let t = choose|t: int|
                            0 <= t < index + 1 && roots.root(#[trigger] terminals[t] as int) == r;
                        if t < index {
                            assert(before_external[r]);
                        }
                    }
                    if r == root {
                        assert(roots.root(terminals[index as int] as int) == r);
                    }
                }
            }
            index = index + 1;
        }
        let mut node_index: usize = 0;
        while node_index < node_count
            invariant
                node_index <= node_count,
                first_unused(elements, terminals, self.node_count, 0) == first_unused(
                    elements,
                    terminals,
                    self.node_count,
                    node_index as int,
                ),
            decreases node_count - node_index,
        {
            proof {
                let n = node_index as u32;
                assert(exposed@[n as int] <==> terminals.contains(n));
                assert(marks@[n as int] <==> referenced(elements, n));
            }
            if !exposed[node_index] && !marks[node_index] {
                return Err(
                    DeviceDefinitionBuilderError::UnusedInternalNode {
                        node: NodeId::new(node_index as u32),
                    },
                );
            }
            node_index = node_index + 1;
        }
        let mut next_node: usize = 0;
        while next_node < node_count
            invariant
                next_node <= node_count,
                sets.wf(),
                sets.spec_len() == node_count,
                forall|n: int| 0 <= n < node_count ==> #[trigger] sets.root(n) == roots.root(n),
                first_enclosed(registry, elements, terminals, self.node_count, 0)
                    == first_enclosed(
                    registry,
                    elements,
                    terminals,
                    self.node_count,
                    next_node as int,
                ),
            decreases node_count - next_node,
        {
            let ghost n = next_node as u32;
            assert(marks@[n as int] <==> referenced(elements, n));
            if marks[next_node] {
                let root: usize = sets.find(next_node);
                proof {
                    assert(external@[root as int] <==> reachable(registry, elements, terminals, n))
                        by {
                        if external@[root as int] {
                            let t = choose|t: int|
                                0 <= t < terminals.len() && roots.root(#[trigger] terminals[t] as int)
                                    == root as int;
                            assert(roots.root(n as int) == roots.root(terminals[t] as int));
                            assert(connected(edge, n, terminals[t]));
                        }
                        if reachable(registry, elements, terminals, n) {
                            let t = choose|t: int|
                                0 <= t < terminals.len() && connected(
                                    edge,
                                    n,
                                    #[trigger] terminals[t],
                                );
                            assert(roots.root(n as int) == roots.root(terminals[t] as int));
                        }
                    }
                }
                if !external[root] {
                    return Err(
                        DeviceDefinitionBuilderError::InternalComponentWithoutTerminal {
                            node: NodeId::new(next_node as u32),
                        },
                    );
                }
            }
            next_node = next_node + 1;
        }
        let mut partitions: Vec<TerminalPartitionId> = Vec::new();
        let mut next_partition: u32 = 0;
        let mut at: usize = 0;
        while at < terminal_count
            invariant
                at <= terminal_count,
                sets.wf(),
                sets.spec_len() == node_count,
                forall|n: int| 0 <= n < node_count ==> #[trigger] sets.root(n) == roots.root(n),
                next_partition <= 0x1_0000,
                next_partition == groups(registry, elements, terminals, at as int),
                partitions@.len() == at,
                forall|t: int|
                    0 <= t < at ==> (#[trigger] partitions@[t]).value() == partition_of(
                        registry,
                        elements,
                        terminals,
                        t,
                    ),
                root_partitions@.len() == node_count,
                forall|r: int|
                    0 <= r < node_count ==> match #[trigger] root_partitions@[r] {
                        Some(partition) => exists|t: int|
                            0 <= t < at && roots.root(#[trigger] terminals[t] as int) == r
                                && partition == partition_of(registry, elements, terminals, t),
                        None => forall|t: int|
                            0 <= t < at ==> roots.root(#[trigger] terminals[t] as int) != r,
                    },
            decreases terminal_count - at,
        {
            let node: usize = self.terminals[at].id() as usize;
            assert(terminals[at as int] == node);
            let root: usize = sets.find(node);
            let ghost before = root_partitions@;
            proof {
                lemma_first_joined(registry, elements, terminals, at as int, 0);
            }
            let partition: u16 = match root_partitions[root] {
                Some(partition) => {
                    proof {
                        let t = choose|t: int|
                            0 <= t < at && roots.root(#[trigger] terminals[t] as int) == root
                                && partition == partition_of(registry, elements, terminals, t);
                        assert(roots.root(terminals[t] as int) == roots.root(
                            terminals[at as int] as int,
                        ));
                        self.lemma_same_first(t, at as int);
                        assert(first_joined(registry, elements, terminals, at as int, 0) != at);
                    }
                    partition
                },
                None => {
                    proof {
                        let first = first_joined(registry, elements, terminals, at as int, 0);
                        if first < at {
                            assert(connected(edge, terminals[first], terminals[at as int]));
                            assert(roots.root(terminals[first] as int) == roots.root(
                                terminals[at as int] as int,
                            ));
                        }
                        assert(first == at);
                        lemma_groups_grow(
                            registry,
                            elements,
                            terminals,
                            at + 1,
                            terminals.len() as int,
                        );
                    }
                    if next_partition == 0x1_0000 {
                        return Err(DeviceDefinitionBuilderError::DevicePartitionIdExhausted);
                    }
                    let partition: u16 = next_partition as u16;
                    next_partition = next_partition + 1;
                    root_partitions.set(root, Some(partition));
                    partition
                },
            };
            partitions.push(TerminalPartitionId::new(partition));
            proof {
                assert(partition == partition_of(registry, elements, terminals, at as int));
                assert forall|r: int| 0 <= r < node_count implies match #[trigger] root_partitions@[r] {
                    Some(partition) => exists|t: int|
                        0 <= t < at + 1 && roots.root(#[trigger] terminals[t] as int) == r
                            && partition == partition_of(registry, elements, terminals, t),
                    None => forall|t: int|
                        0 <= t < at + 1 ==> roots.root(#[trigger] terminals[t] as int) != r,
                } by {
                    if r == root {
                        assert(roots.root(terminals[at as int] as int) == r);
                        assert(root_partitions@[r] == Some(partition));
                    } else {
                        assert(root_partitions@[r] == before[r]);
                        if let Some(other) = before[r] {
                            let t = choose|t: int|
                                0 <= t < at && roots.root(#[trigger] terminals[t] as int) == r
                                    && other == partition_of(registry, elements, terminals, t);
                            assert(roots.root(terminals[t] as int) == r);
                        }
                    }
                }
            }
            at = at + 1;
        }
        Ok(partitions)
    }

    /// Joined terminals have the same first terminal.
    proof fn lemma_same_first(self, a: int, b: int)
        requires
            0 <= a < b < self.spec_terminals().len(),
            connected(
                node_edge(self.spec_registry(), self.spec_elements()),
                self.spec_terminals()[a],
                self.spec_terminals()[b],
            ),
        ensures
            first_joined(
                self.spec_registry(),
                self.spec_elements(),
                self.spec_terminals(),
                a,
                0,
            ) == first_joined(
                self.spec_registry(),
                self.spec_elements(),
                self.spec_terminals(),
                b,
                0,
            ),
    {
        let registry = self.spec_registry();
        let elements = self.spec_elements();
        let terminals = self.spec_terminals();
        let edge = node_edge(registry, elements);
        lemma_node_edge_sym(registry, elements);
        lemma_first_joined(registry, elements, terminals, a, 0);
        lemma_first_joined(registry, elements, terminals, b, 0);
        let p = first_joined(registry, elements, terminals, a, 0);
        let q = first_joined(registry, elements, terminals, b, 0);
        lemma_connected_sym(edge, terminals[a], terminals[b]);
        lemma_connected_trans(edge, terminals[p], terminals[a], terminals[b]);
        lemma_connected_trans(edge, terminals[q], terminals[b], terminals[a]);
        if p < q {
            assert(!connected(edge, terminals[p], terminals[b]));
        }
        if q < p {
            assert(!connected(edge, terminals[q], terminals[a]));
        }
    }

    /// Builds the definition.
    pub fn build_definition(self) -> (result: Result<
        DeviceDefinition,
        DeviceDefinitionBuilderError,
    >)
        requires
            self.wf(),
        ensures
            match self.build_refusal() {
                Some(refusal) => result matches Err(error) && error@ == refusal,
                None => {
                    &&& result matches Ok(definition)
                    &&& definition.wf()
                    &&& definition.spec_body() matches DeviceBody::Composite(circuit)
                    &&& circuit.spec_node_count() == self.spec_node_count()
                    &&& circuit.models() == self.spec_elements()
                    &&& definition.spec_terminals() == self.spec_terminals()
                    &&& definition.spec_parameters() == self.spec_parameters()
                    &&& definition.spec_partitions().len() == self.spec_terminals().len()
                    &&& forall|t: int|
                        0 <= t < definition.spec_partitions().len()
                            ==> #[trigger] definition.spec_partitions()[t] == partition_of(
                            self.spec_registry(),
                            self.spec_elements(),
                            self.spec_terminals(),
                            t,
                        )
                },
            },
    {
        let terminal_partitions = match self.derive_terminal_partitions() {
            Ok(partitions) => partitions,
            Err(error) => {
                return Err(error);
            },
        };
        let circuit = Circuit::new(self.node_count, self.elements);
        Ok(
            DeviceDefinition::new_composite(
                circuit,
                self.terminals,
                self.param_constraints,
                terminal_partitions,
            ),
        )
    }
}

/// Terminals of a built definition share a partition exactly if they are joined inside.
pub proof fn law_partitions_are_joined_terminals(
    registry: DefinitionRegistry,
    elements: Seq<ElementModel>,
    terminals: Seq<u32>,
    a: int,
    b: int,
)
    requires
        0 <= a < terminals.len(),
        0 <= b < terminals.len(),
    ensures
        partition_of(registry, elements, terminals, a) == partition_of(
            registry,
            elements,
            terminals,
            b,
        ) <==> connected(node_edge(registry, elements), terminals[a], terminals[b]),
{
    let edge = node_edge(registry, elements);
    let p = first_joined(registry, elements, terminals, a, 0);
    let q = first_joined(registry, elements, terminals, b, 0);
    lemma_node_edge_sym(registry, elements);
    lemma_first_joined(registry, elements, terminals, a, 0);
    lemma_first_joined(registry, elements, terminals, b, 0);
    lemma_connected_sym(edge, terminals[p], terminals[a]);
    lemma_connected_sym(edge, terminals[q], terminals[b]);
    if connected(edge, terminals[a], terminals[b]) {
        lemma_connected_sym(edge, terminals[a], terminals[b]);
        lemma_connected_trans(edge, terminals[p], terminals[a], terminals[b]);
        lemma_connected_trans(edge, terminals[q], terminals[b], terminals[a]);
        if p < q {
            assert(!connected(edge, terminals[p], terminals[b]));
        }
        if q < p {
            assert(!connected(edge, terminals[q], terminals[a]));
        }
    } else {
        if p == q {
            lemma_connected_trans(edge, terminals[a], terminals[p], terminals[b]);
        }
        lemma_first_is_first(registry, elements, terminals, a);
        lemma_first_is_first(registry, elements, terminals, b);
        let (lo, hi) = if p < q {
            (p, q)
        } else {
            (q, p)
        };
        lemma_groups_grow(registry, elements, terminals, lo + 1, hi);
    }
}

/// The first terminal of a group is not joined with an earlier one.
proof fn lemma_first_is_first(
    registry: DefinitionRegistry,
    elements: Seq<ElementModel>,
    terminals: Seq<u32>,
    index: int,
)
    requires
        0 <= index < terminals.len(),
    ensures
        ({
            let first = first_joined(registry, elements, terminals, index, 0);
            first_joined(registry, elements, terminals, first, 0) == first
        }),
{
    let edge = node_edge(registry, elements);
    let first = first_joined(registry, elements, terminals, index, 0);
    lemma_first_joined(registry, elements, terminals, index, 0);
    lemma_first_joined(registry, elements, terminals, first, 0);
    let earlier = first_joined(registry, elements, terminals, first, 0);
    lemma_connected_trans(edge, terminals[earlier], terminals[first], terminals[index]);
    if earlier < first {
        assert(!connected(edge, terminals[earlier], terminals[index]));
    }
}

} // verus!
