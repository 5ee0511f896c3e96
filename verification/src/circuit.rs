//! The circuits inside composite device definitions.

use crate::ids::{DefinitionId, NodeId, ParameterId};
use crate::small_list::{numbers, IdList};
use smallvec::SmallVec;
use vstd::prelude::*;

verus! {

/// A parameter of an element: a number, by its bit pattern, or a parameter of the definition around
/// it.
#[derive(Debug, Clone, Copy, PartialEq, Eq, Structural)]
pub enum ValueRef {
    Literal(u64),
    Parameter(ParameterId),
}

/// The parameters of an element; one is kept inline.
#[verifier::external_body]
#[derive(Debug, PartialEq, Eq)]
pub struct ValueList {
    inner: SmallVec<[ValueRef; 1]>,
}

/// The items that a `ValueList` holds, in order.
pub uninterp spec fn value_list_items(list: ValueList) -> Seq<ValueRef>;

impl View for ValueList {
    type V = Seq<ValueRef>;

    open spec fn view(&self) -> Seq<ValueRef> {
        value_list_items(*self)
    }
}

impl ValueList {
    /// `SmallVec::from_vec`: a list with the items of a vector.
    #[verifier::external_body]
    pub(crate) fn from_vec(items: Vec<ValueRef>) -> (result: Self)
        ensures
            value_list_items(result) == items@,
    {
        ValueList { inner: SmallVec::from_vec(items) }
    }

    /// `SmallVec::len`: the number of items.
    #[verifier::external_body]
    pub(crate) fn len(&self) -> (result: usize)
        ensures
            result == value_list_items(*self).len(),
    {
        self.inner.len()
    }

    /// Indexing into the slice of a `SmallVec`: the item at `index`.
    #[verifier::external_body]
    pub(crate) fn get(&self, index: usize) -> (result: ValueRef)
        requires
            index < value_list_items(*self).len(),
        ensures
            result == value_list_items(*self)[index as int],
    {
        self.inner[index]
    }

    /// The items, in order.
    pub fn to_vec(&self) -> (result: Vec<ValueRef>)
        ensures
            result@ == self@,
    {
        let mut items: Vec<ValueRef> = Vec::new();
        while items.len() < self.len()
            invariant
                items@.len() <= self@.len(),
                items@ == self@.take(items@.len() as int),
            decreases self@.len() - items@.len(),
        {
            items.push(self.get(items.len()));
            assert(items@ =~= self@.take(items@.len() as int));
        }
        assert(self@.take(self@.len() as int) =~= self@);
        items
    }
}

/// A device inside a circuit: its definition, the nodes its terminals stand on, its parameters.
#[derive(Debug, PartialEq, Eq)]
pub struct Element {
    definition_id: DefinitionId,
    terminals: IdList,
    parameters: ValueList,
}

/// What an element is: the number of its definition, the numbers of the nodes its terminals stand
/// on, and its parameters.
pub struct ElementModel {
    pub definition: u32,
    pub terminals: Seq<u32>,
    pub parameters: Seq<ValueRef>,
}

impl Element {
    pub open spec fn view(self) -> ElementModel {
        ElementModel {
            definition: self.spec_definition().value(),
            terminals: self.spec_terminals(),
            parameters: self.spec_parameters(),
        }
    }

    pub closed spec fn spec_definition(self) -> DefinitionId {
        self.definition_id
    }

    /// The numbers of the nodes that the terminals stand on.
    pub closed spec fn spec_terminals(self) -> Seq<u32> {
        self.terminals@
    }

    pub closed spec fn spec_parameters(self) -> Seq<ValueRef> {
        self.parameters@
    }

    pub fn new(
        definition_id: DefinitionId,
        terminals: Vec<NodeId>,
        parameters: Vec<ValueRef>,
    ) -> (result: Self)
        ensures
            result.spec_definition() == definition_id,
            result.spec_terminals() == numbers(terminals@, |node: NodeId| node.value()),
            result.spec_parameters() == parameters@,
    {
        let terminals = node_list(&terminals);
        Element { definition_id, terminals, parameters: ValueList::from_vec(parameters) }
    }

    pub fn definition(&self) -> (result: DefinitionId)
        ensures
            result == self.spec_definition(),
    {
        self.definition_id
    }

    /// The numbers of the nodes that the terminals stand on.
    pub fn terminals(&self) -> (result: &IdList)
        ensures
            result@ == self.spec_terminals(),
    {
        &self.terminals
    }

    pub fn parameters(&self) -> (result: &ValueList)
        ensures
            result@ == self.spec_parameters(),
    {
        &self.parameters
    }
}

/// The numbers of the given nodes.
pub(crate) fn node_list(nodes: &Vec<NodeId>) -> (result: IdList)
    ensures
        result@ == numbers(nodes@, |node: NodeId| node.value()),
{
    let mut list = IdList::new();
    let mut index: usize = 0;
    while index < nodes.len()
        invariant
            index <= nodes.len(),
            list@.len() == index,
            forall|i: int| 0 <= i < index ==> list@[i] == nodes@[i].value(),
        decreases nodes.len() - index,
    {
        list.push(nodes[index].id());
        index = index + 1;
    }
    assert(list@ =~= numbers(nodes@, |node: NodeId| node.value()));
    list
}

/// Nodes, numbered from zero, and the elements between them.
#[derive(Debug, PartialEq, Eq)]
pub struct Circuit {
    node_count: u32,
    elements: Vec<Element>,
}

impl Circuit {
    pub closed spec fn spec_node_count(self) -> u32 {
        self.node_count
    }

    pub closed spec fn spec_elements(self) -> Seq<Element> {
        self.elements@
    }

    /// The elements, each as what it is.
    pub open spec fn models(self) -> Seq<ElementModel> {
        Seq::new(self.spec_elements().len(), |i: int| self.spec_elements()[i]@)
    }

    pub fn new(node_count: u32, elements: Vec<Element>) -> (result: Self)
        ensures
            result.spec_node_count() == node_count,
            result.spec_elements() == elements@,
    {
        Circuit { node_count, elements }
    }

    pub fn node_count(&self) -> (result: u32)
        ensures
            result == self.spec_node_count(),
    {
        self.node_count
    }

    pub fn elements(&self) -> (result: &[Element])
        ensures
            result@ == self.spec_elements(),
    {
        self.elements.as_slice()
    }
}

} // verus!
