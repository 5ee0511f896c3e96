//! What can be built, and how the terminals of what is built act on one another.

use crate::builder::{
    element_refusal, first_enclosed, first_joined, first_outside, first_unused, groups, node_edge,
    law_partitions_are_joined_terminals, partition_of, refusal_to_build, value_refusal, Refusal,
};
use crate::circuit::{ElementModel, ValueRef};
use crate::definition::{partition_bound, DeviceBody, DeviceDefinition};
use crate::graph::connected;
use crate::parameter::ParameterConstraints;
use crate::registry::DefinitionRegistry;
use vstd::prelude::*;

verus! {

/// The definition that an element is made by.
pub open spec fn definition_of(
    registry: DefinitionRegistry,
    element: ElementModel,
) -> DeviceDefinition {
    registry.spec_definitions()[element.definition - 1]
}

/// Whether a value can be given to a parameter: a number that meets the constraints, or one of the
/// parameters that there are.
pub open spec fn value_fits(
    value: ValueRef,
    constraints: ParameterConstraints,
    parameter_count: int,
) -> bool {
    match value {
        ValueRef::Literal(number) => constraints.check(number) is Ok,
        ValueRef::Parameter(parameter) => parameter.value() < parameter_count,
    }
}

proof fn lemma_first_outside(terminals: Seq<u32>, node_count: u32, from: int)
    requires
        0 <= from <= terminals.len(),
    ensures
        match first_outside(terminals, node_count, from) {
            None => forall|i: int|
                from <= i < terminals.len() ==> #[trigger] terminals[i] < node_count,
            Some(at) => from <= at < terminals.len() && terminals[at] >= node_count && forall|i: int|
                from <= i < at ==> #[trigger] terminals[i] < node_count,
        },
    decreases terminals.len() - from,
{
    if from < terminals.len() {
        lemma_first_outside(terminals, node_count, from + 1);
    }
}

proof fn lemma_value_refusal(
    values: Seq<ValueRef>,
    constraints: Seq<ParameterConstraints>,
    parameter_count: int,
    from: int,
)
    requires
        0 <= from <= values.len(),
    ensures
        value_refusal(values, constraints, parameter_count, from) is None <==> forall|i: int|
            from <= i < values.len() ==> value_fits(
                #[trigger] values[i],
                constraints[i],
                parameter_count,
            ),
        value_refusal(values, constraints, parameter_count, from) matches Some(refusal) ==> {
            &&& refusal is ParameterConstraint || refusal is ParameterOutOfRange
            &&& refusal matches Refusal::ParameterConstraint { parameter_index, source } ==> {
                &&& from <= parameter_index < values.len()
                &&& values[parameter_index] is Literal
                &&& constraints[parameter_index].check(values[parameter_index]->Literal_0)
                    == Err::<(), crate::parameter::ParameterConstraintError>(source)
                &&& forall|i: int|
                    from <= i < parameter_index ==> value_fits(
                        #[trigger] values[i],
                        constraints[i],
                        parameter_count,
                    )
            }
            &&& refusal matches Refusal::ParameterOutOfRange {
                parameter_index,
                parameter,
                parameter_count: count,
            } ==> {
                &&& from <= parameter_index < values.len()
                &&& values[parameter_index] == ValueRef::Parameter(parameter)
                &&& count == parameter_count
                &&& parameter.value() >= parameter_count
                &&& forall|i: int|
                    from <= i < parameter_index ==> value_fits(
                        #[trigger] values[i],
                        constraints[i],
                        parameter_count,
                    )
            }
        },
    decreases values.len() - from,
{
    if from < values.len() {
        lemma_value_refusal(values, constraints, parameter_count, from + 1);
    }
}

/// An element can be added exactly if its definition is known, it has as many nodes and values as
/// the definition has terminals and parameters, all its nodes exist, each value is a number that
/// meets the constraints or a parameter that exists, and, where all values of a built-in element are
/// numbers, they go together.
pub proof fn law_elements_fit_their_definitions(
    registry: DefinitionRegistry,
    node_count: u32,
    parameter_count: int,
    element: ElementModel,
)
    ensures
        element_refusal(registry, node_count, parameter_count, element) is None <==> {
            let definition = definition_of(registry, element);
            let values = element.parameters;
            &&& 1 <= element.definition <= registry.spec_definitions().len()
            &&& element.terminals.len() == definition.spec_terminals().len()
            &&& values.len() == definition.spec_parameters().len()
            &&& forall|i: int|
                0 <= i < element.terminals.len() ==> #[trigger] element.terminals[i] < node_count
            &&& forall|i: int|
                0 <= i < values.len() ==> value_fits(
                    #[trigger] values[i],
                    definition.spec_parameters()[i],
                    parameter_count,
                )
            &&& definition.spec_body() is Primitive && (forall|i: int|
                0 <= i < values.len() ==> #[trigger] values[i] is Literal)
                ==> definition.spec_body()->Primitive_0.check(
                Seq::new(values.len(), |i: int| values[i]->Literal_0),
            ) is Ok
        },
{
    let definition = definition_of(registry, element);
    let values = element.parameters;
    lemma_first_outside(element.terminals, node_count, 0);
    lemma_value_refusal(values, definition.spec_parameters(), parameter_count, 0);
    if let DeviceBody::Primitive(kind) = definition.spec_body() {
        assert(crate::builder::literals(values) =~= Seq::new(
            values.len(),
            |i: int| values[i]->Literal_0,
        ));
    }
}

/// What is told of an element that cannot be added is true of it, and is the first fault: of its
/// definition, of how many nodes and values it has, of a node, of a value, and then of the values
/// together.
pub proof fn law_the_first_fault_of_an_element_is_told(
    registry: DefinitionRegistry,
    node_count: u32,
    parameter_count: int,
    element: ElementModel,
)
    ensures
        element_refusal(registry, node_count, parameter_count, element) matches Some(refusal) ==> {
            let definition = definition_of(registry, element);
            let known = 1 <= element.definition <= registry.spec_definitions().len();
            let terminals = element.terminals;
            let values = element.parameters;
            &&& refusal is UnknownDefinition <==> !known
            &&& refusal is TerminalCountMismatch <==> known && terminals.len()
                != definition.spec_terminals().len()
            &&& refusal is ParameterCountMismatch <==> known && terminals.len()
                == definition.spec_terminals().len() && values.len()
                != definition.spec_parameters().len()
            &&& refusal matches Refusal::NodeOutOfRange { terminal_index, node, node_count: count }
                ==> {
                &&& 0 <= terminal_index < terminals.len()
                &&& node == terminals[terminal_index]
                &&& count == node_count
                &&& node >= node_count
                &&& forall|i: int|
                    0 <= i < terminal_index ==> #[trigger] terminals[i] < node_count
            }
            &&& refusal matches Refusal::ParameterConstraint { parameter_index, source } ==> {
                &&& 0 <= parameter_index < values.len()
                &&& values[parameter_index] is Literal
                &&& definition.spec_parameters()[parameter_index].check(
                    values[parameter_index]->Literal_0,
                ) == Err::<(), crate::parameter::ParameterConstraintError>(source)
            }
            &&& refusal matches Refusal::ParameterOutOfRange {
                parameter_index,
                parameter,
                parameter_count: count,
            } ==> {
                &&& 0 <= parameter_index < values.len()
                &&& values[parameter_index] == ValueRef::Parameter(parameter)
                &&& parameter.value() >= parameter_count
            }
        },
{
    let definition = definition_of(registry, element);
    lemma_first_outside(element.terminals, node_count, 0);
    lemma_value_refusal(
        element.parameters,
        definition.spec_parameters(),
        parameter_count,
        0,
    );
}

/// Whether an element acts on two nodes at once: two of its terminals stand on them that are in one
/// partition of its definition.
pub open spec fn acts_on(
    registry: DefinitionRegistry,
    element: ElementModel,
    u: u32,
    v: u32,
) -> bool {
    let partitions = definition_of(registry, element).spec_partitions();
    exists|i: int, j: int|
        {
            &&& 0 <= i < element.terminals.len()
            &&& 0 <= j < element.terminals.len()
            &&& #[trigger] element.terminals[i] == u
            &&& #[trigger] element.terminals[j] == v
            &&& partitions[i] == partitions[j]
        }
}

/// The graph of the nodes that elements act on at once.
pub open spec fn acting(registry: DefinitionRegistry, elements: Seq<ElementModel>) -> spec_fn(
    u32,
    u32,
) -> bool {
    |u: u32, v: u32|
        exists|e: int|
            0 <= e < elements.len() && #[trigger] acts_on(registry, elements[e], u, v)
}

proof fn lemma_acting(registry: DefinitionRegistry, elements: Seq<ElementModel>)
    ensures
        acting(registry, elements) == node_edge(registry, elements),
{
    let f = acting(registry, elements);
    let g = node_edge(registry, elements);
    assert forall|u: u32, v: u32| #[trigger] f(u, v) == g(u, v) by {
        if f(u, v) {
            let e = choose|e: int|
                0 <= e < elements.len() && #[trigger] acts_on(registry, elements[e], u, v);
            let partitions = definition_of(registry, elements[e]).spec_partitions();
            let (i, j) = choose|i: int, j: int|
                {
                    &&& 0 <= i < elements[e].terminals.len()
                    &&& 0 <= j < elements[e].terminals.len()
                    &&& #[trigger] elements[e].terminals[i] == u
                    &&& #[trigger] elements[e].terminals[j] == v
                    &&& partitions[i] == partitions[j]
                };
            assert(crate::builder::pin(elements, e, i) == u);
            assert(crate::builder::pin(elements, e, j) == v);
        }
        if g(u, v) {
            let (e, i, j) = choose|e: int, i: int, j: int|
                0 <= e < elements.len() && 0 <= i < crate::builder::pins(elements, e) && 0 <= j
                    < crate::builder::pins(elements, e) && #[trigger] crate::builder::pin(
                    elements,
                    e,
                    i,
                ) == u && #[trigger] crate::builder::pin(elements, e, j) == v
                    && crate::builder::pin_partition(registry, elements, e, i)
                    == crate::builder::pin_partition(registry, elements, e, j);
            assert(elements[e].terminals[i] == u && elements[e].terminals[j] == v);
            assert(acts_on(registry, elements[e], u, v));
        }
    }
    assert(f =~= g);
}

/// Terminals of a definition that is built share a partition exactly if there is a chain of nodes
/// from one to the other of which each two that follow one another are acted on at once by an
/// element.
pub proof fn law_built_partitions_follow_the_elements(
    registry: DefinitionRegistry,
    elements: Seq<ElementModel>,
    terminals: Seq<u32>,
    a: int,
    b: int,
)
    requires
        0 <= a < terminals.len(),
        0 <= b < terminals.len(),
    ensures
        partition_of(registry, elements, terminals, a) == partition_of(
            registry,
            elements,
            terminals,
            b,
        ) <==> connected(acting(registry, elements), terminals[a], terminals[b]),
{
    lemma_acting(registry, elements);
    law_partitions_are_joined_terminals(registry, elements, terminals, a, b);
}

proof fn lemma_first_joined_within(
    registry: DefinitionRegistry,
    elements: Seq<ElementModel>,
    terminals: Seq<u32>,
    index: int,
    from: int,
)
    requires
        0 <= from <= index,
    ensures
        from <= first_joined(registry, elements, terminals, index, from) <= index,
        first_joined(registry, elements, terminals, index, from) == index <==> forall|k: int|
            from <= k < index ==> !connected(
                node_edge(registry, elements),
                #[trigger] terminals[k],
                terminals[index],
            ),
    decreases index - from,
{
    if from < index && !connected(
        node_edge(registry, elements),
        terminals[from],
        terminals[index],
    ) {
        lemma_first_joined_within(registry, elements, terminals, index, from + 1);
    }
}

proof fn lemma_groups_count(
    registry: DefinitionRegistry,
    elements: Seq<ElementModel>,
    terminals: Seq<u32>,
    count: int,
)
    requires
        0 <= count <= terminals.len(),
    ensures
        0 <= groups(registry, elements, terminals, count) <= count,
        forall|i: int|
            0 <= i < count ==> #[trigger] partition_of(registry, elements, terminals, i) < groups(
                registry,
                elements,
                terminals,
                count,
            ),
        groups(registry, elements, terminals, count) > 0 ==> exists|i: int|
            0 <= i < count && #[trigger] partition_of(registry, elements, terminals, i) == groups(
                registry,
                elements,
                terminals,
                count,
            ) - 1,
    decreases count,
{
    if count > 0 {
        lemma_groups_count(registry, elements, terminals, count - 1);
        let last = count - 1;
        lemma_first_joined_within(registry, elements, terminals, last, 0);
        let first = first_joined(registry, elements, terminals, last, 0);
        if first < last {
            assert(partition_of(registry, elements, terminals, first) < groups(
                registry,
                elements,
                terminals,
                last,
            ));
            lemma_first_is_its_own(registry, elements, terminals, last);
        } else {
            assert(partition_of(registry, elements, terminals, last) == groups(
                registry,
                elements,
                terminals,
                count,
            ) - 1);
        }
    }
}

/// The first terminal that a terminal is joined with is joined with no earlier one.
proof fn lemma_first_is_its_own(
    registry: DefinitionRegistry,
    elements: Seq<ElementModel>,
    terminals: Seq<u32>,
    index: int,
)
    requires
        0 <= index < terminals.len(),
    ensures
        partition_of(registry, elements, terminals, index) == partition_of(
            registry,
            elements,
            terminals,
            first_joined(registry, elements, terminals, index, 0),
        ),
{
    let first = first_joined(registry, elements, terminals, index, 0);
    lemma_first_joined_within(registry, elements, terminals, index, 0);
    crate::builder::lemma_first_joined(registry, elements, terminals, index, 0);
    law_partitions_are_joined_terminals(registry, elements, terminals, first, index);
}

/// Partitions are numbered from zero in the order in which they first occur: a terminal that is
/// joined with none before it has the next number, above all before it.
pub proof fn law_built_partitions_are_numbered_in_order(
    registry: DefinitionRegistry,
    elements: Seq<ElementModel>,
    terminals: Seq<u32>,
    index: int,
)
    requires
        0 <= index < terminals.len(),
    ensures
        partition_of(registry, elements, terminals, 0) == 0,
        0 <= partition_of(registry, elements, terminals, index) <= index,
        (forall|k: int|
            0 <= k < index ==> !connected(
                acting(registry, elements),
                #[trigger] terminals[k],
                terminals[index],
            )) ==> forall|k: int|
            0 <= k < index ==> #[trigger] partition_of(registry, elements, terminals, k)
                < partition_of(registry, elements, terminals, index),
{
    lemma_acting(registry, elements);
    lemma_first_joined_within(registry, elements, terminals, index, 0);
    lemma_first_joined_within(registry, elements, terminals, 0, 0);
    let first = first_joined(registry, elements, terminals, index, 0);
    lemma_groups_count(registry, elements, terminals, first);
    lemma_groups_count(registry, elements, terminals, index);
    assert(groups(registry, elements, terminals, 0) == 0);
}

proof fn lemma_first_unused(
    elements: Seq<ElementModel>,
    terminals: Seq<u32>,
    node_count: u32,
    from: int,
)
    requires
        0 <= from <= node_count,
    ensures
        match first_unused(elements, terminals, node_count, from) {
            None => forall|n: u32|
                from <= n < node_count ==> !#[trigger] crate::builder::unused(
                    elements,
                    terminals,
                    n,
                ),
            Some(node) => from <= node < node_count && crate::builder::unused(
                elements,
                terminals,
                node,
            ) && forall|n: u32|
                from <= n < node ==> !#[trigger] crate::builder::unused(elements, terminals, n),
        },
    decreases node_count - from,
{
    if from < node_count {
        lemma_first_unused(elements, terminals, node_count, from + 1);
    }
}

proof fn lemma_first_enclosed(
    registry: DefinitionRegistry,
    elements: Seq<ElementModel>,
    terminals: Seq<u32>,
    node_count: u32,
    from: int,
)
    requires
        0 <= from <= node_count,
    ensures
        match first_enclosed(registry, elements, terminals, node_count, from) {
            None => forall|n: u32|
                from <= n < node_count ==> !#[trigger] crate::builder::enclosed(
                    registry,
                    elements,
                    terminals,
                    n,
                ),
            Some(node) => from <= node < node_count && crate::builder::enclosed(
                registry,
                elements,
                terminals,
                node,
            ),
        },
    decreases node_count - from,
{
    if from < node_count {
        lemma_first_enclosed(registry, elements, terminals, node_count, from + 1);
    }
}

/// Whether a terminal of an element stands on a node.
pub open spec fn touches(element: ElementModel, node: u32) -> bool {
    element.terminals.contains(node)
}

/// A definition can be built exactly if every node is an outer terminal or one that an element stands
/// on, everything that elements stand on is joined with an outer terminal, and no more than 65536
/// partitions result.
pub proof fn law_everything_built_is_used_and_reached(
    registry: DefinitionRegistry,
    elements: Seq<ElementModel>,
    terminals: Seq<u32>,
    node_count: u32,
)
    ensures
        refusal_to_build(registry, elements, terminals, node_count) is None ==> {
            &&& forall|n: u32|
                n < node_count && !(#[trigger] terminals.contains(n)) ==> exists|e: int|
                    0 <= e < elements.len() && touches(#[trigger] elements[e], n)
            &&& forall|e: int, n: u32|
                0 <= e < elements.len() && n < node_count && #[trigger] touches(elements[e], n)
                    ==> exists|t: int|
                    0 <= t < terminals.len() && connected(
                        acting(registry, elements),
                        n,
                        #[trigger] terminals[t],
                    )
            &&& forall|t: int|
                0 <= t < terminals.len() ==> #[trigger] partition_of(
                    registry,
                    elements,
                    terminals,
                    t,
                ) < 0x1_0000
        },
        refusal_to_build(registry, elements, terminals, node_count) matches Some(
            Refusal::UnusedInternalNode { node },
        ) ==> node < node_count && !terminals.contains(node) && forall|e: int|
            0 <= e < elements.len() ==> !touches(#[trigger] elements[e], node),
        refusal_to_build(registry, elements, terminals, node_count) matches Some(
            Refusal::InternalComponentWithoutTerminal { node },
        ) ==> node < node_count && (exists|e: int|
            0 <= e < elements.len() && touches(#[trigger] elements[e], node)) && forall|t: int|
            0 <= t < terminals.len() ==> !connected(
                acting(registry, elements),
                node,
                #[trigger] terminals[t],
            ),
        refusal_to_build(registry, elements, terminals, node_count) matches Some(refusal) ==> {
            ||| refusal is UnusedInternalNode
            ||| refusal is InternalComponentWithoutTerminal
            ||| refusal is DevicePartitionIdExhausted && exists|t: int|
                0 <= t < terminals.len() && #[trigger] partition_of(
                    registry,
                    elements,
                    terminals,
                    t,
                ) >= 0x1_0000
        },
{
    lemma_acting(registry, elements);
    lemma_first_unused(elements, terminals, node_count, 0);
    lemma_first_enclosed(registry, elements, terminals, node_count, 0);
    lemma_groups_count(registry, elements, terminals, terminals.len() as int);
    assert forall|n: u32| #[trigger]
        crate::builder::referenced(elements, n) <==> exists|e: int|
            0 <= e < elements.len() && touches(#[trigger] elements[e], n) by {
        if crate::builder::referenced(elements, n) {
            let (e, i) = choose|e: int, i: int|
                0 <= e < elements.len() && 0 <= i < crate::builder::pins(elements, e)
                    && #[trigger] crate::builder::pin(elements, e, i) == n;
            assert(elements[e].terminals[i] == n);
            assert(touches(elements[e], n));
        }
        if exists|e: int| 0 <= e < elements.len() && touches(#[trigger] elements[e], n) {
            let e = choose|e: int| 0 <= e < elements.len() && touches(#[trigger] elements[e], n);
            let i = choose|i: int|
                0 <= i < elements[e].terminals.len() && elements[e].terminals[i] == n;
            assert(crate::builder::pin(elements, e, i) == n);
        }
    }
    if refusal_to_build(registry, elements, terminals, node_count) is None {
        assert forall|n: u32| n < node_count && !(#[trigger] terminals.contains(n)) implies exists|
            e: int,
        | 0 <= e < elements.len() && touches(#[trigger] elements[e], n) by {
            assert(!crate::builder::unused(elements, terminals, n));
            assert(crate::builder::referenced(elements, n));
        }
        assert forall|e: int, n: u32|
            0 <= e < elements.len() && n < node_count && #[trigger] touches(
                elements[e],
                n,
            ) implies exists|t: int|
            0 <= t < terminals.len() && connected(
                acting(registry, elements),
                n,
                #[trigger] terminals[t],
            ) by {
            assert(touches(elements[e], n));
            assert(crate::builder::referenced(elements, n));
            assert(!crate::builder::enclosed(registry, elements, terminals, n));
        }
    }
}

/// A definition has exactly as many partitions as its terminals need: one more than the highest
/// number among them, and none without terminals.
pub proof fn law_partitions_are_counted(partitions: Seq<u32>)
    ensures
        partitions.len() == 0 ==> partition_bound(partitions) == 0,
        forall|i: int|
            0 <= i < partitions.len() ==> #[trigger] partitions[i] < partition_bound(partitions),
        partitions.len() > 0 ==> exists|i: int|
            0 <= i < partitions.len() && #[trigger] partitions[i] + 1 == partition_bound(
                partitions,
            ),
    decreases partitions.len(),
{
    if partitions.len() > 0 {
        let init = partitions.drop_last();
        law_partitions_are_counted(init);
        assert forall|i: int| 0 <= i < partitions.len() implies #[trigger] partitions[i]
            < partition_bound(partitions) by {
            if i < init.len() {
                assert(init[i] == partitions[i]);
            }
        }
        if partition_bound(partitions) == partitions.last() + 1 {
            assert(partitions[partitions.len() - 1] + 1 == partition_bound(partitions));
        } else {
            let i = choose|i: int|
                0 <= i < init.len() && #[trigger] init[i] + 1 == partition_bound(init);
            assert(partitions[i] == init[i]);
        }
    }
}

} // verus!
