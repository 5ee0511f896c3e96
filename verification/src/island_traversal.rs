//! The traversal that finds the connected parts of an island.

use crate::connection::{
    component_device, component_partition, group_words, is_terminal_word, is_word,
    lemma_component_word, terminal_word, wire_word, word_id, word_terminal, DeviceComponent,
};
use crate::graph::{
    connected, lemma_connected_edge, lemma_connected_map, lemma_connected_self, lemma_connected_sym,
    lemma_connected_trans,
};
use crate::network::Network;
use crate::registry::DefinitionRegistry;
use crate::scratch::TraversalScratch;
use crate::small_list::{IdList, WordList};
use crate::stride::{lemma_cell_inside, lemma_cells_apart};
use crate::topology::{
    component_of, is_component, network_ok, partition_count, terminal_component, terminal_partition,
    vertex_edge, vertex_of, wire_edge, DerivedTopology, Net, Vertex,
};
use crate::topology_steps::found_before;
use crate::traversal::{
    lemma_numbers_bounded, lemma_push_contains, lemma_subset_bounded, starts_in,
};
use vstd::prelude::*;

verus! {

/// What an island is made of.
#[derive(Debug, Clone, Copy, PartialEq, Eq, Structural)]
pub enum IslandVertex {
    Net(u32),
    Component(u64),
}

/// A connected part of an island.
#[derive(Debug)]
pub struct IslandPiece {
    pub(crate) nets: IdList,
    pub(crate) components: WordList,
}

impl IslandPiece {
    pub(crate) open spec fn cost(self) -> nat {
        self.nets@.len() + self.components@.len()
    }

    /// How much has to be rewritten to move the piece to another island.
    pub(crate) fn rewrite_cost(&self) -> (result: u128)
        ensures
            result == self.cost(),
    {
        self.nets.len() as u128 + self.components.len() as u128
    }

    pub(crate) open spec fn holds(self, vertex: IslandVertex) -> bool {
        match vertex {
            IslandVertex::Net(n) => self.nets@.contains(n),
            IslandVertex::Component(c) => self.components@.contains(c),
        }
    }
}

/// The net or component that a packed wire or terminal belongs to.
pub(crate) open spec fn island_vertex(
    topology: DerivedTopology,
    network: Network,
    definitions: DefinitionRegistry,
    word: u64,
) -> IslandVertex {
    if is_terminal_word(word) {
        IslandVertex::Component(component_of(network, definitions, word))
    } else {
        IslandVertex::Net(topology.net_of(word_id(word)))
    }
}

/// Whether a connection leads from one net or component to another.
pub(crate) open spec fn adjacent(
    topology: DerivedTopology,
    network: Network,
    definitions: DefinitionRegistry,
    a: IslandVertex,
    b: IslandVertex,
) -> bool {
    exists|x: u64, y: u64| #[trigger]
        network.linked(x, y) && island_vertex(topology, network, definitions, x) == a
            && island_vertex(topology, network, definitions, y) == b
}

/// Whether a net or component belongs to an island.
pub(crate) open spec fn belongs(
    topology: DerivedTopology,
    network: Network,
    definitions: DefinitionRegistry,
    island: u32,
    vertex: IslandVertex,
) -> bool {
    match vertex {
        IslandVertex::Net(n) => topology.nets@.contains_key(n) && topology.net_label(n) == island,
        IslandVertex::Component(c) => is_component(network, definitions, c)
            && topology.component_label(network, c) == island,
    }
}

/// Whether the wires of a net can be reached from a vertex of the graph of wires and components.
pub(crate) open spec fn net_reached(
    topology: DerivedTopology,
    network: Network,
    definitions: DefinitionRegistry,
    root: Vertex,
    net: u32,
) -> bool {
    forall|w: u32| #[trigger]
        topology.nets@[net].wires@.contains(w) ==> connected(
            vertex_edge(network, definitions),
            root,
            Vertex::Wire(w),
        )
}

/// Whether a net or component can be reached from a vertex of the graph of wires and components.
pub(crate) open spec fn reached(
    topology: DerivedTopology,
    network: Network,
    definitions: DefinitionRegistry,
    root: Vertex,
    vertex: IslandVertex,
) -> bool {
    match vertex {
        IslandVertex::Net(n) => net_reached(topology, network, definitions, root, n),
        IslandVertex::Component(c) => connected(
            vertex_edge(network, definitions),
            root,
            Vertex::Component(c),
        ),
    }
}

/// Connections lead both ways.
pub proof fn lemma_vertex_edge_sym(network: Network, definitions: DefinitionRegistry)
    requires
        network.wf(),
    ensures
        forall|x: Vertex, y: Vertex| #[trigger]
            vertex_edge(network, definitions)(x, y) ==> vertex_edge(network, definitions)(y, x),
{
    assert forall|a: Vertex, b: Vertex| #[trigger]
        vertex_edge(network, definitions)(a, b) implies vertex_edge(network, definitions)(b, a) by {
        let (x, y) = choose|x: u64, y: u64| #[trigger]
            network.linked(x, y) && vertex_of(network, definitions, x) == a && vertex_of(
                network,
                definitions,
                y,
            ) == b;
        assert(network.linked(y, x));
    }
}

/// Wires that are connected through wires are connected.
pub proof fn lemma_wires_connected(
    network: Network,
    definitions: DefinitionRegistry,
    a: u32,
    b: u32,
)
    requires
        connected(wire_edge(network), a, b),
    ensures
        connected(vertex_edge(network, definitions), Vertex::Wire(a), Vertex::Wire(b)),
{
    broadcast use group_words;

    let map = |w: u32| Vertex::Wire(w);
    assert forall|x: u32, y: u32| #[trigger] wire_edge(network)(x, y) implies vertex_edge(
        network,
        definitions,
    )(map(x), map(y)) by {
        assert(network.linked(wire_word(x), wire_word(y)));
        assert(vertex_of(network, definitions, wire_word(x)) == Vertex::Wire(x));
        assert(vertex_of(network, definitions, wire_word(y)) == Vertex::Wire(y));
    }
    lemma_connected_map(wire_edge(network), vertex_edge(network, definitions), map, a, b);
}

/// What the word at the end of a connection stands for exists.
pub proof fn lemma_linked_live(network: Network, definitions: DefinitionRegistry, x: u64, y: u64)
    requires
        network_ok(network, definitions),
        network.linked(x, y),
    ensures
        is_word(x),
        !is_terminal_word(x) ==> network.wire_live(word_id(x)),
        is_terminal_word(x) ==> {
            &&& network.device_live(word_id(x))
            &&& word_terminal(x) < network.device_model(word_id(x)).terminals.len()
            &&& is_component(network, definitions, component_of(network, definitions, x))
        },
{
    broadcast use {group_words, lemma_component_word};

    if is_terminal_word(x) {
        let d = word_id(x);
        network.arena().lemma_fits(definitions, d);
        let id = network.device_model(d).definition.value();
        let def = definitions.definition(id);
        assert(definitions.spec_definitions()[id - 1].wf());
        assert(def.spec_partitions()[word_terminal(x) as int] < def.spec_partition_count());
    }
}

/// From a reached net or component, a connection reaches the next one.
pub(crate) proof fn lemma_reached_step(
    topology: DerivedTopology,
    network: Network,
    definitions: DefinitionRegistry,
    broken: Set<u32>,
    root: Vertex,
    a: IslandVertex,
    b: IslandVertex,
)
    requires
        network_ok(network, definitions),
        topology.consistent_except(network, definitions, broken),
        reached(topology, network, definitions, root, a),
        adjacent(topology, network, definitions, a, b),
    ensures
        reached(topology, network, definitions, root, b),
{
    broadcast use group_words;

    let edge = vertex_edge(network, definitions);
    let (x, y) = choose|x: u64, y: u64| #[trigger]
        network.linked(x, y) && island_vertex(topology, network, definitions, x) == a
            && island_vertex(topology, network, definitions, y) == b;
    let vx = vertex_of(network, definitions, x);
    let vy = vertex_of(network, definitions, y);
    lemma_linked_live(network, definitions, x, y);
    assert(network.linked(y, x));
    lemma_linked_live(network, definitions, y, x);
    if !is_terminal_word(x) {
        assert(network.wire_live(word_id(x)));
        let n = topology.net_of(word_id(x));
        assert(a == IslandVertex::Net(n));
        assert(net_reached(topology, network, definitions, root, n));
        assert(topology.nets@[n].wires@.contains(word_id(x)));
        assert(connected(edge, root, Vertex::Wire(word_id(x))));
        assert(connected(edge, root, vx));
    } else {
        let c = component_of(network, definitions, x);
        assert(a == IslandVertex::Component(c));
        assert(reached(topology, network, definitions, root, IslandVertex::Component(c)));
        assert(connected(edge, root, vx));
    }
    assert(connected(edge, root, vx));
    assert(edge(vx, vy));
    lemma_connected_edge(edge, vx, vy);
    lemma_connected_trans(edge, root, vx, vy);
    if !is_terminal_word(y) {
        let n = topology.net_of(word_id(y));
        assert(network.wire_live(word_id(y)));
        assert forall|w: u32| #[trigger] topology.nets@[n].wires@.contains(w) implies connected(
            edge,
            root,
            Vertex::Wire(w),
        ) by {
            assert(topology.nets@.contains_key(n));
            assert(network.wire_live(w) && topology.net_of(w) == n);
            assert(topology.net_of(word_id(y)) == topology.net_of(w));
            lemma_wires_connected(network, definitions, word_id(y), w);
            lemma_connected_trans(edge, root, vy, Vertex::Wire(w));
        }
    }
}

/// A connection leads from a net or component of an island to one of the same island.
pub(crate) proof fn lemma_belongs_step(
    topology: DerivedTopology,
    network: Network,
    definitions: DefinitionRegistry,
    broken: Set<u32>,
    island: u32,
    a: IslandVertex,
    b: IslandVertex,
)
    requires
        network_ok(network, definitions),
        topology.consistent_except(network, definitions, broken),
        belongs(topology, network, definitions, island, a),
        adjacent(topology, network, definitions, a, b),
    ensures
        belongs(topology, network, definitions, island, b),
{
    let (x, y) = choose|x: u64, y: u64| #[trigger]
        network.linked(x, y) && island_vertex(topology, network, definitions, x) == a
            && island_vertex(topology, network, definitions, y) == b;
    assert(network.linked(y, x));
    lemma_linked_live(network, definitions, y, x);
    assert(topology.label(network, definitions, x) == topology.label(network, definitions, y));
    if !is_terminal_word(y) {
        assert(network.wire_live(word_id(y)));
    }
}

/// The mark that belongs to a component: its chunk, and its position in the chunk.
pub(crate) open spec fn component_slot(
    topology: DerivedTopology,
    network: Network,
    component: u64,
) -> (int, int) {
    let device = component_device(component);
    let chunk = network.arena().chunk_of(device);
    (
        chunk,
        network.arena().row_of(device) * topology.device_chunks@[chunk].partitions()
            + component_partition(component),
    )
}

/// The place of a component among the chunks that mirror the device arena.
pub(crate) proof fn lemma_component_place(
    topology: DerivedTopology,
    network: Network,
    definitions: DefinitionRegistry,
    component: u64,
)
    requires
        network_ok(network, definitions),
        topology.structure_ok(network, definitions),
        is_component(network, definitions, component),
    ensures
        ({
            let device = component_device(component);
            let chunk = network.arena().chunk_of(device);
            let row = network.arena().row_of(device);
            &&& 0 <= chunk < topology.device_chunks@.len()
            &&& topology.device_chunks@[chunk].wf()
            &&& 0 <= row < topology.device_chunks@[chunk].rows() <= 64
            &&& component_partition(component) < topology.device_chunks@[chunk].partitions()
                <= 0x1_0000
            &&& 0 <= component_slot(topology, network, component).1
                < topology.device_chunks@[chunk].rows() * topology.device_chunks@[chunk].partitions()
            &&& network.arena().device_at(chunk, row) == device
        }),
{
    let device = component_device(component);
    network.arena().lemma_wf();
    assert(network.arena().resident(device));
    let chunk = network.arena().chunk_of(device);
    assert(network.arena().rows(chunk) <= 64);
    assert(topology.device_chunks@[chunk].wf());
    network.arena().lemma_shaped(definitions, chunk);
    assert(definitions.spec_definitions()[network.arena().spec_chunk_definition(chunk).value()
        - 1].wf());
    lemma_cell_inside(
        topology.device_chunks@[chunk].rows(),
        topology.device_chunks@[chunk].partitions(),
        network.arena().row_of(device),
        component_partition(component) as int,
    );
}

/// Different components have different marks.
pub(crate) proof fn lemma_slots_apart(
    topology: DerivedTopology,
    network: Network,
    definitions: DefinitionRegistry,
    a: u64,
    b: u64,
)
    requires
        network_ok(network, definitions),
        topology.structure_ok(network, definitions),
        is_component(network, definitions, a),
        is_component(network, definitions, b),
        component_slot(topology, network, a) == component_slot(topology, network, b),
    ensures
        a == b,
{
    lemma_component_place(topology, network, definitions, a);
    lemma_component_place(topology, network, definitions, b);
    let chunk = network.arena().chunk_of(component_device(a));
    lemma_cells_apart(
        topology.device_chunks@[chunk].partitions(),
        network.arena().row_of(component_device(a)),
        component_partition(a) as int,
        network.arena().row_of(component_device(b)),
        component_partition(b) as int,
    );
}

/// Whether a net or component is marked.
pub(crate) open spec fn marked(
    topology: DerivedTopology,
    network: Network,
    scratch: TraversalScratch,
    vertex: IslandVertex,
) -> bool {
    match vertex {
        IslandVertex::Net(n) => scratch.net_marked(n - 1),
        IslandVertex::Component(c) => {
            let slot = component_slot(topology, network, c);
            scratch.component_marked(slot.0, slot.1)
        },
    }
}

/// Whether there is a mark for every net and every component.
pub(crate) open spec fn marks_fit(
    topology: DerivedTopology,
    network: Network,
    definitions: DefinitionRegistry,
    scratch: TraversalScratch,
) -> bool {
    &&& scratch.wf()
    &&& scratch.net_room() >= topology.nets.spec_slot_count()
    &&& forall|c: u64| #[trigger]
        is_component(network, definitions, c) ==> scratch.component_room(
            component_slot(topology, network, c).0,
            component_slot(topology, network, c).1,
        )
}

/// Whether a net or component exists.
pub(crate) open spec fn vertex_live(
    topology: DerivedTopology,
    network: Network,
    definitions: DefinitionRegistry,
    vertex: IslandVertex,
) -> bool {
    match vertex {
        IslandVertex::Net(n) => topology.nets@.contains_key(n),
        IslandVertex::Component(c) => is_component(network, definitions, c),
    }
}

/// Marks a net or component, and puts it on the stack if it was not marked.
fn visit(
    topology: &DerivedTopology,
    definitions: &DefinitionRegistry,
    network: &Network,
    vertex: IslandVertex,
    stack: &mut Vec<IslandVertex>,
    scratch: &mut TraversalScratch,
)
    requires
        network_ok(*network, *definitions),
        topology.structure_ok(*network, *definitions),
        marks_fit(*topology, *network, *definitions, *old(scratch)),
        vertex_live(*topology, *network, *definitions, vertex),
    ensures
        marks_fit(*topology, *network, *definitions, *final(scratch)),
        forall|v: IslandVertex| #[trigger]
            vertex_live(*topology, *network, *definitions, v) ==> (marked(
                *topology,
                *network,
                *final(scratch),
                v,
            ) <==> (marked(*topology, *network, *old(scratch), v) || v == vertex)),
        final(stack)@ == if marked(*topology, *network, *old(scratch), vertex) {
            old(stack)@
        } else {
            old(stack)@.push(vertex)
        },
{
    broadcast use crate::dense_store::DenseIdStore::lemma_live;

    let fresh = match vertex {
        IslandVertex::Net(n) => {
            assert(topology.nets@.contains_key(n));
            let fresh = scratch.visit_net((n - 1) as usize);
            proof {
                assert forall|v: IslandVertex| #[trigger]
                    vertex_live(*topology, *network, *definitions, v) implies (marked(
                    *topology,
                    *network,
                    *scratch,
                    v,
                ) <==> (marked(*topology, *network, *old(scratch), v) || v == vertex)) by {
                    match v {
                        IslandVertex::Net(m) => {
                            assert(topology.nets@.contains_key(m));
                        },
                        IslandVertex::Component(c) => {},
                    }
                }
            }
            fresh
        },
        IslandVertex::Component(c) => {
            proof {
                lemma_component_place(*topology, *network, *definitions, c);
                assert(is_component(*network, *definitions, c));
            }
            let (chunk, index) = topology.component_storage_index(definitions, network, c);
            let fresh = scratch.visit_component(chunk, index);
            proof {
                assert forall|v: IslandVertex| #[trigger]
                    vertex_live(*topology, *network, *definitions, v) implies (marked(
                    *topology,
                    *network,
                    *scratch,
                    v,
                ) <==> (marked(*topology, *network, *old(scratch), v) || v == vertex)) by {
                    match v {
                        IslandVertex::Net(m) => {
                            assert(scratch.net_marked(m - 1) == old(scratch).net_marked(m - 1));
                        },
                        IslandVertex::Component(other) => {
                            lemma_component_place(*topology, *network, *definitions, other);
                            let slot = component_slot(*topology, *network, other);
                            assert(old(scratch).component_room(slot.0, slot.1));
                            if slot == component_slot(*topology, *network, c) {
                                lemma_slots_apart(*topology, *network, *definitions, other, c);
                            }
                        },
                    }
                }
            }
            fresh
        },
    };
    if fresh {
        stack.push(vertex);
    }
}

/// What is known while the neighbours of a net or component are visited.
pub(crate) open spec fn expanding(
    topology: DerivedTopology,
    network: Network,
    definitions: DefinitionRegistry,
    from: IslandVertex,
    base_stack: Seq<IslandVertex>,
    base_scratch: TraversalScratch,
    stack: Seq<IslandVertex>,
    scratch: TraversalScratch,
) -> bool {
    let tail = stack.skip(base_stack.len() as int);
    &&& marks_fit(topology, network, definitions, scratch)
    &&& stack.len() >= base_stack.len()
    &&& stack.take(base_stack.len() as int) == base_stack
    &&& tail.no_duplicates()
    &&& forall|v: IslandVertex| #[trigger]
        tail.contains(v) ==> {
            &&& adjacent(topology, network, definitions, from, v)
            &&& vertex_live(topology, network, definitions, v)
            &&& !marked(topology, network, base_scratch, v)
        }
    &&& forall|v: IslandVertex| #[trigger]
        vertex_live(topology, network, definitions, v) ==> (marked(topology, network, scratch, v)
            <==> (marked(topology, network, base_scratch, v) || tail.contains(v)))
}

/// Visits a neighbour.
fn visit_neighbour(
    topology: &DerivedTopology,
    definitions: &DefinitionRegistry,
    network: &Network,
    to: IslandVertex,
    stack: &mut Vec<IslandVertex>,
    scratch: &mut TraversalScratch,
    Ghost(from): Ghost<IslandVertex>,
    Ghost(base_stack): Ghost<Seq<IslandVertex>>,
    Ghost(base_scratch): Ghost<TraversalScratch>,
)
    requires
        network_ok(*network, *definitions),
        topology.structure_ok(*network, *definitions),
        expanding(
            *topology,
            *network,
            *definitions,
            from,
            base_stack,
            base_scratch,
            old(stack)@,
            *old(scratch),
        ),
        adjacent(*topology, *network, *definitions, from, to),
        vertex_live(*topology, *network, *definitions, to),
    ensures
        expanding(
            *topology,
            *network,
            *definitions,
            from,
            base_stack,
            base_scratch,
            final(stack)@,
            *final(scratch),
        ),
        marked(*topology, *network, *final(scratch), to),
        forall|v: IslandVertex| #[trigger]
            vertex_live(*topology, *network, *definitions, v) && marked(
                *topology,
                *network,
                *old(scratch),
                v,
            ) ==> marked(*topology, *network, *final(scratch), v),
{
    visit(topology, definitions, network, to, stack, scratch);
    proof {
        let base = base_stack.len() as int;
        let before = old(stack)@.skip(base);
        let tail = stack@.skip(base);
        if marked(*topology, *network, *old(scratch), to) {
            assert(vertex_live(*topology, *network, *definitions, to));
        } else {
            assert(tail =~= before.push(to));
            assert(stack@.take(base) =~= old(stack)@.take(base));
            lemma_push_contains(before, to);
            assert(vertex_live(*topology, *network, *definitions, to));
            assert(!before.contains(to));
        }
    }
}

/// Visits the components that are attached to a net.
fn visit_net_components(
    topology: &DerivedTopology,
    definitions: &DefinitionRegistry,
    network: &Network,
    net_id: u32,
    stack: &mut Vec<IslandVertex>,
    scratch: &mut TraversalScratch,
    Ghost(broken): Ghost<Set<u32>>,
)
    requires
        network_ok(*network, *definitions),
        topology.consistent_except(*network, *definitions, broken),
        topology.nets@.contains_key(net_id),
        marks_fit(*topology, *network, *definitions, *old(scratch)),
    ensures
        expanding(
            *topology,
            *network,
            *definitions,
            IslandVertex::Net(net_id),
            old(stack)@,
            *old(scratch),
            final(stack)@,
            *final(scratch),
        ),
        forall|v: IslandVertex| #[trigger]
            adjacent(*topology, *network, *definitions, IslandVertex::Net(net_id), v)
                && vertex_live(*topology, *network, *definitions, v) && v != IslandVertex::Net(
                net_id,
            ) ==> marked(*topology, *network, *final(scratch), v),
{
    broadcast use group_words;

    let ghost from = IslandVertex::Net(net_id);
    let ghost base_stack = stack@;
    let ghost base_scratch = *scratch;
    let net = topology.nets.get(net_id).unwrap();
    assert(topology.net_lists(*network, *definitions, net_id));
    let mut index: usize = 0;
    proof {
        assert(stack@.skip(stack@.len() as int) =~= Seq::<IslandVertex>::empty());
        assert(stack@.take(stack@.len() as int) =~= stack@);
    }
    while index < net.terminal_components.len()
        invariant
            network_ok(*network, *definitions),
            topology.consistent_except(*network, *definitions, broken),
            topology.nets@.contains_key(net_id),
            *net == topology.nets@[net_id],
            topology.net_lists(*network, *definitions, net_id),
            from == IslandVertex::Net(net_id),
            index <= net.terminal_components@.len(),
            expanding(
                *topology,
                *network,
                *definitions,
                from,
                base_stack,
                base_scratch,
                stack@,
                *scratch,
            ),
            forall|i: int|
                0 <= i < index ==> marked(
                    *topology,
                    *network,
                    *scratch,
                    IslandVertex::Component(#[trigger] net.terminal_components@[i]),
                ),
        decreases net.terminal_components@.len() - index,
    {
        broadcast use group_words;

        let component: u64 = net.terminal_components.get(index);
        let to = IslandVertex::Component(component);
        proof {
            let x = net.terminals@[index as int];
            assert(net.terminals@.contains(x));
            assert(topology.attached(*network, x, net_id));
            let y = choose|y: u64| #[trigger]
                network.linked(x, y) && !is_terminal_word(y) && topology.net_of(word_id(y))
                    == net_id;
            assert(network.linked(y, x));
            lemma_linked_live(*network, *definitions, x, y);
            assert(net.terminal_components@[index as int] == component_of(
                *network,
                *definitions,
                x,
            ));
            assert(island_vertex(*topology, *network, *definitions, y) == from);
            assert(island_vertex(*topology, *network, *definitions, x) == to);
            assert(adjacent(*topology, *network, *definitions, from, to));
        }
        let ghost before = *scratch;
        visit_neighbour(
            topology,
            definitions,
            network,
            to,
            stack,
            scratch,
            Ghost(from),
            Ghost(base_stack),
            Ghost(base_scratch),
        );
        proof {
            assert forall|i: int| 0 <= i < index + 1 implies marked(
                *topology,
                *network,
                *scratch,
                IslandVertex::Component(#[trigger] net.terminal_components@[i]),
            ) by {
                if i < index {
                    let x = net.terminals@[i];
                    assert(net.terminals@.contains(x));
                    assert(topology.attached(*network, x, net_id));
                    let y = choose|y: u64| #[trigger]
                        network.linked(x, y) && !is_terminal_word(y) && topology.net_of(word_id(y))
                            == net_id;
                    lemma_linked_live(*network, *definitions, x, y);
                    let v = IslandVertex::Component(net.terminal_components@[i]);
                    assert(vertex_live(*topology, *network, *definitions, v));
                }
            }
        }
        index = index + 1;
    }
    proof {
        assert forall|v: IslandVertex| #[trigger]
            adjacent(*topology, *network, *definitions, from, v) && vertex_live(
                *topology,
                *network,
                *definitions,
                v,
            ) && v != from implies marked(*topology, *network, *scratch, v) by {
            let (x, y) = choose|x: u64, y: u64| #[trigger]
                network.linked(x, y) && island_vertex(*topology, *network, *definitions, x) == from
                    && island_vertex(*topology, *network, *definitions, y) == v;
            assert(network.linked(y, x));
            if is_terminal_word(y) {
                assert(topology.attached(*network, y, net_id));
                assert(net.terminals@.contains(y));
                let i = choose|i: int| 0 <= i < net.terminals@.len() && net.terminals@[i] == y;
                assert(net.terminal_components@[i] == component_of(*network, *definitions, y));
            } else {
                assert(topology.net_of(word_id(x)) == topology.net_of(word_id(y)));
            }
        }
    }
}

/// Visits the nets and components that the terminals of a component are connected to.
fn visit_component_terminals(
    topology: &DerivedTopology,
    definitions: &DefinitionRegistry,
    network: &Network,
    component: u64,
    stack: &mut Vec<IslandVertex>,
    scratch: &mut TraversalScratch,
    Ghost(broken): Ghost<Set<u32>>,
)
    requires
        network_ok(*network, *definitions),
        topology.consistent_except(*network, *definitions, broken),
        is_component(*network, *definitions, component),
        marks_fit(*topology, *network, *definitions, *old(scratch)),
    ensures
        expanding(
            *topology,
            *network,
            *definitions,
            IslandVertex::Component(component),
            old(stack)@,
            *old(scratch),
            final(stack)@,
            *final(scratch),
        ),
        forall|v: IslandVertex| #[trigger]
            adjacent(*topology, *network, *definitions, IslandVertex::Component(component), v)
                && vertex_live(*topology, *network, *definitions, v) ==> marked(
                *topology,
                *network,
                *final(scratch),
                v,
            ),
{
    broadcast use {group_words, lemma_component_word};

    let ghost from = IslandVertex::Component(component);
    let ghost base_stack = stack@;
    let ghost base_scratch = *scratch;
    let unpacked = DeviceComponent::from_word(component);
    let device_id = unpacked.device();
    let number: u32 = device_id.get();
    let ghost d = device_id.value();
    proof {
        network.arena().lemma_fits(*definitions, d);
        assert(stack@.skip(stack@.len() as int) =~= Seq::<IslandVertex>::empty());
        assert(stack@.take(stack@.len() as int) =~= stack@);
    }
    let device = network.device(device_id).unwrap();
    let definition = definitions.get(device.definition_id()).unwrap();
    let ghost def = *definition;
    assert(definitions.spec_definitions()[device@.definition.value() - 1].wf());
    let terminals = device.terminals();
    let partitions = definition.terminal_partitions();
    let partition: u32 = unpacked.partition().id() as u32;
    let mut index: usize = 0;
    while index < terminals.len()
        invariant
            network_ok(*network, *definitions),
            topology.consistent_except(*network, *definitions, broken),
            is_component(*network, *definitions, component),
            from == IslandVertex::Component(component),
            d == device_id.value() == component_device(component),
            d != 0,
            network.device_live(d),
            terminals@ == network.device_model(d).terminals,
            partitions@ == def.spec_partitions(),
            def == definitions.definition(network.device_model(d).definition.value()),
            def.wf(),
            terminals@.len() == partitions@.len(),
            partition == component_partition(component),
            index <= terminals@.len(),
            expanding(
                *topology,
                *network,
                *definitions,
                from,
                base_stack,
                base_scratch,
                stack@,
                *scratch,
            ),
            forall|x: u64, y: u64| #[trigger]
                network.linked(x, y) && is_terminal_word(x) && component_of(
                    *network,
                    *definitions,
                    x,
                ) == component && word_terminal(x) < index ==> marked(
                    *topology,
                    *network,
                    *scratch,
                    island_vertex(*topology, *network, *definitions, y),
                ),
        decreases terminals@.len() - index,
    {
        broadcast use {group_words, lemma_component_word};

        let ghost before = *scratch;
        let ghost this = terminal_word(d, index as u32);
        let matching = partitions.get(index) == partition;
        assert(def.spec_partitions()[index as int] < def.spec_partition_count());
        let mut followed = false;
        if matching {
            if let Some(connection) = terminals[index] {
                let ghost word = connection.word();
                let packed: u64 = connection.to_word();
                proof {
                    assert(network.arena().device_model(d).terminals[index as int] is Some);
                    assert(index < 0x8000_0000);
                    assert(network.linked(this, word));
                    assert(network.linked(word, this));
                    lemma_linked_live(*network, *definitions, word, this);
                    assert(component_of(*network, *definitions, this) == component);
                }
                let to = match connection.as_wire() {
                    Some(wire) => {
                        assert(network.wire_live(wire.value()));
                        IslandVertex::Net(topology.wire_net_map[wire.index()])
                    },
                    None => {
                        let (other, terminal) = connection.as_terminal().unwrap();
                        IslandVertex::Component(
                            terminal_component(definitions, network, other, terminal).to_word(),
                        )
                    },
                };
                proof {
                    assert(island_vertex(*topology, *network, *definitions, this) == from);
                    assert(island_vertex(*topology, *network, *definitions, word) == to);
                    assert(adjacent(*topology, *network, *definitions, from, to));
                }
                visit_neighbour(
                    topology,
                    definitions,
                    network,
                    to,
                    stack,
                    scratch,
                    Ghost(from),
                    Ghost(base_stack),
                    Ghost(base_scratch),
                );
                followed = true;
            }
        }
        proof {
            assert forall|x: u64, y: u64| #[trigger]
                network.linked(x, y) && is_terminal_word(x) && component_of(
                    *network,
                    *definitions,
                    x,
                ) == component && word_terminal(x) < index + 1 implies marked(
                *topology,
                *network,
                *scratch,
                island_vertex(*topology, *network, *definitions, y),
            ) by {
                assert(network.linked(y, x));
                lemma_linked_live(*network, *definitions, y, x);
                if !is_terminal_word(y) {
                    assert(network.wire_live(word_id(y)));
                }
                let v = island_vertex(*topology, *network, *definitions, y);
                assert(vertex_live(*topology, *network, *definitions, v));
                assert(word_id(x) == d);
                if word_terminal(x) == index {
                    assert(x == this);
                    assert(terminal_partition(*network, *definitions, d, index as int)
                        == component_partition(component));
                    assert(matching);
                    assert(followed);
                } else {
                    assert(marked(*topology, *network, before, v));
                }
            }
        }
        index = index + 1;
    }
    proof {
        assert forall|v: IslandVertex| #[trigger]
            adjacent(*topology, *network, *definitions, from, v) && vertex_live(
                *topology,
                *network,
                *definitions,
                v,
            ) implies marked(*topology, *network, *scratch, v) by {
            let (x, y) = choose|x: u64, y: u64| #[trigger]
                network.linked(x, y) && island_vertex(*topology, *network, *definitions, x) == from
                    && island_vertex(*topology, *network, *definitions, y) == v;
            lemma_linked_live(*network, *definitions, x, y);
            assert(is_terminal_word(x));
            assert(word_id(x) == d);
        }
    }
}

/// Whether a net or component is in one of the pieces.
pub(crate) open spec fn in_pieces(pieces: Seq<IslandPiece>, vertex: IslandVertex) -> bool {
    exists|k: int| 0 <= k < pieces.len() && #[trigger] pieces[k].holds(vertex)
}

/// Whether pieces of an island found so far are whole.
pub(crate) open spec fn pieces_found(
    topology: DerivedTopology,
    network: Network,
    definitions: DefinitionRegistry,
    island: u32,
    pieces: Seq<IslandPiece>,
) -> bool {
    &&& forall|k: int|
        0 <= k < pieces.len() ==> (#[trigger] pieces[k]).nets@.no_duplicates()
            && pieces[k].components@.no_duplicates()
    &&& forall|k: int, v: IslandVertex|
        0 <= k < pieces.len() && #[trigger] pieces[k].holds(v) ==> belongs(
            topology,
            network,
            definitions,
            island,
            v,
        )
    &&& forall|k: int, l: int, v: IslandVertex|
        0 <= k < pieces.len() && 0 <= l < pieces.len() && #[trigger] pieces[k].holds(v)
            && #[trigger] pieces[l].holds(v) ==> k == l
    &&& forall|k: int, v: IslandVertex, u: IslandVertex|
        0 <= k < pieces.len() && #[trigger] pieces[k].holds(v) && #[trigger] adjacent(
            topology,
            network,
            definitions,
            v,
            u,
        ) ==> pieces[k].holds(u)
    &&& forall|k: int, a: u64, b: u64|
        0 <= k < pieces.len() && #[trigger] pieces[k].components@.contains(a)
            && #[trigger] pieces[k].components@.contains(b) ==> connected(
            vertex_edge(network, definitions),
            Vertex::Component(a),
            Vertex::Component(b),
        )
    &&& forall|k: int, a: u64, n: u32|
        0 <= k < pieces.len() && #[trigger] pieces[k].components@.contains(a)
            && #[trigger] pieces[k].nets@.contains(n) ==> net_reached(
            topology,
            network,
            definitions,
            Vertex::Component(a),
            n,
        )
}

/// What is known between two steps of the walk through one piece of an island.
pub(crate) open spec fn island_walking(
    topology: DerivedTopology,
    network: Network,
    definitions: DefinitionRegistry,
    island: u32,
    pieces: Seq<IslandPiece>,
    root: Vertex,
    piece: IslandPiece,
    stack: Seq<IslandVertex>,
    scratch: TraversalScratch,
) -> bool {
    &&& marks_fit(topology, network, definitions, scratch)
    &&& piece.nets@.no_duplicates()
    &&& piece.components@.no_duplicates()
    &&& stack.no_duplicates()
    &&& forall|v: IslandVertex| #[trigger]
        piece.holds(v) ==> {
            &&& !stack.contains(v)
            &&& belongs(topology, network, definitions, island, v)
            &&& reached(topology, network, definitions, root, v)
        }
    &&& forall|v: IslandVertex| #[trigger]
        stack.contains(v) ==> {
            &&& belongs(topology, network, definitions, island, v)
            &&& reached(topology, network, definitions, root, v)
        }
    &&& forall|v: IslandVertex| #[trigger]
        vertex_live(topology, network, definitions, v) ==> (marked(topology, network, scratch, v)
            <==> (piece.holds(v) || stack.contains(v) || in_pieces(pieces, v)))
    &&& forall|v: IslandVertex| #[trigger]
        in_pieces(pieces, v) ==> !piece.holds(v) && !stack.contains(v)
    &&& forall|v: IslandVertex, u: IslandVertex|
        #[trigger] piece.holds(v) && #[trigger] adjacent(topology, network, definitions, v, u)
            ==> piece.holds(u) || stack.contains(u)
}

/// What belongs to an island exists.
pub(crate) proof fn lemma_belongs_live(
    topology: DerivedTopology,
    network: Network,
    definitions: DefinitionRegistry,
    island: u32,
    vertex: IslandVertex,
)
    requires
        belongs(topology, network, definitions, island, vertex),
    ensures
        vertex_live(topology, network, definitions, vertex),
{
}

/// Neighbours are neighbours of each other.
pub(crate) proof fn lemma_adjacent_sym(
    topology: DerivedTopology,
    network: Network,
    definitions: DefinitionRegistry,
    a: IslandVertex,
    b: IslandVertex,
)
    requires
        network.wf(),
        adjacent(topology, network, definitions, a, b),
    ensures
        adjacent(topology, network, definitions, b, a),
{
    let (x, y) = choose|x: u64, y: u64| #[trigger]
        network.linked(x, y) && island_vertex(topology, network, definitions, x) == a
            && island_vertex(topology, network, definitions, y) == b;
    assert(network.linked(y, x));
}

/// Walks through one piece of an island, from a net or component that has just been marked.
#[verifier::spinoff_prover]
#[verifier::rlimit(40)]
fn walk_island_component(
    topology: &DerivedTopology,
    definitions: &DefinitionRegistry,
    network: &Network,
    island_id: u32,
    start: IslandVertex,
    scratch: &mut TraversalScratch,
    Ghost(broken): Ghost<Set<u32>>,
    Ghost(root): Ghost<Vertex>,
    Ghost(pieces): Ghost<Seq<IslandPiece>>,
) -> (result: IslandPiece)
    requires
        network_ok(*network, *definitions),
        topology.consistent_except(*network, *definitions, broken),
        topology.islands@.contains_key(island_id),
        pieces_found(*topology, *network, *definitions, island_id, pieces),
        belongs(*topology, *network, *definitions, island_id, start),
        reached(*topology, *network, *definitions, root, start),
        !in_pieces(pieces, start),
        marks_fit(*topology, *network, *definitions, *old(scratch)),
        forall|v: IslandVertex| #[trigger]
            vertex_live(*topology, *network, *definitions, v) ==> (marked(
                *topology,
                *network,
                *old(scratch),
                v,
            ) <==> (v == start || in_pieces(pieces, v))),
    ensures
        marks_fit(*topology, *network, *definitions, *final(scratch)),
        pieces_found(*topology, *network, *definitions, island_id, pieces.push(result)),
        result.holds(start),
        forall|v: IslandVertex| #[trigger]
            vertex_live(*topology, *network, *definitions, v) ==> (marked(
                *topology,
                *network,
                *final(scratch),
                v,
            ) <==> in_pieces(pieces.push(result), v)),
{
    broadcast use crate::dense_store::DenseIdStore::lemma_live;

    let mut piece = IslandPiece { nets: IdList::new(), components: WordList::new() };
    let mut stack: Vec<IslandVertex> = Vec::new();
    stack.push(start);
    let ghost net_slots = topology.nets.spec_slot_count();
    let ghost all = topology.islands@[island_id].components@;
    proof {
        assert(stack@[0] == start);
        assert(stack@.contains(start));
        assert forall|v: IslandVertex| #[trigger] stack@.contains(v) implies v == start by {}
    }
    while stack.len() > 0
        invariant
            network_ok(*network, *definitions),
            topology.consistent_except(*network, *definitions, broken),
            topology.islands@.contains_key(island_id),
            pieces_found(*topology, *network, *definitions, island_id, pieces),
            net_slots == topology.nets.spec_slot_count(),
            all == topology.islands@[island_id].components@,
            island_walking(
                *topology,
                *network,
                *definitions,
                island_id,
                pieces,
                root,
                piece,
                stack@,
                *scratch,
            ),
            piece.holds(start) || stack@.contains(start),
            piece.nets@.len() <= net_slots,
            piece.components@.len() <= all.len(),
        decreases net_slots + all.len() - piece.nets@.len() - piece.components@.len(),
    {
        broadcast use crate::dense_store::DenseIdStore::lemma_live;

        let ghost before_piece = piece;
        let ghost before_stack = stack@;
        let ghost before_scratch = *scratch;
        let vertex: IslandVertex = stack.pop().unwrap();
        let ghost popped = stack@;
        proof {
            assert(before_stack[before_stack.len() - 1] == vertex);
            assert(before_stack.contains(vertex));
            assert forall|v: IslandVertex| #[trigger] popped.contains(v) <==> (
            before_stack.contains(v) && v != vertex) by {
                if popped.contains(v) {
                    let i = choose|i: int| 0 <= i < popped.len() && popped[i] == v;
                    assert(before_stack[i] == v);
                }
                if before_stack.contains(v) && v != vertex {
                    let i = choose|i: int| 0 <= i < before_stack.len() && before_stack[i] == v;
                    assert(popped[i] == v);
                }
            }
            lemma_belongs_live(*topology, *network, *definitions, island_id, vertex);
            assert(!before_piece.holds(vertex));
        }
        match vertex {
            IslandVertex::Net(net_id) => {
                piece.nets.push(net_id);
                proof {
                    lemma_push_contains(before_piece.nets@, net_id);
                }
                visit_net_components(
                    topology,
                    definitions,
                    network,
                    net_id,
                    &mut stack,
                    scratch,
                    Ghost(broken),
                );
            },
            IslandVertex::Component(component) => {
                piece.components.push(component);
                proof {
                    lemma_push_contains(before_piece.components@, component);
                }
                visit_component_terminals(
                    topology,
                    definitions,
                    network,
                    component,
                    &mut stack,
                    scratch,
                    Ghost(broken),
                );
            },
        }
        proof {
            assert forall|v: IslandVertex| #[trigger] piece.holds(v) <==> (before_piece.holds(v) || v
                == vertex) by {}
            lemma_walk_step(
                *topology,
                *network,
                *definitions,
                broken,
                island_id,
                pieces,
                root,
                before_piece,
                before_stack,
                before_scratch,
                vertex,
                popped,
                piece,
                stack@,
                *scratch,
            );
            assert forall|i: int| 0 <= i < piece.nets@.len() implies 1 <= #[trigger] piece.nets@[i]
                <= net_slots by {
                assert(piece.holds(IslandVertex::Net(piece.nets@[i])));
                assert(topology.nets@.contains_key(piece.nets@[i]));
            }
            lemma_numbers_bounded(piece.nets@, net_slots as nat);
            assert forall|i: int| 0 <= i < piece.components@.len() implies all.contains(
                #[trigger] piece.components@[i],
            ) by {
                let c = piece.components@[i];
                assert(piece.holds(IslandVertex::Component(c)));
                assert(is_component(*network, *definitions, c));
            }
            lemma_subset_bounded(piece.components@, all);
            assert(piece.holds(start) || stack@.contains(start)) by {
                if before_stack.contains(start) && start != vertex {
                    assert(popped.contains(start));
                    let i = choose|i: int| 0 <= i < popped.len() && popped[i] == start;
                    assert(stack@.take(popped.len() as int)[i] == start);
                    assert(stack@[i] == start);
                } else if before_piece.holds(start) {
                    assert(piece.holds(start));
                } else {
                    assert(piece.holds(vertex));
                }
            }
        }
    }
    proof {
        assert forall|v: IslandVertex| !stack@.contains(v) by {}
        lemma_piece_complete(
            *topology,
            *network,
            *definitions,
            broken,
            island_id,
            pieces,
            root,
            piece,
            stack@,
            *scratch,
        );
    }
    piece
}

/// One step keeps what is known of the walk.
#[verifier::spinoff_prover]
#[verifier::rlimit(40)]
proof fn lemma_walk_step(
    topology: DerivedTopology,
    network: Network,
    definitions: DefinitionRegistry,
    broken: Set<u32>,
    island: u32,
    pieces: Seq<IslandPiece>,
    root: Vertex,
    before_piece: IslandPiece,
    before_stack: Seq<IslandVertex>,
    before_scratch: TraversalScratch,
    vertex: IslandVertex,
    popped: Seq<IslandVertex>,
    piece: IslandPiece,
    stack: Seq<IslandVertex>,
    scratch: TraversalScratch,
)
    requires
        network_ok(network, definitions),
        topology.consistent_except(network, definitions, broken),
        pieces_found(topology, network, definitions, island, pieces),
        island_walking(
            topology,
            network,
            definitions,
            island,
            pieces,
            root,
            before_piece,
            before_stack,
            before_scratch,
        ),
        before_stack.contains(vertex),
        popped == before_stack.drop_last(),
        before_stack.last() == vertex,
        forall|v: IslandVertex| #[trigger]
            popped.contains(v) <==> (before_stack.contains(v) && v != vertex),
        piece.nets@.no_duplicates(),
        piece.components@.no_duplicates(),
        forall|v: IslandVertex| #[trigger]
            piece.holds(v) <==> (before_piece.holds(v) || v == vertex),
        expanding(
            topology,
            network,
            definitions,
            vertex,
            popped,
            before_scratch,
            stack,
            scratch,
        ),
        forall|v: IslandVertex| #[trigger]
            adjacent(topology, network, definitions, vertex, v) && vertex_live(
                topology,
                network,
                definitions,
                v,
            ) && v != vertex ==> marked(topology, network, scratch, v),
    ensures
        island_walking(
            topology,
            network,
            definitions,
            island,
            pieces,
            root,
            piece,
            stack,
            scratch,
        ),
{
    let tail = stack.skip(popped.len() as int);
    assert(stack =~= popped + tail);
    assert forall|v: IslandVertex| #[trigger] stack.contains(v) <==> (popped.contains(v)
        || tail.contains(v)) by {
        if popped.contains(v) {
            let i = choose|i: int| 0 <= i < popped.len() && popped[i] == v;
            assert(stack[i] == v);
        }
        if tail.contains(v) {
            let i = choose|i: int| 0 <= i < tail.len() && tail[i] == v;
            assert(stack[popped.len() + i] == v);
        }
        if stack.contains(v) {
            let i = choose|i: int| 0 <= i < stack.len() && stack[i] == v;
            if i < popped.len() {
                assert(popped[i] == v);
            } else {
                assert(tail[i - popped.len()] == v);
            }
        }
    }
    assert forall|v: IslandVertex| #[trigger] tail.contains(v) implies {
        &&& belongs(topology, network, definitions, island, v)
        &&& reached(topology, network, definitions, root, v)
        &&& !before_piece.holds(v)
        &&& !before_stack.contains(v)
        &&& !in_pieces(pieces, v)
    } by {
        lemma_belongs_step(topology, network, definitions, broken, island, vertex, v);
        lemma_reached_step(topology, network, definitions, broken, root, vertex, v);
        assert(vertex_live(topology, network, definitions, v));
        assert(!marked(topology, network, before_scratch, v));
    }
    assert(stack.no_duplicates()) by {
        assert forall|i: int, j: int|
            0 <= i < stack.len() && 0 <= j < stack.len() && i != j implies stack[i] != stack[j] by {
            if i < popped.len() && j < popped.len() {
                assert(before_stack[i] != before_stack[j]);
            } else if i >= popped.len() && j >= popped.len() {
                assert(tail[i - popped.len()] != tail[j - popped.len()]);
            } else if i < popped.len() {
                assert(popped.contains(popped[i]));
                assert(tail.contains(tail[j - popped.len()]));
            } else {
                assert(popped.contains(popped[j]));
                assert(tail.contains(tail[i - popped.len()]));
            }
        }
    }
    assert forall|v: IslandVertex| #[trigger]
        vertex_live(topology, network, definitions, v) implies (marked(
        topology,
        network,
        scratch,
        v,
    ) <==> (piece.holds(v) || stack.contains(v) || in_pieces(pieces, v))) by {
        assert(marked(topology, network, before_scratch, v) <==> (before_piece.holds(v)
            || before_stack.contains(v) || in_pieces(pieces, v)));
        assert(piece.holds(v) <==> (before_piece.holds(v) || v == vertex));
    }
    assert forall|v: IslandVertex, u: IslandVertex|
        #[trigger] piece.holds(v) && #[trigger] adjacent(
            topology,
            network,
            definitions,
            v,
            u,
        ) implies piece.holds(u) || stack.contains(u) by {
        if v == vertex {
            lemma_belongs_step(topology, network, definitions, broken, island, vertex, u);
            lemma_belongs_live(topology, network, definitions, island, u);
            if u != vertex {
                assert(marked(topology, network, scratch, u));
                if in_pieces(pieces, u) {
                    let k = choose|k: int| 0 <= k < pieces.len() && #[trigger] pieces[k].holds(u);
                    lemma_adjacent_sym(topology, network, definitions, vertex, u);
                    assert(pieces[k].holds(vertex));
                    assert(in_pieces(pieces, vertex));
                }
            } else {
                assert(piece.holds(vertex));
            }
        } else {
            assert(before_piece.holds(v));
            assert(before_piece.holds(u) || before_stack.contains(u));
            if before_piece.holds(u) || u == vertex {
                assert(piece.holds(u));
            }
        }
    }
    assert forall|v: IslandVertex| #[trigger] in_pieces(pieces, v) implies !piece.holds(v)
        && !stack.contains(v) by {
        assert(!before_piece.holds(v) && !before_stack.contains(v));
        assert(!popped.contains(v));
    }
    assert forall|v: IslandVertex| #[trigger] piece.holds(v) implies {
        &&& !stack.contains(v)
        &&& belongs(topology, network, definitions, island, v)
        &&& reached(topology, network, definitions, root, v)
    } by {
        if v != vertex {
            assert(before_piece.holds(v));
            assert(!popped.contains(v));
        } else {
            assert(!popped.contains(v));
        }
    }
    assert forall|v: IslandVertex| #[trigger] stack.contains(v) implies {
        &&& belongs(topology, network, definitions, island, v)
        &&& reached(topology, network, definitions, root, v)
    } by {
        if popped.contains(v) {
            assert(before_stack.contains(v));
        }
    }
}

/// A walk that has nothing left to visit has found a whole piece.
#[verifier::spinoff_prover]
#[verifier::rlimit(40)]
proof fn lemma_piece_complete(
    topology: DerivedTopology,
    network: Network,
    definitions: DefinitionRegistry,
    broken: Set<u32>,
    island: u32,
    pieces: Seq<IslandPiece>,
    root: Vertex,
    piece: IslandPiece,
    stack: Seq<IslandVertex>,
    scratch: TraversalScratch,
)
    requires
        network_ok(network, definitions),
        topology.consistent_except(network, definitions, broken),
        pieces_found(topology, network, definitions, island, pieces),
        island_walking(topology, network, definitions, island, pieces, root, piece, stack, scratch),
        forall|v: IslandVertex| !stack.contains(v),
    ensures
        pieces_found(topology, network, definitions, island, pieces.push(piece)),
        forall|v: IslandVertex| #[trigger]
            vertex_live(topology, network, definitions, v) ==> (marked(
                topology,
                network,
                scratch,
                v,
            ) <==> in_pieces(pieces.push(piece), v)),
{
    let all = pieces.push(piece);
    assert forall|v: IslandVertex| #[trigger] in_pieces(all, v) <==> (in_pieces(pieces, v)
        || piece.holds(v)) by {
        if in_pieces(pieces, v) {
            let k = choose|k: int| 0 <= k < pieces.len() && #[trigger] pieces[k].holds(v);
            assert(all[k].holds(v));
        }
        if piece.holds(v) {
            assert(all[pieces.len() as int].holds(v));
        }
        if in_pieces(all, v) {
            let k = choose|k: int| 0 <= k < all.len() && #[trigger] all[k].holds(v);
            if k < pieces.len() {
                assert(pieces[k].holds(v));
            }
        }
    }
    assert forall|k: int, l: int, v: IslandVertex|
        0 <= k < all.len() && 0 <= l < all.len() && #[trigger] all[k].holds(v)
            && #[trigger] all[l].holds(v) implies k == l by {
        if k < pieces.len() {
            assert(pieces[k].holds(v));
            assert(in_pieces(pieces, v));
        }
        if l < pieces.len() {
            assert(pieces[l].holds(v));
            assert(in_pieces(pieces, v));
        }
    }
    assert forall|k: int, v: IslandVertex|
        0 <= k < all.len() && #[trigger] all[k].holds(v) implies belongs(
        topology,
        network,
        definitions,
        island,
        v,
    ) by {
        if k < pieces.len() {
            assert(pieces[k].holds(v));
        } else {
            assert(piece.holds(v));
        }
    }
    assert forall|k: int, v: IslandVertex, u: IslandVertex|
        0 <= k < all.len() && #[trigger] all[k].holds(v) && #[trigger] adjacent(
            topology,
            network,
            definitions,
            v,
            u,
        ) implies all[k].holds(u) by {
        if k < pieces.len() {
            assert(pieces[k].holds(v));
        } else {
            assert(piece.holds(v));
        }
    }
    assert forall|k: int, a: u64, b: u64|
        0 <= k < all.len() && #[trigger] all[k].components@.contains(a)
            && #[trigger] all[k].components@.contains(b) implies connected(
        vertex_edge(network, definitions),
        Vertex::Component(a),
        Vertex::Component(b),
    ) by {
        if k < pieces.len() {
            assert(pieces[k].components@.contains(a) && pieces[k].components@.contains(b));
        } else {
            assert(piece.holds(IslandVertex::Component(a)));
            assert(piece.holds(IslandVertex::Component(b)));
            let edge = vertex_edge(network, definitions);
            lemma_vertex_edge_sym(network, definitions);
            lemma_connected_sym(edge, root, Vertex::Component(a));
            lemma_connected_trans(edge, Vertex::Component(a), root, Vertex::Component(b));
        }
    }
    assert forall|k: int, a: u64, n: u32|
        0 <= k < all.len() && #[trigger] all[k].components@.contains(a)
            && #[trigger] all[k].nets@.contains(n) implies net_reached(
        topology,
        network,
        definitions,
        Vertex::Component(a),
        n,
    ) by {
        if k < pieces.len() {
            assert(pieces[k].components@.contains(a) && pieces[k].nets@.contains(n));
        } else {
            assert(piece.holds(IslandVertex::Component(a)));
            assert(piece.holds(IslandVertex::Net(n)));
            let edge = vertex_edge(network, definitions);
            lemma_vertex_edge_sym(network, definitions);
            lemma_connected_sym(edge, root, Vertex::Component(a));
            assert(net_reached(topology, network, definitions, root, n));
            assert forall|w: u32| #[trigger] topology.nets@[n].wires@.contains(w) implies connected(
                edge,
                Vertex::Component(a),
                Vertex::Wire(w),
            ) by {
                lemma_connected_trans(edge, Vertex::Component(a), root, Vertex::Wire(w));
            }
        }
    }
    assert forall|k: int| 0 <= k < all.len() implies (#[trigger] all[k]).nets@.no_duplicates()
        && all[k].components@.no_duplicates() by {
        if k < pieces.len() {
            assert(pieces[k].nets@.no_duplicates());
        }
    }
}

/// Whether the pieces are the connected parts of an island.
pub(crate) open spec fn is_island_split(
    topology: DerivedTopology,
    network: Network,
    definitions: DefinitionRegistry,
    island: u32,
    pieces: Seq<IslandPiece>,
) -> bool {
    &&& pieces_found(topology, network, definitions, island, pieces)
    &&& forall|v: IslandVertex| #[trigger]
        belongs(topology, network, definitions, island, v) ==> in_pieces(pieces, v)
}

/// Whether the pieces up to a place have components, in the order in which the first of them come in
/// a list, and those after it have none.
pub(crate) open spec fn pieces_in_order(
    pieces: Seq<IslandPiece>,
    components: Seq<u64>,
    bare: int,
) -> bool {
    &&& 0 <= bare <= pieces.len()
    &&& forall|k: int| 0 <= k < bare ==> (#[trigger] pieces[k]).components@.len() > 0
    &&& forall|k: int| bare <= k < pieces.len() ==> (#[trigger] pieces[k]).components@.len() == 0
    &&& forall|k: int, l: int|
        0 <= k < l < bare ==> found_before(
            components,
            (#[trigger] pieces[k]).components@,
            (#[trigger] pieces[l]).components@,
        )
}

/// Whether each piece holds one of the first components of a list.
spec fn pieces_started(pieces: Seq<IslandPiece>, components: Seq<u64>, upto: int) -> bool {
    forall|k: int|
        0 <= k < pieces.len() ==> starts_in(
            (#[trigger] pieces[k]).components@,
            components,
            upto,
        )
}

/// A piece that is found from the next component of a list comes after the others.
proof fn lemma_piece_found(
    topology: DerivedTopology,
    network: Network,
    definitions: DefinitionRegistry,
    island: u32,
    pieces: Seq<IslandPiece>,
    piece: IslandPiece,
    components: Seq<u64>,
    at: int,
)
    requires
        0 <= at < components.len(),
        pieces_found(topology, network, definitions, island, pieces.push(piece)),
        pieces_in_order(pieces, components, pieces.len() as int),
        pieces_started(pieces, components, at),
        piece.components@.contains(components[at]),
        forall|i: int|
            0 <= i < at ==> in_pieces(pieces, IslandVertex::Component(#[trigger] components[i])),
    ensures
        pieces_in_order(pieces.push(piece), components, pieces.len() as int + 1),
        pieces_started(pieces.push(piece), components, at + 1),
{
    let more = pieces.push(piece);
    let last = pieces.len() as int;
    assert forall|k: int| 0 <= k < more.len() implies starts_in(
        (#[trigger] more[k]).components@,
        components,
        at + 1,
    ) by {
        if k < last {
            assert(more[k] == pieces[k]);
            assert(starts_in(pieces[k].components@, components, at));
        } else {
            assert(more[k].components@.contains(components[at]));
        }
    }
    assert forall|k: int| 0 <= k < more.len() implies (#[trigger] more[k]).components@.len()
        > 0 by {
        if k < last {
            assert(more[k] == pieces[k]);
        }
    }
    assert forall|k: int, l: int| 0 <= k < l < more.len() implies found_before(
        components,
        (#[trigger] more[k]).components@,
        (#[trigger] more[l]).components@,
    ) by {
        assert(more[k] == pieces[k]);
        if l < last {
            assert(more[l] == pieces[l]);
        } else {
            assert(starts_in(pieces[k].components@, components, at));
            let i = choose|i: int|
                0 <= i < at && #[trigger] pieces[k].components@.contains(components[i]);
            assert forall|j: int| 0 <= j <= i implies !#[trigger] piece.components@.contains(
                components[j],
            ) by {
                let v = IslandVertex::Component(components[j]);
                if piece.components@.contains(components[j]) {
                    assert(more[last].holds(v));
                    assert(in_pieces(pieces, v));
                    let m = choose|m: int| 0 <= m < pieces.len() && #[trigger] pieces[m].holds(v);
                    assert(more[m].holds(v));
                }
            }
            assert(more[k].components@.contains(components[i]));
        }
    }
}

/// Whether the nets that an island would keep without a component are among the given ones.
pub(crate) open spec fn covers_bare_nets(
    topology: DerivedTopology,
    island: u32,
    affected: Seq<u32>,
) -> bool {
    &&& forall|n: u32| #[trigger]
        affected.contains(n) ==> topology.nets@.contains_key(n) && topology.net_label(n) == island
    &&& forall|n: u32| #[trigger]
        topology.nets@.contains_key(n) && topology.net_label(n) == island
            && topology.nets@[n].terminals@.len() == 0 ==> affected.contains(n)
}

/// The number of components in each chunk.
fn component_slots(
    topology: &DerivedTopology,
    definitions: &DefinitionRegistry,
    network: &Network,
) -> (result: Vec<usize>)
    requires
        network_ok(*network, *definitions),
        topology.structure_ok(*network, *definitions),
    ensures
        result@.len() == topology.device_chunks@.len(),
        forall|c: int|
            0 <= c < result@.len() ==> #[trigger] result@[c] == topology.device_chunks@[c].rows()
                * topology.device_chunks@[c].partitions(),
{
    let mut slots: Vec<usize> = Vec::new();
    let mut chunk: usize = 0;
    while chunk < topology.device_chunks.len()
        invariant
            network_ok(*network, *definitions),
            topology.structure_ok(*network, *definitions),
            chunk <= topology.device_chunks@.len(),
            slots@.len() == chunk,
            forall|c: int|
                0 <= c < chunk ==> #[trigger] slots@[c] == topology.device_chunks@[c].rows()
                    * topology.device_chunks@[c].partitions(),
        decreases topology.device_chunks@.len() - chunk,
    {
        let rows: usize = topology.device_chunks[chunk].row_count();
        let partitions: usize = topology.device_chunks[chunk].partition_count();
        proof {
            network.arena().lemma_wf();
            assert(topology.device_chunks@[chunk as int].wf());
            assert(network.arena().rows(chunk as int) <= 64);
            network.arena().lemma_shaped(*definitions, chunk as int);
            let id = network.arena().spec_chunk_definition(chunk as int).value();
            assert(definitions.spec_definitions()[id - 1].wf());
            assert(rows * partitions <= 64 * 0x1_0000) by (nonlinear_arith)
                requires
                    rows <= 64,
                    partitions <= 0x1_0000,
            ;
        }
        slots.push(rows * partitions);
        chunk = chunk + 1;
    }
    slots
}

/// The connected parts of an island. Nets to which nothing is attached are found only among the
/// given ones.
#[verifier::spinoff_prover]
#[verifier::rlimit(40)]
pub(crate) fn island_components(
    topology: &DerivedTopology,
    definitions: &DefinitionRegistry,
    network: &Network,
    scratch: &mut TraversalScratch,
    island_id: u32,
    affected_nets: &IdList,
    Ghost(broken): Ghost<Set<u32>>,
) -> (result: Vec<IslandPiece>)
    requires
        network_ok(*network, *definitions),
        topology.consistent_except(*network, *definitions, broken),
        topology.islands@.contains_key(island_id),
        covers_bare_nets(*topology, island_id, affected_nets@),
        old(scratch).wf(),
    ensures
        final(scratch).wf(),
        is_island_split(*topology, *network, *definitions, island_id, result@),
        exists|bare: int| #[trigger]
            pieces_in_order(result@, topology.islands@[island_id].components@, bare),
{
    broadcast use crate::dense_store::DenseIdStore::lemma_live;

    let slots = component_slots(topology, definitions, network);
    scratch.begin_island_traversal(topology.nets.slot_count(), slots.as_slice());
    let island = topology.islands.get(island_id).unwrap();
    let mut pieces: Vec<IslandPiece> = Vec::new();
    proof {
        assert forall|c: u64| #[trigger] is_component(*network, *definitions, c) implies {
            let slot = component_slot(*topology, *network, c);
            scratch.component_room(slot.0, slot.1) && !scratch.component_marked(slot.0, slot.1)
        } by {
            lemma_component_place(*topology, *network, *definitions, c);
            let slot = component_slot(*topology, *network, c);
            assert(slots@[slot.0] == topology.device_chunks@[slot.0].rows()
                * topology.device_chunks@[slot.0].partitions());
        }
        assert forall|v: IslandVertex| #[trigger]
            vertex_live(*topology, *network, *definitions, v) implies (marked(
            *topology,
            *network,
            *scratch,
            v,
        ) <==> in_pieces(pieces@, v)) by {
            match v {
                IslandVertex::Net(n) => {
                    assert(topology.nets@.contains_key(n));
                    assert(!scratch.net_marked(n - 1));
                },
                IslandVertex::Component(c) => {
                    assert(is_component(*network, *definitions, c));
                },
            }
        }
    }
    let mut next: usize = 0;
    while next < island.components.len()
        invariant
            network_ok(*network, *definitions),
            topology.consistent_except(*network, *definitions, broken),
            topology.islands@.contains_key(island_id),
            *island == topology.islands@[island_id],
            next <= island.components@.len(),
            marks_fit(*topology, *network, *definitions, *scratch),
            pieces_found(*topology, *network, *definitions, island_id, pieces@),
            forall|v: IslandVertex| #[trigger]
                vertex_live(*topology, *network, *definitions, v) ==> (marked(
                    *topology,
                    *network,
                    *scratch,
                    v,
                ) <==> in_pieces(pieces@, v)),
            forall|i: int|
                0 <= i < next ==> in_pieces(
                    pieces@,
                    IslandVertex::Component(#[trigger] island.components@[i]),
                ),
            pieces_in_order(pieces@, island.components@, pieces@.len() as int),
            pieces_started(pieces@, island.components@, next as int),
        decreases island.components@.len() - next,
    {
        let component: u64 = island.components.get(next);
        let start = IslandVertex::Component(component);
        let ghost before_pieces = pieces@;
        let ghost before_scratch = *scratch;
        proof {
            assert(island.components@.contains(component));
            lemma_connected_self(
                vertex_edge(*network, *definitions),
                Vertex::Component(component),
            );
            assert(belongs(*topology, *network, *definitions, island_id, start));
            lemma_belongs_live(*topology, *network, *definitions, island_id, start);
        }
        let mut stack: Vec<IslandVertex> = Vec::new();
        visit(topology, definitions, network, start, &mut stack, scratch);
        if stack.len() > 0 {
            let piece = walk_island_component(
                topology,
                definitions,
                network,
                island_id,
                start,
                scratch,
                Ghost(broken),
                Ghost(Vertex::Component(component)),
                Ghost(pieces@),
            );
            pieces.push(piece);
            proof {
                assert(pieces@ == before_pieces.push(piece));
                lemma_in_more_pieces(before_pieces, piece);
                assert(piece.holds(start));
                lemma_piece_found(
                    *topology,
                    *network,
                    *definitions,
                    island_id,
                    before_pieces,
                    piece,
                    island.components@,
                    next as int,
                );
            }
        } else {
            proof {
                assert forall|k: int| 0 <= k < pieces@.len() implies starts_in(
                    (#[trigger] pieces@[k]).components@,
                    island.components@,
                    next + 1,
                ) by {
                    assert(starts_in(pieces@[k].components@, island.components@, next as int));
                }
            }
        }
        proof {
            assert(vertex_live(*topology, *network, *definitions, start));
            assert(in_pieces(pieces@, start));
        }
        next = next + 1;
    }
    proof {
        assert forall|v: IslandVertex|
            belongs(*topology, *network, *definitions, island_id, v) implies #[trigger] in_pieces(
            pieces@,
            v,
        ) || (v matches IslandVertex::Net(n) && topology.nets@[n].terminals@.len() == 0) by {
            match v {
                IslandVertex::Component(c) => {
                    assert(island.components@.contains(c));
                    let i = choose|i: int|
                        0 <= i < island.components@.len() && island.components@[i] == c;
                    assert(in_pieces(pieces@, IslandVertex::Component(island.components@[i])));
                },
                IslandVertex::Net(n) => {
                    if topology.nets@[n].terminals@.len() > 0 {
                        assert(topology.net_lists(*network, *definitions, n));
                        let x = topology.nets@[n].terminals@[0];
                        assert(topology.nets@[n].terminals@.contains(x));
                        assert(topology.attached(*network, x, n));
                        let y = choose|y: u64| #[trigger]
                            network.linked(x, y) && !is_terminal_word(y) && topology.net_of(
                                word_id(y),
                            ) == n;
                        lemma_linked_live(*network, *definitions, x, y);
                        let c = component_of(*network, *definitions, x);
                        assert(island_vertex(*topology, *network, *definitions, x)
                            == IslandVertex::Component(c));
                        assert(island_vertex(*topology, *network, *definitions, y) == v);
                        assert(adjacent(
                            *topology,
                            *network,
                            *definitions,
                            IslandVertex::Component(c),
                            v,
                        ));
                        assert(topology.label(*network, *definitions, x) == topology.label(
                            *network,
                            *definitions,
                            y,
                        ));
                        assert(island.components@.contains(c));
                        let i = choose|i: int|
                            0 <= i < island.components@.len() && island.components@[i] == c;
                        assert(in_pieces(pieces@, IslandVertex::Component(island.components@[i])));
                        let k = choose|k: int|
                            0 <= k < pieces@.len() && #[trigger] pieces@[k].holds(
                                IslandVertex::Component(c),
                            );
                        assert(pieces@[k].holds(v));
                    }
                },
            }
        }
    }
    let ghost first_pieces = pieces@;
    let mut affected: usize = 0;
    while affected < affected_nets.len()
        invariant
            network_ok(*network, *definitions),
            topology.consistent_except(*network, *definitions, broken),
            topology.islands@.contains_key(island_id),
            covers_bare_nets(*topology, island_id, affected_nets@),
            affected <= affected_nets@.len(),
            marks_fit(*topology, *network, *definitions, *scratch),
            pieces_found(*topology, *network, *definitions, island_id, pieces@),
            forall|v: IslandVertex| #[trigger]
                vertex_live(*topology, *network, *definitions, v) ==> (marked(
                    *topology,
                    *network,
                    *scratch,
                    v,
                ) <==> in_pieces(pieces@, v)),
            forall|v: IslandVertex|
                belongs(*topology, *network, *definitions, island_id, v) ==> #[trigger] in_pieces(
                    pieces@,
                    v,
                ) || (v matches IslandVertex::Net(n) && topology.nets@[n].terminals@.len() == 0),
            pieces_in_order(
                pieces@,
                topology.islands@[island_id].components@,
                first_pieces.len() as int,
            ),
            forall|i: int|
                0 <= i < affected ==> in_pieces(
                    pieces@,
                    IslandVertex::Net(#[trigger] affected_nets@[i]),
                ),
        decreases affected_nets@.len() - affected,
    {
        let net_id: u32 = affected_nets.get(affected);
        let start = IslandVertex::Net(net_id);
        let ghost before_pieces = pieces@;
        let ghost wire = topology.nets@[net_id].wires@[0];
        let ghost root = Vertex::Wire(wire);
        proof {
            assert(affected_nets@.contains(net_id));
            assert(topology.nets@.contains_key(net_id));
            assert(topology.nets@[net_id].wires@.contains(wire));
            assert forall|w: u32| #[trigger] topology.nets@[net_id].wires@.contains(
                w,
            ) implies connected(vertex_edge(*network, *definitions), root, Vertex::Wire(w)) by {
                assert(topology.net_of(wire) == net_id && topology.net_of(w) == net_id);
                lemma_wires_connected(*network, *definitions, wire, w);
            }
            assert(reached(*topology, *network, *definitions, root, start));
            assert(belongs(*topology, *network, *definitions, island_id, start));
            lemma_belongs_live(*topology, *network, *definitions, island_id, start);
        }
        let mut stack: Vec<IslandVertex> = Vec::new();
        visit(topology, definitions, network, start, &mut stack, scratch);
        if stack.len() > 0 {
            let piece = walk_island_component(
                topology,
                definitions,
                network,
                island_id,
                start,
                scratch,
                Ghost(broken),
                Ghost(root),
                Ghost(pieces@),
            );
            pieces.push(piece);
            proof {
                assert(pieces@ == before_pieces.push(piece));
                lemma_in_more_pieces(before_pieces, piece);
                lemma_bare_piece(
                    *topology,
                    *network,
                    *definitions,
                    island_id,
                    before_pieces,
                    piece,
                    first_pieces.len() as int,
                );
            }
        }
        proof {
            assert(vertex_live(*topology, *network, *definitions, start));
            assert(in_pieces(pieces@, start));
        }
        affected = affected + 1;
    }
    proof {
        assert forall|v: IslandVertex| #[trigger]
            belongs(*topology, *network, *definitions, island_id, v) implies in_pieces(
            pieces@,
            v,
        ) by {
            if !in_pieces(pieces@, v) {
                if let IslandVertex::Net(n) = v {
                    assert(topology.nets@.contains_key(n));
                    assert(affected_nets@.contains(n));
                    let i = choose|i: int|
                        0 <= i < affected_nets@.len() && affected_nets@[i] == n;
                    assert(in_pieces(pieces@, IslandVertex::Net(affected_nets@[i])));
                }
            }
        }
    }
    pieces
}

/// A piece that is found once all components are found has none.
proof fn lemma_bare_piece(
    topology: DerivedTopology,
    network: Network,
    definitions: DefinitionRegistry,
    island: u32,
    pieces: Seq<IslandPiece>,
    piece: IslandPiece,
    bare: int,
)
    requires
        pieces_found(topology, network, definitions, island, pieces.push(piece)),
        pieces_in_order(pieces, topology.islands@[island].components@, bare),
        forall|v: IslandVertex|
            belongs(topology, network, definitions, island, v) ==> #[trigger] in_pieces(pieces, v)
                || (v matches IslandVertex::Net(n) && topology.nets@[n].terminals@.len() == 0),
    ensures
        pieces_in_order(pieces.push(piece), topology.islands@[island].components@, bare),
{
    let more = pieces.push(piece);
    let last = pieces.len() as int;
    if piece.components@.len() > 0 {
        let v = IslandVertex::Component(piece.components@[0]);
        assert(piece.components@.contains(piece.components@[0]));
        assert(more[last].holds(v));
        assert(belongs(topology, network, definitions, island, v));
        assert(in_pieces(pieces, v));
        let m = choose|m: int| 0 <= m < pieces.len() && #[trigger] pieces[m].holds(v);
        assert(more[m].holds(v));
    }
    assert forall|k: int| 0 <= k < bare implies (#[trigger] more[k]).components@.len() > 0 by {
        assert(more[k] == pieces[k]);
    }
    assert forall|k: int| bare <= k < more.len() implies (#[trigger] more[k]).components@.len()
        == 0 by {
        if k < last {
            assert(more[k] == pieces[k]);
        }
    }
    assert forall|k: int, l: int| 0 <= k < l < bare implies found_before(
        topology.islands@[island].components@,
        (#[trigger] more[k]).components@,
        (#[trigger] more[l]).components@,
    ) by {
        assert(more[k] == pieces[k] && more[l] == pieces[l]);
    }
}

/// Adding a piece adds what it holds.
proof fn lemma_in_more_pieces(pieces: Seq<IslandPiece>, piece: IslandPiece)
    ensures
        forall|v: IslandVertex|
            #![trigger in_pieces(pieces, v)]
            #![trigger in_pieces(pieces.push(piece), v)]
            in_pieces(pieces.push(piece), v) <==> (in_pieces(pieces, v) || piece.holds(v)),
{
    let all = pieces.push(piece);
    assert forall|v: IslandVertex|
        #![trigger in_pieces(pieces, v)]
        #![trigger in_pieces(all, v)]
        in_pieces(all, v) <==> (in_pieces(pieces, v) || piece.holds(v)) by {
        if in_pieces(pieces, v) {
            let k = choose|k: int| 0 <= k < pieces.len() && #[trigger] pieces[k].holds(v);
            assert(all[k].holds(v));
        }
        if piece.holds(v) {
            assert(all[pieces.len() as int].holds(v));
        }
        if in_pieces(all, v) {
            let k = choose|k: int| 0 <= k < all.len() && #[trigger] all[k].holds(v);
            if k < pieces.len() {
                assert(pieces[k].holds(v));
            }
        }
    }
}

} // verus!
