//! Traversals that find the connected parts of a net or of an island.

use crate::connection::{group_words, is_terminal_word, is_word, wire_word, word_id};
use crate::graph::{
    connected, lemma_connected_edge, lemma_connected_self, lemma_connected_sym,
    lemma_connected_trans,
};
use crate::network::Network;
use crate::registry::DefinitionRegistry;
use crate::scratch::TraversalScratch;
use crate::small_list::{IdList, WordList};
use crate::topology::{
    component_of, network_ok, terminal_component, wire_edge, DerivedTopology, Net,
};
use crate::topology_steps::found_before;
use vstd::prelude::*;

verus! {

/// Different numbers from one to a limit are no more than the limit.
pub proof fn lemma_numbers_bounded(items: Seq<u32>, limit: nat)
    requires
        items.no_duplicates(),
        forall|i: int| 0 <= i < items.len() ==> 1 <= #[trigger] items[i] <= limit,
    ensures
        items.len() <= limit,
    decreases limit,
{
    if items.len() > 0 {
        assert(1 <= items[0] <= limit);
        if exists|i: int| 0 <= i < items.len() && #[trigger] items[i] == limit {
            let i = choose|i: int| 0 <= i < items.len() && #[trigger] items[i] == limit;
            let rest = items.remove(i);
            assert forall|j: int| 0 <= j < rest.len() implies 1 <= #[trigger] rest[j] <= limit - 1 by {
                let from = if j < i {
                    j
                } else {
                    j + 1
                };
                assert(rest[j] == items[from]);
            }
            assert(rest.no_duplicates());
            lemma_numbers_bounded(rest, (limit - 1) as nat);
        } else {
            lemma_numbers_bounded(items, (limit - 1) as nat);
        }
    }
}

/// Different items of a list are no more than the list has.
pub proof fn lemma_subset_bounded<T>(items: Seq<T>, list: Seq<T>)
    requires
        items.no_duplicates(),
        forall|i: int| 0 <= i < items.len() ==> list.contains(#[trigger] items[i]),
    ensures
        items.len() <= list.len(),
{
    items.unique_seq_to_set();
    list.lemma_cardinality_of_set();
    assert(items.to_set().subset_of(list.to_set())) by {
        assert forall|x: T| items.to_set().contains(x) implies list.to_set().contains(x) by {
            let i = choose|i: int| 0 <= i < items.len() && items[i] == x;
            assert(list.contains(items[i]));
        }
    }
    vstd::set_lib::lemma_len_subset(items.to_set(), list.to_set());
}

/// Pushing an item adds that item.
pub proof fn lemma_push_contains<T>(items: Seq<T>, item: T)
    ensures
        forall|x: T|
            #![trigger items.push(item).contains(x)]
            #![trigger items.contains(x)]
            items.push(item).contains(x) <==> (items.contains(x) || x == item),
        items.no_duplicates() && !items.contains(item) ==> items.push(item).no_duplicates(),
{
    let more = items.push(item);
    assert forall|x: T|
        #![trigger more.contains(x)]
        #![trigger items.contains(x)]
        more.contains(x) <==> (items.contains(x) || x == item) by {
        if items.contains(x) {
            let i = choose|i: int| 0 <= i < items.len() && items[i] == x;
            assert(more[i] == x);
        }
        if x == item {
            assert(more[items.len() as int] == x);
        }
    }
}

/// Whether a packed terminal is attached to one of the wires.
pub open spec fn attached_to(network: Network, wires: Seq<u32>, terminal: u64) -> bool {
    is_terminal_word(terminal) && exists|a: u32| #[trigger]
        wires.contains(a) && network.linked(wire_word(a), terminal)
}

/// Whether a part of a net lists each terminal that is attached to its wires once, by its component.
pub(crate) open spec fn part_lists(
    network: Network,
    definitions: DefinitionRegistry,
    part: Net,
) -> bool {
    &&& part.terminals@.no_duplicates()
    &&& part.terminals@.len() == part.terminal_components@.len()
    &&& forall|i: int|
        0 <= i < part.terminals@.len() ==> #[trigger] part.terminal_components@[i] == component_of(
            network,
            definitions,
            part.terminals@[i],
        )
    &&& forall|x: u64| #[trigger]
        part.terminals@.contains(x) <==> attached_to(network, part.wires@, x)
}

/// Whether the parts are the connected parts of the wires that a topology has in a net.
pub(crate) open spec fn is_split(
    topology: DerivedTopology,
    network: Network,
    definitions: DefinitionRegistry,
    net: u32,
    parts: Seq<Net>,
) -> bool {
    &&& forall|k: int|
        0 <= k < parts.len() ==> {
            &&& (#[trigger] parts[k]).wires@.len() > 0
            &&& parts[k].wires@.no_duplicates()
            &&& part_lists(network, definitions, parts[k])
        }
    &&& forall|k: int, w: u32|
        0 <= k < parts.len() && #[trigger] parts[k].wires@.contains(w) ==> topology.net_of(w) == net
    &&& forall|w: u32| #[trigger]
        topology.net_of(w) == net ==> exists|k: int|
            0 <= k < parts.len() && #[trigger] parts[k].wires@.contains(w)
    &&& parts_apart(parts)
    &&& forall|k: int, a: u32, b: u32|
        #![trigger parts[k].wires@.contains(a), network.linked(wire_word(a), wire_word(b))]
        0 <= k < parts.len() && parts[k].wires@.contains(a) && network.linked(
            wire_word(a),
            wire_word(b),
        ) ==> parts[k].wires@.contains(b)
    &&& forall|k: int, a: u32, b: u32|
        0 <= k < parts.len() && #[trigger] parts[k].wires@.contains(a)
            && #[trigger] parts[k].wires@.contains(b) ==> connected(wire_edge(network), a, b)
}

/// No wire is in two parts.
pub(crate) open spec fn parts_apart(parts: Seq<Net>) -> bool {
    forall|k: int, l: int, w: u32|
        0 <= k < parts.len() && 0 <= l < parts.len() && #[trigger] parts[k].wires@.contains(w)
            && #[trigger] parts[l].wires@.contains(w) ==> k == l
}

/// Visits the connections of a wire: lists the attached terminals, and puts wires that were not
/// marked on the stack.
fn visit_connections(
    definitions: &DefinitionRegistry,
    network: &Network,
    wire: u32,
    part: &mut Net,
    stack: &mut Vec<u32>,
    scratch: &mut TraversalScratch,
)
    requires
        network_ok(*network, *definitions),
        network.wire_live(wire),
        old(scratch).wf(),
        old(scratch).wire_room() >= network.wire_slots(),
        old(scratch).wire_marked(wire - 1),
        part_lists(*network, *definitions, *old(part)),
        !old(part).wires@.contains(wire),
    ensures
        final(scratch).wf(),
        final(scratch).wire_room() == old(scratch).wire_room(),
        final(part).wires@ == old(part).wires@.push(wire),
        part_lists(*network, *definitions, *final(part)),
        final(stack)@.len() >= old(stack)@.len(),
        final(stack)@.take(old(stack)@.len() as int) == old(stack)@,
        forall|b: u32| #[trigger]
            network.linked(wire_word(wire), wire_word(b)) && b != 0 ==> final(scratch).wire_marked(
                b - 1,
            ),
        forall|i: int|
            0 <= i < network.wire_slots() ==> (#[trigger] final(scratch).wire_marked(i) <==> (old(
                scratch,
            ).wire_marked(i) || final(stack)@.skip(old(stack)@.len() as int).contains(
                (i + 1) as u32,
            ))),
        final(stack)@.skip(old(stack)@.len() as int).no_duplicates(),
        forall|b: u32| #[trigger]
            final(stack)@.skip(old(stack)@.len() as int).contains(b) ==> {
                &&& network.linked(wire_word(wire), wire_word(b))
                &&& network.wire_live(b)
                &&& !old(scratch).wire_marked(b - 1)
            },
{
    broadcast use group_words;

    let ghost base = stack@.len() as int;
    let ghost words = network.wire_words(wire);
    let count: usize = network.connection_count(wire);
    part.wires.push(wire);
    let ghost old_terms = part.terminals@;
    let mut index: usize = 0;
    proof {
        assert(stack@.skip(base) =~= Seq::<u32>::empty());
        assert(stack@.take(base) =~= stack@);
        lemma_push_contains(old(part).wires@, wire);
        assert forall|x: u64| #[trigger] part.terminals@.contains(x) implies !words.contains(x) by {
            assert(attached_to(*network, old(part).wires@, x));
            let a = choose|a: u32| #[trigger]
                old(part).wires@.contains(a) && network.linked(wire_word(a), x);
            if words.contains(x) {
                assert(network.linked(wire_word(wire), x));
                assert(network.linked(x, wire_word(a)));
                assert(network.linked(x, wire_word(wire)));
                assert(word_id(wire_word(a)) == word_id(wire_word(wire)));
            }
        }
        assert(words.take(0) =~= Seq::<u64>::empty());
    }
    while index < count
        invariant
            index <= count == words.len(),
            words == network.wire_words(wire),
            words.no_duplicates(),
            network_ok(*network, *definitions),
            network.wire_live(wire),
            scratch.wf(),
            scratch.wire_room() == old(scratch).wire_room() >= network.wire_slots(),
            part.wires@ == old(part).wires@.push(wire),
            base == old(stack)@.len() <= stack@.len(),
            stack@.take(base) == old(stack)@,
            stack@.skip(base).no_duplicates(),
            part.terminals@.no_duplicates(),
            part.terminals@.len() == part.terminal_components@.len(),
            old_terms == old(part).terminals@,
            forall|x: u64| #[trigger] old_terms.contains(x) ==> !words.contains(x),
            forall|i: int|
                0 <= i < part.terminals@.len() ==> #[trigger] part.terminal_components@[i]
                    == component_of(*network, *definitions, part.terminals@[i]),
            forall|x: u64| #[trigger]
                part.terminals@.contains(x) <==> (old_terms.contains(x) || (is_terminal_word(x)
                    && words.take(index as int).contains(x))),
            forall|j: int|
                0 <= j < index && !is_terminal_word(#[trigger] words[j]) ==> scratch.wire_marked(
                    word_id(words[j]) - 1,
                ),
            forall|i: int|
                0 <= i < network.wire_slots() ==> (#[trigger] scratch.wire_marked(i) <==> (old(
                    scratch,
                ).wire_marked(i) || stack@.skip(base).contains((i + 1) as u32))),
            forall|b: u32| #[trigger]
                stack@.skip(base).contains(b) ==> {
                    &&& network.linked(wire_word(wire), wire_word(b))
                    &&& network.wire_live(b)
                    &&& !old(scratch).wire_marked(b - 1)
                },
        decreases count - index,
    {
        broadcast use group_words;

        let connection = network.connection(wire, index);
        let ghost word = connection.word();
        let ghost before_terms = part.terminals@;
        proof {
            assert(words.take(index + 1) =~= words.take(index as int).push(word));
            lemma_push_contains(words.take(index as int), word);
            assert(network.linked(word, wire_word(wire)));
            assert(!words.take(index as int).contains(word)) by {
                if words.take(index as int).contains(word) {
                    let i = choose|i: int|
                        0 <= i < index && words.take(index as int)[i] == word;
                    assert(words[i] == words[index as int]);
                }
            }
        }
        match connection.as_wire() {
            Some(neighbor) => {
                let position: usize = neighbor.index();
                assert(network.wire_live(neighbor.value()));
                let ghost tail = stack@.skip(base);
                let ghost before = *scratch;
                if scratch.visit_wire(position) {
                    stack.push(neighbor.get());
                    proof {
                        assert(stack@.skip(base) =~= tail.push(neighbor.value()));
                        assert(stack@.take(base) =~= old(stack)@);
                        lemma_push_contains(tail, neighbor.value());
                        assert(!before.wire_marked(position as int));
                        assert(!tail.contains(neighbor.value()));
                    }
                }
                proof {
                    assert(words.contains(word));
                    assert forall|j: int|
                        0 <= j < index + 1 && !is_terminal_word(
                            #[trigger] words[j],
                        ) implies scratch.wire_marked(word_id(words[j]) - 1) by {
                        if j < index {
                            assert(words.contains(words[j]));
                            assert(network.linked(wire_word(wire), words[j]));
                            assert(network.linked(words[j], wire_word(wire)));
                            assert(network.wire_live(word_id(words[j])));
                        }
                    }
                }
            },
            None => {
                if let Some((device, terminal)) = connection.as_terminal() {
                    proof {
                        assert(network.linked(word, wire_word(wire)));
                    }
                    let component = terminal_component(definitions, network, device, terminal);
                    part.terminal_components.push(component.to_word());
                    proof {
                        let listed = part.terminals@;
                        part.terminals@ = listed.push(word);
                        assert(words.contains(word));
                        assert(!old_terms.contains(word));
                        lemma_push_contains(listed, word);
                    }
                }
            },
        }
        index = index + 1;
    }
    proof {
        assert(words.take(words.len() as int) =~= words);
        assert forall|b: u32| #[trigger]
            network.linked(wire_word(wire), wire_word(b)) && b != 0 implies scratch.wire_marked(
            b - 1,
        ) by {
            assert(words.contains(wire_word(b)));
            let j = choose|j: int| 0 <= j < words.len() && words[j] == wire_word(b);
            assert(!is_terminal_word(words[j]));
        }
        assert forall|x: u64| #[trigger] part.terminals@.contains(x) <==> attached_to(
            *network,
            part.wires@,
            x,
        ) by {
            if old_terms.contains(x) {
                let a = choose|a: u32| #[trigger]
                    old(part).wires@.contains(a) && network.linked(wire_word(a), x);
                assert(part.wires@.contains(a));
            }
            if is_terminal_word(x) && words.contains(x) {
                assert(part.wires@.contains(wire));
                assert(network.linked(wire_word(wire), x));
            }
            if attached_to(*network, part.wires@, x) {
                let a = choose|a: u32| #[trigger]
                    part.wires@.contains(a) && network.linked(wire_word(a), x);
                if a == wire {
                    assert(words.contains(x));
                } else {
                    assert(old(part).wires@.contains(a));
                    assert(attached_to(*network, old(part).wires@, x));
                }
            }
        }
    }
}

/// What is known between two steps of the walk through one part of a net.
pub(crate) open spec fn walking(
    topology: DerivedTopology,
    network: Network,
    definitions: DefinitionRegistry,
    net: u32,
    parts: Seq<Net>,
    start: u32,
    part: Net,
    stack: Seq<u32>,
    scratch: TraversalScratch,
) -> bool {
    &&& scratch.wf()
    &&& scratch.wire_room() >= network.wire_slots()
    &&& part_lists(network, definitions, part)
    &&& part.wires@.no_duplicates()
    &&& stack.no_duplicates()
    &&& part.wires@.contains(start) || stack.contains(start)
    &&& forall|w: u32| #[trigger]
        part.wires@.contains(w) ==> !stack.contains(w) && topology.net_of(w) == net && connected(
            wire_edge(network),
            start,
            w,
        )
    &&& forall|w: u32| #[trigger]
        stack.contains(w) ==> topology.net_of(w) == net && connected(wire_edge(network), start, w)
    &&& forall|w: u32|
        1 <= w <= network.wire_slots() ==> (#[trigger] scratch.wire_marked(w - 1) <==> (
        part.wires@.contains(w) || stack.contains(w) || in_parts(parts, w)))
    &&& forall|w: u32| #[trigger]
        in_parts(parts, w) ==> !part.wires@.contains(w) && !stack.contains(w)
    &&& forall|a: u32, b: u32|
        #![trigger part.wires@.contains(a), network.linked(wire_word(a), wire_word(b))]
        part.wires@.contains(a) && network.linked(wire_word(a), wire_word(b))
            ==> part.wires@.contains(b) || stack.contains(b)
}

/// Whether a wire is in one of the parts.
pub(crate) open spec fn in_parts(parts: Seq<Net>, wire: u32) -> bool {
    exists|k: int| 0 <= k < parts.len() && #[trigger] parts[k].wires@.contains(wire)
}

/// Whether one of the first items of a list is on another.
pub(crate) open spec fn starts_in<T>(items: Seq<T>, list: Seq<T>, upto: int) -> bool {
    exists|i: int| 0 <= i < upto && #[trigger] items.contains(list[i])
}

/// Whether parts stand in the order in which their first wires come in a list, before a place.
pub(crate) open spec fn parts_in_order(parts: Seq<Net>, wires: Seq<u32>, upto: int) -> bool {
    &&& forall|k: int|
        0 <= k < parts.len() ==> starts_in((#[trigger] parts[k]).wires@, wires, upto)
    &&& forall|k: int, l: int|
        0 <= k < l < parts.len() ==> found_before(
            wires,
            (#[trigger] parts[k]).wires@,
            (#[trigger] parts[l]).wires@,
        )
}

/// Whether parts of a net found so far are whole.
pub(crate) open spec fn parts_found(
    topology: DerivedTopology,
    network: Network,
    definitions: DefinitionRegistry,
    net: u32,
    parts: Seq<Net>,
) -> bool {
    &&& forall|k: int|
        0 <= k < parts.len() ==> {
            &&& (#[trigger] parts[k]).wires@.len() > 0
            &&& parts[k].wires@.no_duplicates()
            &&& part_lists(network, definitions, parts[k])
        }
    &&& forall|k: int, w: u32|
        0 <= k < parts.len() && #[trigger] parts[k].wires@.contains(w) ==> topology.net_of(w) == net
    &&& parts_apart(parts)
    &&& forall|k: int, a: u32, b: u32|
        #![trigger parts[k].wires@.contains(a), network.linked(wire_word(a), wire_word(b))]
        0 <= k < parts.len() && parts[k].wires@.contains(a) && network.linked(
            wire_word(a),
            wire_word(b),
        ) ==> parts[k].wires@.contains(b)
    &&& forall|k: int, a: u32, b: u32|
        0 <= k < parts.len() && #[trigger] parts[k].wires@.contains(a)
            && #[trigger] parts[k].wires@.contains(b) ==> connected(wire_edge(network), a, b)
}

/// Whether a topology can be asked for the parts of a net: the wires that it has in the net are on
/// the net's list, exist, and are connected to no wire of another net.
pub(crate) open spec fn net_splittable(
    topology: DerivedTopology,
    network: Network,
    net: u32,
) -> bool {
    &&& topology.nets.wf()
    &&& topology.nets@.contains_key(net)
    &&& topology.wire_net_map@.len() == network.wire_slots()
    &&& forall|w: u32| #[trigger]
        topology.net_of(w) == net ==> network.wire_live(w) && topology.nets@[net].wires@.contains(w)
    &&& forall|w: u32| #[trigger]
        topology.nets@[net].wires@.contains(w) ==> 1 <= w <= network.wire_slots()
    &&& forall|a: u32, b: u32| #[trigger]
        network.linked(wire_word(a), wire_word(b)) && topology.net_of(a) == net
            ==> topology.net_of(b) == net
}

/// Walks through one part of a net, from a wire that has just been marked.
fn walk_wires(
    topology: &DerivedTopology,
    definitions: &DefinitionRegistry,
    network: &Network,
    net_id: u32,
    start: u32,
    scratch: &mut TraversalScratch,
    Ghost(parts): Ghost<Seq<Net>>,
) -> (result: Net)
    requires
        network_ok(*network, *definitions),
        net_id != 0,
        net_splittable(*topology, *network, net_id),
        parts_found(*topology, *network, *definitions, net_id, parts),
        topology.net_of(start) == net_id,
        !in_parts(parts, start),
        old(scratch).wf(),
        old(scratch).wire_room() >= network.wire_slots(),
        forall|w: u32|
            1 <= w <= network.wire_slots() ==> (#[trigger] old(scratch).wire_marked(w - 1) <==> (w
                == start || in_parts(parts, w))),
    ensures
        final(scratch).wf(),
        final(scratch).wire_room() >= network.wire_slots(),
        parts_found(*topology, *network, *definitions, net_id, parts.push(result)),
        result.wires@.contains(start),
        forall|w: u32|
            1 <= w <= network.wire_slots() ==> (#[trigger] final(scratch).wire_marked(w - 1)
                <==> in_parts(parts.push(result), w)),
{
    broadcast use group_words;

    let mut part = Net { wires: IdList::new(), terminal_components: WordList::new(), terminals: Ghost(
        Seq::empty(),
    ) };
    let mut stack: Vec<u32> = Vec::new();
    stack.push(start);
    let slots: usize = network.wire_count();
    proof {
        assert(stack@[0] == start);
        lemma_connected_self(wire_edge(*network), start);
        assert forall|w: u32| #[trigger] stack@.contains(w) implies w == start by {}
    }
    while stack.len() > 0
        invariant
            network_ok(*network, *definitions),
            net_id != 0,
            net_splittable(*topology, *network, net_id),
            parts_found(*topology, *network, *definitions, net_id, parts),
            slots == network.wire_slots(),
            walking(
                *topology,
                *network,
                *definitions,
                net_id,
                parts,
                start,
                part,
                stack@,
                *scratch,
            ),
            part.wires@.len() <= slots,
        decreases slots - part.wires@.len(),
    {
        broadcast use group_words;

        let ghost before_part = part;
        let ghost before_stack = stack@;
        let ghost before_scratch = *scratch;
        let wire: u32 = stack.pop().unwrap();
        let ghost popped = stack@;
        proof {
            assert(before_stack[before_stack.len() - 1] == wire);
            assert(before_stack.contains(wire));
            assert(topology.net_of(wire) == net_id);
            assert(network.wire_live(wire));
            assert forall|w: u32| #[trigger] popped.contains(w) <==> (before_stack.contains(w) && w
                != wire) by {
                if popped.contains(w) {
                    let i = choose|i: int| 0 <= i < popped.len() && popped[i] == w;
                    assert(before_stack[i] == w);
                }
                if before_stack.contains(w) && w != wire {
                    let i = choose|i: int| 0 <= i < before_stack.len() && before_stack[i] == w;
                    assert(popped[i] == w);
                }
            }
        }
        visit_connections(definitions, network, wire, &mut part, &mut stack, scratch);
        proof {
            let tail = stack@.skip(popped.len() as int);
            assert(stack@ =~= popped + tail);
            assert forall|w: u32| #[trigger] stack@.contains(w) <==> (popped.contains(w)
                || tail.contains(w)) by {
                if popped.contains(w) {
                    let i = choose|i: int| 0 <= i < popped.len() && popped[i] == w;
                    assert(stack@[i] == w);
                }
                if tail.contains(w) {
                    let i = choose|i: int| 0 <= i < tail.len() && tail[i] == w;
                    assert(stack@[popped.len() + i] == w);
                }
                if stack@.contains(w) {
                    let i = choose|i: int| 0 <= i < stack@.len() && stack@[i] == w;
                    if i < popped.len() {
                        assert(popped[i] == w);
                    } else {
                        assert(tail[i - popped.len()] == w);
                    }
                }
            }
            lemma_push_contains(before_part.wires@, wire);
            assert forall|w: u32| #[trigger] tail.contains(w) implies {
                &&& topology.net_of(w) == net_id
                &&& 1 <= w <= slots
                &&& connected(wire_edge(*network), start, w)
                &&& !before_part.wires@.contains(w)
                &&& !before_stack.contains(w)
                &&& !in_parts(parts, w)
            } by {
                assert(network.linked(wire_word(wire), wire_word(w)));
                assert(wire_edge(*network)(wire, w));
                lemma_connected_edge(wire_edge(*network), wire, w);
                lemma_connected_trans(wire_edge(*network), start, wire, w);
                assert(network.wire_live(w));
                assert(!before_scratch.wire_marked(w - 1));
            }
            assert(stack@.no_duplicates()) by {
                assert forall|i: int, j: int|
                    0 <= i < stack@.len() && 0 <= j < stack@.len() && i != j implies stack@[i]
                    != stack@[j] by {
                    if i < popped.len() && j < popped.len() {
                        assert(before_stack[i] != before_stack[j]);
                    } else if i >= popped.len() && j >= popped.len() {
                        assert(tail[i - popped.len()] != tail[j - popped.len()]);
                    } else if i < popped.len() {
                        assert(popped.contains(stack@[i]));
                        assert(tail[j - popped.len()] == stack@[j]);
                        assert(tail.contains(stack@[j]));
                    } else {
                        assert(popped.contains(stack@[j]));
                        assert(tail[i - popped.len()] == stack@[i]);
                        assert(tail.contains(stack@[i]));
                    }
                }
            }
            assert forall|w: u32|
                1 <= w <= network.wire_slots() implies (#[trigger] scratch.wire_marked(w - 1) <==> (
            part.wires@.contains(w) || stack@.contains(w) || in_parts(parts, w))) by {
                assert(before_scratch.wire_marked(w - 1) <==> (before_part.wires@.contains(w)
                    || before_stack.contains(w) || in_parts(parts, w)));
                assert((w - 1 + 1) as u32 == w);
            }
            assert forall|a: u32, b: u32|
                #![trigger part.wires@.contains(a), network.linked(wire_word(a), wire_word(b))]
                part.wires@.contains(a) && network.linked(
                    wire_word(a),
                    wire_word(b),
                ) implies part.wires@.contains(b) || stack@.contains(b) by {
                if a == wire {
                    assert(is_word(wire_word(b)));
                    assert(b != 0);
                    assert(network.linked(wire_word(b), wire_word(wire)));
                    assert(network.wire_live(b));
                    assert(scratch.wire_marked(b - 1));
                    if in_parts(parts, b) {
                        let k = choose|k: int|
                            0 <= k < parts.len() && #[trigger] parts[k].wires@.contains(b);
                        assert(parts[k].wires@.contains(wire));
                        assert(in_parts(parts, wire));
                    }
                } else {
                    assert(before_part.wires@.contains(a));
                }
            }
            assert forall|w: u32| #[trigger] in_parts(
                parts,
                w,
            ) implies !part.wires@.contains(w) && !stack@.contains(w) by {}
            assert forall|i: int| 0 <= i < part.wires@.len() implies 1 <= #[trigger] part.wires@[i]
                <= slots by {
                assert(part.wires@.contains(part.wires@[i]));
                assert(topology.net_of(part.wires@[i]) == net_id);
            }
            lemma_numbers_bounded(part.wires@, slots as nat);
        }
    }
    proof {
        assert forall|w: u32| !stack@.contains(w) by {}
        let all = parts.push(part);
        assert(part.wires@.contains(start));
        assert(part.wires@.len() > 0);
        assert forall|w: u32| #[trigger] in_parts(all, w) <==> (in_parts(parts, w)
            || part.wires@.contains(w)) by {
            if in_parts(parts, w) {
                let k = choose|k: int| 0 <= k < parts.len() && #[trigger] parts[k].wires@.contains(w);
                assert(all[k].wires@.contains(w));
            }
            if part.wires@.contains(w) {
                assert(all[parts.len() as int].wires@.contains(w));
            }
            if in_parts(all, w) {
                let k = choose|k: int| 0 <= k < all.len() && #[trigger] all[k].wires@.contains(w);
                if k < parts.len() {
                    assert(parts[k].wires@.contains(w));
                }
            }
        }
        assert forall|k: int, l: int, w: u32|
            0 <= k < all.len() && 0 <= l < all.len() && #[trigger] all[k].wires@.contains(w)
                && #[trigger] all[l].wires@.contains(w) implies k == l by {
            if k < parts.len() {
                assert(parts[k].wires@.contains(w));
                assert(in_parts(parts, w));
            }
            if l < parts.len() {
                assert(parts[l].wires@.contains(w));
                assert(in_parts(parts, w));
            }
        }
        assert forall|k: int, a: u32, b: u32|
            0 <= k < all.len() && #[trigger] all[k].wires@.contains(a)
                && #[trigger] all[k].wires@.contains(b) implies connected(
            wire_edge(*network),
            a,
            b,
        ) by {
            if k < parts.len() {
                assert(parts[k].wires@.contains(a) && parts[k].wires@.contains(b));
            } else {
                lemma_wire_edge_sym(*network);
                lemma_connected_sym(wire_edge(*network), start, a);
                lemma_connected_trans(wire_edge(*network), a, start, b);
            }
        }
        assert forall|k: int, a: u32, b: u32|
            #![trigger all[k].wires@.contains(a), network.linked(wire_word(a), wire_word(b))]
            0 <= k < all.len() && all[k].wires@.contains(a) && network.linked(
                wire_word(a),
                wire_word(b),
            ) implies all[k].wires@.contains(b) by {
            if k < parts.len() {
                assert(parts[k].wires@.contains(a));
            }
        }
        assert forall|k: int, w: u32|
            0 <= k < all.len() && #[trigger] all[k].wires@.contains(w) implies topology.net_of(w)
            == net_id by {
            if k < parts.len() {
                assert(parts[k].wires@.contains(w));
            }
        }
        assert forall|k: int| 0 <= k < all.len() implies {
            &&& (#[trigger] all[k]).wires@.len() > 0
            &&& all[k].wires@.no_duplicates()
            &&& part_lists(*network, *definitions, all[k])
        } by {
            if k < parts.len() {
                assert(parts[k].wires@.len() > 0);
            }
        }
    }
    part
}

/// Wires are connected both ways.
pub proof fn lemma_wire_edge_sym(network: Network)
    requires
        network.wf(),
    ensures
        forall|x: u32, y: u32| #[trigger] wire_edge(network)(x, y) ==> wire_edge(network)(y, x),
{
    assert forall|x: u32, y: u32| #[trigger] wire_edge(network)(x, y) implies wire_edge(network)(
        y,
        x,
    ) by {
        assert(network.linked(wire_word(x), wire_word(y)));
    }
}

/// A longer list does not change the order.
proof fn lemma_order_kept(parts: Seq<Net>, wires: Seq<u32>, upto: int)
    requires
        parts_in_order(parts, wires, upto),
    ensures
        parts_in_order(parts, wires, upto + 1),
{
    assert forall|k: int| 0 <= k < parts.len() implies starts_in(
        (#[trigger] parts[k]).wires@,
        wires,
        upto + 1,
    ) by {
        assert(starts_in(parts[k].wires@, wires, upto));
    }
}

/// A part that is found from the next wire of a list comes after the others.
proof fn lemma_part_found(
    topology: DerivedTopology,
    network: Network,
    definitions: DefinitionRegistry,
    net: u32,
    parts: Seq<Net>,
    part: Net,
    wires: Seq<u32>,
    at: int,
)
    requires
        0 <= at < wires.len(),
        parts_found(topology, network, definitions, net, parts.push(part)),
        parts_in_order(parts, wires, at),
        part.wires@.contains(wires[at]),
        forall|i: int|
            0 <= i < at && topology.net_of(#[trigger] wires[i]) == net ==> in_parts(
                parts,
                wires[i],
            ),
    ensures
        parts_in_order(parts.push(part), wires, at + 1),
{
    let more = parts.push(part);
    let last = parts.len() as int;
    assert forall|k: int| 0 <= k < more.len() implies starts_in(
        (#[trigger] more[k]).wires@,
        wires,
        at + 1,
    ) by {
        if k < last {
            assert(more[k] == parts[k]);
            assert(starts_in(parts[k].wires@, wires, at));
        } else {
            assert(more[k].wires@.contains(wires[at]));
        }
    }
    assert forall|k: int, l: int| 0 <= k < l < more.len() implies found_before(
        wires,
        (#[trigger] more[k]).wires@,
        (#[trigger] more[l]).wires@,
    ) by {
        assert(more[k] == parts[k]);
        if l < last {
            assert(more[l] == parts[l]);
        } else {
            assert(starts_in(parts[k].wires@, wires, at));
            let i = choose|i: int| 0 <= i < at && #[trigger] parts[k].wires@.contains(wires[i]);
            assert forall|j: int| 0 <= j <= i implies !#[trigger] part.wires@.contains(
                wires[j],
            ) by {
                if part.wires@.contains(wires[j]) {
                    assert(more[last].wires@.contains(wires[j]));
                    assert(in_parts(parts, wires[j]));
                    let m = choose|m: int|
                        0 <= m < parts.len() && #[trigger] parts[m].wires@.contains(wires[j]);
                    assert(more[m].wires@.contains(wires[j]));
                }
            }
            assert(more[k].wires@.contains(wires[i]));
        }
    }
}

/// The connected parts of the wires that the topology has in a net.
pub(crate) fn wire_components(
    topology: &DerivedTopology,
    definitions: &DefinitionRegistry,
    network: &Network,
    net_id: u32,
    scratch: &mut TraversalScratch,
) -> (result: Vec<Net>)
    requires
        network_ok(*network, *definitions),
        net_id != 0,
        net_splittable(*topology, *network, net_id),
        old(scratch).wf(),
    ensures
        final(scratch).wf(),
        is_split(*topology, *network, *definitions, net_id, result@),
        parts_in_order(
            result@,
            topology.nets@[net_id].wires@,
            topology.nets@[net_id].wires@.len() as int,
        ),
{
    broadcast use group_words;

    let slots: usize = network.wire_count();
    scratch.begin_wire_traversal(slots);
    let candidates = &topology.nets.get(net_id).unwrap().wires;
    let mut parts: Vec<Net> = Vec::new();
    let mut next: usize = 0;
    while next < candidates.len()
        invariant
            network_ok(*network, *definitions),
            net_id != 0,
            net_splittable(*topology, *network, net_id),
            candidates@ == topology.nets@[net_id].wires@,
            slots == network.wire_slots(),
            next <= candidates@.len(),
            scratch.wf(),
            scratch.wire_room() >= network.wire_slots(),
            parts_found(*topology, *network, *definitions, net_id, parts@),
            parts_in_order(parts@, candidates@, next as int),
            forall|w: u32|
                1 <= w <= network.wire_slots() ==> (#[trigger] scratch.wire_marked(w - 1)
                    <==> in_parts(parts@, w)),
            forall|i: int|
                0 <= i < next && topology.net_of(#[trigger] candidates@[i]) == net_id ==> in_parts(
                    parts@,
                    candidates@[i],
                ),
        decreases candidates@.len() - next,
    {
        let start: u32 = candidates.get(next);
        assert(candidates@.contains(start));
        let ghost before = *scratch;
        let ghost before_parts = parts@;
        if topology.wire_net_map[(start - 1) as usize] == net_id {
            if scratch.visit_wire((start - 1) as usize) {
                proof {
                    assert(!before.wire_marked(start - 1));
                    assert forall|w: u32|
                        1 <= w <= network.wire_slots() implies (#[trigger] scratch.wire_marked(
                        w - 1,
                    ) <==> (w == start || in_parts(parts@, w))) by {
                        assert(before.wire_marked(w - 1) <==> in_parts(parts@, w));
                    }
                }
                let part = walk_wires(
                    topology,
                    definitions,
                    network,
                    net_id,
                    start,
                    scratch,
                    Ghost(parts@),
                );
                parts.push(part);
                proof {
                    assert(parts@ =~= before_parts.push(part));
                    lemma_part_found(
                        *topology,
                        *network,
                        *definitions,
                        net_id,
                        before_parts,
                        part,
                        candidates@,
                        next as int,
                    );
                    assert forall|i: int|
                        0 <= i < next + 1 && topology.net_of(#[trigger] candidates@[i])
                            == net_id implies in_parts(parts@, candidates@[i]) by {
                        if i < next {
                            let k = choose|k: int|
                                0 <= k < before_parts.len()
                                    && #[trigger] before_parts[k].wires@.contains(candidates@[i]);
                            assert(parts@[k].wires@.contains(candidates@[i]));
                        } else {
                            assert(parts@[before_parts.len() as int].wires@.contains(start));
                        }
                    }
                }
            } else {
                proof {
                    lemma_order_kept(parts@, candidates@, next as int);
                    assert(before.wire_marked(start - 1));
                    assert forall|w: u32|
                        1 <= w <= network.wire_slots() implies (#[trigger] scratch.wire_marked(
                        w - 1,
                    ) <==> in_parts(parts@, w)) by {
                        assert(before.wire_marked(w - 1) <==> in_parts(parts@, w));
                    }
                }
            }
        } else {
            proof {
                lemma_order_kept(parts@, candidates@, next as int);
            }
        }
        next = next + 1;
    }
    proof {
        assert forall|w: u32| #[trigger] topology.net_of(w) == net_id implies exists|k: int|
            0 <= k < parts@.len() && #[trigger] parts@[k].wires@.contains(w) by {
            assert(candidates@.contains(w));
            let i = choose|i: int| 0 <= i < candidates@.len() && candidates@[i] == w;
            assert(in_parts(parts@, candidates@[i]));
        }
    }
    parts
}

} // verus!
