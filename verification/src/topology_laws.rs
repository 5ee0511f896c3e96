//! What holds of the marks, and of nets and islands that are joined or fall apart.

use crate::connection::{component_device, component_word};
use crate::dense_store::listed_between;
use crate::invalidation::{lemma_without, with, without, Marks};
use crate::network::Network;
use crate::registry::DefinitionRegistry;
use crate::small_list::swap_removed;
use crate::topology::{component_of, DerivedTopology};
use crate::topology_steps::{
    first_of_device, found_before, parts_numbered, pruned, without_device,
};
use vstd::prelude::*;

verus! {

/// Lists of marks name an island once and keep their order: what is left out leaves the others in
/// their order, and what is added comes last.
pub proof fn law_marks_keep_their_order(items: Seq<u32>, item: u32)
    ensures
        without(items, item) == items.filter(|other: u32| other != item),
        with(items, item).contains(item),
        with(items, item).take(items.len() as int) == items,
        with(items, item).len() == items.len() + if items.contains(item) {
            0int
        } else {
            1
        },
        items.no_duplicates() ==> with(items, item).no_duplicates() && without(
            items,
            item,
        ).no_duplicates(),
    decreases items.len(),
{
    reveal(Seq::filter);
    lemma_without(items, item);
    if !items.contains(item) {
        assert(items.push(item)[items.len() as int] == item);
    }
    assert(with(items, item).take(items.len() as int) =~= items);
    if items.len() > 0 {
        law_marks_keep_their_order(items.drop_last(), item);
    }
}

/// An island whose topology has changed is marked for that and for nothing less, unless it is gone.
/// Other islands keep their marks.
pub proof fn law_new_topologies_supersede_lesser_marks(marks: Marks, island: u32, other: u32)
    ensures
        ({
            let after = marks.dirtied(island);
            &&& marks.gone.contains(island) ==> after == marks
            &&& !marks.gone.contains(island) ==> after.topology.contains(island)
                && !after.numerical.contains(island) && !after.binding.contains(island)
            &&& after.gone == marks.gone
            &&& other != island ==> {
                &&& after.topology.contains(other) == marks.topology.contains(other)
                &&& after.numerical.contains(other) == marks.numerical.contains(other)
                &&& after.binding.contains(other) == marks.binding.contains(other)
            }
        }),
{
    lemma_without(marks.numerical, island);
    lemma_without(marks.binding, island);
    law_marks_keep_their_order(marks.topology, island);
    lemma_with(marks.topology, island, other);
}

proof fn lemma_with(items: Seq<u32>, item: u32, other: u32)
    ensures
        with(items, item).contains(item),
        other != item ==> with(items, item).contains(other) == items.contains(other),
{
    let more = items.push(item);
    assert(more[items.len() as int] == item);
    if items.contains(other) {
        let i = choose|i: int| 0 <= i < items.len() && items[i] == other;
        assert(more[i] == other);
    }
    if more.contains(other) && other != item {
        let i = choose|i: int| 0 <= i < more.len() && more[i] == other;
        assert(items[i] == other);
    }
}

/// An island with new numbers or moved devices is marked for that unless it is gone or has a new
/// topology. The two marks do not touch each other, and other islands keep theirs.
pub proof fn law_lesser_marks_are_independent(marks: Marks, island: u32, other: u32)
    ensures
        ({
            let covered = marks.gone.contains(island) || marks.topology.contains(island);
            let numbers = marks.renumbered(island);
            let moved = marks.rebound(island);
            &&& covered ==> numbers == marks && moved == marks
            &&& !covered ==> numbers.numerical.contains(island) && moved.binding.contains(island)
            &&& numbers.topology == marks.topology && moved.topology == marks.topology
            &&& numbers.gone == marks.gone && moved.gone == marks.gone
            &&& numbers.binding == marks.binding && moved.numerical == marks.numerical
            &&& other != island ==> numbers.numerical.contains(other) == marks.numerical.contains(
                other,
            ) && moved.binding.contains(other) == marks.binding.contains(other)
        }),
{
    lemma_with(marks.numerical, island, other);
    lemma_with(marks.binding, island, other);
}

/// An island that is gone is marked as gone and for nothing else, and stays so whatever happens.
/// Other islands keep their marks.
pub proof fn law_gone_islands_stay_gone(marks: Marks, island: u32, other: u32)
    ensures
        ({
            let after = marks.retired(island);
            &&& after.gone.contains(island)
            &&& !after.topology.contains(island) && !after.numerical.contains(island)
                && !after.binding.contains(island)
            &&& after.dirtied(island) == after
            &&& after.renumbered(island) == after
            &&& after.rebound(island) == after
            &&& other != island ==> {
                &&& after.gone.contains(other) == marks.gone.contains(other)
                &&& after.topology.contains(other) == marks.topology.contains(other)
                &&& after.numerical.contains(other) == marks.numerical.contains(other)
                &&& after.binding.contains(other) == marks.binding.contains(other)
            }
        }),
{
    lemma_without(marks.topology, island);
    lemma_without(marks.numerical, island);
    lemma_without(marks.binding, island);
    lemma_with(marks.gone, island, other);
}

/// Marking a device marks the islands of all its components, and no others: for their numbers where
/// these changed, else for their bindings.
pub proof fn law_all_islands_of_a_device_are_marked(
    topology: DerivedTopology,
    network: Network,
    device: u32,
    numerical: bool,
    count: int,
    island: u32,
)
    requires
        0 <= count <= u16::MAX,
    ensures
        ({
            let marks = topology.spec_invalidation().marks();
            let after = topology.marks_of_device(network, device, numerical, count);
            let touched = exists|p: u16|
                p < count && #[trigger] topology.component_island_spec(
                    network,
                    component_word(device, p),
                ) == island;
            let covered = marks.gone.contains(island) || marks.topology.contains(island);
            &&& after.topology == marks.topology
            &&& after.gone == marks.gone
            &&& after.numerical.contains(island) <==> marks.numerical.contains(island) || (
            numerical && touched && !covered)
            &&& after.binding.contains(island) <==> marks.binding.contains(island) || (!numerical
                && touched && !covered)
            &&& numerical ==> after.binding == marks.binding
            &&& !numerical ==> after.numerical == marks.numerical
        }),
    decreases count,
{
    if count > 0 {
        law_all_islands_of_a_device_are_marked(
            topology,
            network,
            device,
            numerical,
            count - 1,
            island,
        );
        let before = topology.marks_of_device(network, device, numerical, count - 1);
        let last = (count - 1) as u16;
        let marked = topology.component_island_spec(network, component_word(device, last));
        law_lesser_marks_are_independent(before, marked, island);
        if exists|p: u16|
            p < count && #[trigger] topology.component_island_spec(
                network,
                component_word(device, p),
            ) == island {
            let p = choose|p: u16|
                p < count && #[trigger] topology.component_island_spec(
                    network,
                    component_word(device, p),
                ) == island;
            if p != last {
                assert(p < count - 1);
            }
        }
        if marked == island {
            assert(last < count);
        }
    }
}

/// Of two islands that are joined the larger one survives: it has at least as many components as the
/// other, and more where it is the second.
pub proof fn law_larger_islands_survive(topology: DerivedTopology, a: u32, b: u32)
    ensures
        ({
            let (kept, gone) = topology.kept_island(a, b);
            let size = |island: u32| topology.island_at(island).spec_components().len();
            &&& (kept == a && gone == b) || (kept == b && gone == a)
            &&& size(gone) <= size(kept)
            &&& size(a) == size(b) ==> kept == a
        }),
{
}

/// Of two nets that are joined, one with an island never gives way to one without. Where both have
/// one, or neither has, the larger one survives: it has at least as many wires as the other, and
/// more where it is the second.
pub proof fn law_larger_nets_survive(topology: DerivedTopology, a: u32, b: u32)
    ensures
        ({
            let (kept, gone) = topology.kept_net(a, b);
            let size = |net: u32| topology.net_at(net).spec_wires().len();
            let settled = |net: u32| topology.net_island_spec(net) != 0;
            &&& (kept == a && gone == b) || (kept == b && gone == a)
            &&& settled(gone) ==> settled(kept)
            &&& settled(a) == settled(b) ==> size(gone) <= size(kept)
            &&& settled(a) == settled(b) && size(a) == size(b) ==> kept == a
        }),
{
}

/// Joining two nets puts wires into one net exactly if they were in one before, or in the two. The
/// nets' islands are joined in the same way. Nothing is lost: the net that survives has the wires
/// and components of both.
pub proof fn law_joined_nets_hold_what_both_held(
    topology: DerivedTopology,
    after: DerivedTopology,
    a: u32,
    b: u32,
    wire: u32,
    other: u32,
    net: u32,
    item: u32,
    component: u64,
)
    requires
        a != b,
        topology.nets_united(after, a, b),
    ensures
        ({
            let of = |w: u32| topology.wire_net_spec(w);
            let among = |n: u32| n == a || n == b;
            after.wire_net_spec(wire) == after.wire_net_spec(other) <==> of(wire) == of(other) || (
            among(of(wire)) && among(of(other)))
        }),
        ({
            let island_a = topology.net_island_spec(a);
            let island_b = topology.net_island_spec(b);
            let kept = topology.kept_net(a, b).0;
            let united = after.net_at(kept);
            &&& after.has_net(a) != after.has_net(b) || !topology.has_net(a) || !topology.has_net(b)
            &&& united.spec_wires().contains(item) <==> topology.net_at(a).spec_wires().contains(
                item,
            ) || topology.net_at(b).spec_wires().contains(item)
            &&& united.spec_wires().len() == topology.net_at(a).spec_wires().len()
                + topology.net_at(b).spec_wires().len()
            &&& united.spec_components().contains(component) <==> topology.net_at(
                a,
            ).spec_components().contains(component) || topology.net_at(
                b,
            ).spec_components().contains(component)
            &&& after.net_island_spec(kept) != 0 <==> island_a != 0 || island_b != 0
            &&& net != a && net != b && topology.net_island_spec(net) != 0 ==> {
                after.net_island_spec(net) == after.net_island_spec(kept) <==> {
                    ||| topology.net_island_spec(net) == island_a
                    ||| topology.net_island_spec(net) == island_b
                }
            }
        }),
{
    let wires_a = topology.net_at(a).spec_wires();
    let wires_b = topology.net_at(b).spec_wires();
    let components_a = topology.net_at(a).spec_components();
    let components_b = topology.net_at(b).spec_components();
    lemma_both(wires_a, wires_b, item);
    lemma_both(wires_b, wires_a, item);
    lemma_both(components_a, components_b, component);
    lemma_both(components_b, components_a, component);
}

proof fn lemma_both<T>(a: Seq<T>, b: Seq<T>, item: T)
    ensures
        (a + b).contains(item) <==> a.contains(item) || b.contains(item),
{
    if a.contains(item) {
        let i = choose|i: int| 0 <= i < a.len() && a[i] == item;
        assert((a + b)[i] == item);
    }
    if b.contains(item) {
        let i = choose|i: int| 0 <= i < b.len() && b[i] == item;
        assert((a + b)[a.len() + i] == item);
    }
    if (a + b).contains(item) {
        let i = choose|i: int| 0 <= i < (a + b).len() && (a + b)[i] == item;
        if i < a.len() {
            assert(a[i] == item);
        } else {
            assert(b[i - a.len()] == item);
        }
    }
}

/// Joining two islands leaves one of them, with a new revision and the components of both. It has to
/// be redone, the other is gone, and all others are as they were.
pub proof fn law_joined_islands_hold_what_both_held(
    topology: DerivedTopology,
    after: DerivedTopology,
    a: u32,
    b: u32,
    component: u64,
    other: u32,
)
    requires
        a != b,
        topology.has_island(a),
        topology.has_island(b),
        !topology.spec_invalidation().gone().contains(a),
        !topology.spec_invalidation().gone().contains(b),
        topology.islands_united(after, a, b),
    ensures
        after.has_island(a) != after.has_island(b),
        ({
            let (kept, gone) = if after.has_island(a) {
                (a, b)
            } else {
                (b, a)
            };
            let united = after.island_at(kept);
            &&& topology.island_at(gone).spec_components().len() <= topology.island_at(
                kept,
            ).spec_components().len()
            &&& united.spec_revision() == topology.island_at(kept).spec_revision() + 1
            &&& united.spec_components().contains(component) <==> topology.island_at(
                a,
            ).spec_components().contains(component) || topology.island_at(
                b,
            ).spec_components().contains(component)
            &&& united.spec_components().len() == topology.island_at(a).spec_components().len()
                + topology.island_at(b).spec_components().len()
            &&& after.spec_invalidation().marks().topology.contains(kept)
            &&& after.spec_invalidation().marks().gone.contains(gone)
            &&& !after.spec_invalidation().marks().gone.contains(kept)
        }),
        other != a && other != b ==> after.has_island(other) == topology.has_island(other),
        other != a && other != b && topology.has_island(other) ==> after.island_at(other)
            == topology.island_at(other),
{
    let components_a = topology.island_at(a).spec_components();
    let components_b = topology.island_at(b).spec_components();
    lemma_both(components_a, components_b, component);
    lemma_both(components_b, components_a, component);
    let (kept, gone) = topology.kept_island(a, b);
    assert(after.has_island(kept));
    assert(!after.has_island(gone));
    let marks = topology.spec_invalidation().marks();
    law_gone_islands_stay_gone(marks, gone, kept);
    law_new_topologies_supersede_lesser_marks(marks.retired(gone), kept, gone);
}

/// A terminal that is attached to a wire brings the net of the wire into its island, or the island
/// of the net, if it has another one, together with its own. The net lists its component, and the
/// island has a new revision.
pub proof fn law_attached_nets_are_in_the_island_of_the_terminal(
    topology: DerivedTopology,
    after: DerivedTopology,
    network: Network,
    definitions: DefinitionRegistry,
    wire: u32,
    terminal: u64,
)
    requires
        topology.terminal_united(after, network, definitions, wire, terminal),
        topology.component_island_spec(network, component_of(network, definitions, terminal)) != 0,
        crate::topology::is_component(
            network,
            definitions,
            component_of(network, definitions, terminal),
        ),
    ensures
        ({
            let component = component_of(network, definitions, terminal);
            let net = topology.wire_net_spec(wire);
            let island = after.component_island_spec(network, component);
            &&& after.wire_net_spec(wire) == net
            &&& after.net_island_spec(net) == island
            &&& island == topology.component_island_spec(network, component) || island
                == topology.net_island_spec(net)
            &&& island != 0
            &&& after.net_at(net).spec_components().contains(component)
            &&& after.net_at(net).spec_components().len() == topology.net_at(
                net,
            ).spec_components().len() + 1
            &&& topology.has_island(island) ==> after.island_at(island).spec_revision()
                == topology.island_at(island).spec_revision() + 1
        }),
{
    let component = component_of(network, definitions, terminal);
    let net = topology.wire_net_spec(wire);
    let listed = after.net_at(net).spec_components();
    assert(listed[listed.len() - 1] == component);
}

/// Where an island falls apart, the identifier stays with a part that would take the most to move.
/// Of several such parts it is the one that is found last.
pub proof fn law_the_largest_part_keeps_the_island(
    topology: DerivedTopology,
    after: DerivedTopology,
    island: u32,
    part: u32,
)
    requires
        topology.island_split(after, island),
        after.has_island(island),
        after.has_island(part),
        !topology.has_island(part),
    ensures
        after.rewrite_cost(part) <= after.rewrite_cost(island),
        after.rewrite_cost(part) == after.rewrite_cost(island) ==> found_before(
            topology.island_at(island).spec_components(),
            after.island_at(part).spec_components(),
            after.island_at(island).spec_components(),
        ),
        after.island_at(part).spec_revision() == 0,
        after.island_at(island).spec_revision() == topology.island_at(island).spec_revision() + 1,
        part > topology.spec_island_slots(),
{
    let slots = topology.spec_island_slots();
    let (parts, keep) = choose|parts: Seq<u32>, keep: int| #[trigger]
        parts_numbered(parts, keep, island, slots) && topology.island_parts(
            after,
            island,
            parts,
            keep,
        );
    let k = part - slots - 1;
    assert(swap_removed(parts, keep)[k] == part);
    let index = if k == keep {
        parts.len() - 1
    } else {
        k
    };
    assert(parts[index] == part);
    if index < keep {
        assert(parts[keep] == island);
    }
}

/// Where a net falls apart, the identifier stays with a part that has the most wires. Of several
/// such parts it is the one that is found last.
pub proof fn law_the_largest_part_keeps_the_net(
    topology: DerivedTopology,
    after: DerivedTopology,
    net: u32,
    parts: Seq<u32>,
    keep: int,
    part: int,
)
    requires
        parts_numbered(parts, keep, net, topology.spec_net_slots()),
        topology.net_parts(after, net, parts, keep),
        0 <= part < parts.len(),
        parts[part] != net,
    ensures
        after.net_at(parts[part]).spec_wires().len() <= after.net_at(net).spec_wires().len(),
        after.net_at(parts[part]).spec_wires().len() == after.net_at(net).spec_wires().len()
            ==> found_before(
            topology.net_at(net).spec_wires(),
            after.net_at(parts[part]).spec_wires(),
            after.net_at(net).spec_wires(),
        ),
{
    assert(parts[keep] == net);
}

/// New islands are listed behind the others, in the order of their numbers.
pub proof fn law_new_islands_are_listed_in_order(ids: Seq<u32>, from: int, to: int)
    requires
        0 <= from <= to <= u32::MAX,
    ensures
        listed_between(ids, from, to) == ids + Seq::new(
            (to - from) as nat,
            |i: int| (from + 1 + i) as u32,
        ),
    decreases to - from,
{
    let number = |i: int| (from + 1 + i) as u32;
    if from < to {
        law_new_islands_are_listed_in_order(ids, from, to - 1);
    }
    assert(listed_between(ids, from, to) =~= ids + Seq::new((to - from) as nat, number));
}

/// All new islands are marked, unless they are gone, and no others are.
pub proof fn law_all_new_islands_are_marked(marks: Marks, from: int, to: int, island: u32)
    requires
        0 <= from <= to <= u32::MAX,
    ensures
        ({
            let after = marks.dirtied_between(from, to);
            let new = from < island <= to && !marks.gone.contains(island);
            &&& after.gone == marks.gone
            &&& after.topology.contains(island) <==> marks.topology.contains(island) || new
            &&& after.numerical.contains(island) <==> marks.numerical.contains(island) && !new
            &&& after.binding.contains(island) <==> marks.binding.contains(island) && !new
        }),
    decreases to - from,
{
    if from < to {
        law_all_new_islands_are_marked(marks, from, to - 1, island);
        law_new_topologies_supersede_lesser_marks(
            marks.dirtied_between(from, to - 1),
            to as u32,
            island,
        );
    }
}

/// The components of a device that is taken out are off the list of an island, and the others stay
/// in their order.
pub proof fn law_components_of_a_device_are_left_out(components: Seq<u64>, device: u32)
    ensures
        without_device(components, device) == components.filter(
            |component: u64| component_device(component) != device,
        ),
    decreases components.len(),
{
    reveal(Seq::filter);
    if components.len() > 0 {
        law_components_of_a_device_are_left_out(components.drop_last(), device);
    }
}

/// A net lists no component of a device that is taken out, and still lists each other component that
/// it listed.
pub proof fn law_nets_list_the_other_devices(components: Seq<u64>, device: u32, component: u64)
    ensures
        pruned(components, device).contains(component) <==> components.contains(component)
            && component_device(component) != device,
        pruned(components, device).len() <= components.len(),
    decreases components.len(),
{
    let first = first_of_device(components, device, 0);
    lemma_first_is_of_device(components, device, 0);
    if first < components.len() {
        let rest = swap_removed(components, first);
        let last = components.len() - 1;
        law_nets_list_the_other_devices(rest, device, component);
        if rest.contains(component) {
            let i = choose|i: int| 0 <= i < rest.len() && rest[i] == component;
            if i == first {
                assert(components[last] == component);
            } else {
                assert(components[i] == component);
            }
        }
        if components.contains(component) && component_device(component) != device {
            let i = choose|i: int| 0 <= i < components.len() && components[i] == component;
            if i == last {
                assert(rest[first] == component);
            } else {
                assert(rest[i] == component);
            }
        }
    } else if components.contains(component) {
        let i = choose|i: int| 0 <= i < components.len() && components[i] == component;
        assert(component_device(components[i]) != device);
    }
}

proof fn lemma_first_is_of_device(components: Seq<u64>, device: u32, from: int)
    requires
        0 <= from <= components.len(),
    ensures
        ({
            let first = first_of_device(components, device, from);
            &&& from <= first <= components.len()
            &&& first < components.len() ==> component_device(components[first]) == device
            &&& forall|i: int|
                from <= i < first ==> component_device(#[trigger] components[i]) != device
        }),
    decreases components.len() - from,
{
    if from < components.len() && component_device(components[from]) != device {
        lemma_first_is_of_device(components, device, from + 1);
    }
}

} // verus!
