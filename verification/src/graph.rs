//! Paths in graphs that are given by their edges.

use vstd::prelude::*;

verus! {

/// Whether there is an edge from the vertex at `index` of a path to the next one.
pub open spec fn step<V>(edge: spec_fn(V, V) -> bool, path: Seq<V>, index: int) -> bool {
    edge(path[index], path[index + 1])
}

/// Whether a sequence of vertices follows the edges.
pub open spec fn is_path<V>(edge: spec_fn(V, V) -> bool, path: Seq<V>) -> bool {
    &&& path.len() > 0
    &&& forall|i: int| 0 <= i < path.len() - 1 ==> #[trigger] step(edge, path, i)
}

/// Whether a path leads from one vertex to another.
pub open spec fn connected<V>(edge: spec_fn(V, V) -> bool, from: V, to: V) -> bool {
    exists|path: Seq<V>| #[trigger]
        is_path(edge, path) && path[0] == from && path[path.len() - 1] == to
}

/// Every vertex is connected to itself.
pub proof fn lemma_connected_self<V>(edge: spec_fn(V, V) -> bool, a: V)
    ensures
        connected(edge, a, a),
{
    let path = seq![a];
    assert(is_path(edge, path));
}

/// The ends of an edge are connected.
pub proof fn lemma_connected_edge<V>(edge: spec_fn(V, V) -> bool, a: V, b: V)
    requires
        edge(a, b),
    ensures
        connected(edge, a, b),
{
    let path = seq![a, b];
    assert forall|i: int| 0 <= i < path.len() - 1 implies #[trigger] step(edge, path, i) by {
        assert(i == 0);
    }
    assert(is_path(edge, path));
}

/// What is connected to a common vertex in between is connected.
pub proof fn lemma_connected_trans<V>(edge: spec_fn(V, V) -> bool, a: V, b: V, c: V)
    requires
        connected(edge, a, b),
        connected(edge, b, c),
    ensures
        connected(edge, a, c),
{
    let first = choose|path: Seq<V>| #[trigger]
        is_path(edge, path) && path[0] == a && path[path.len() - 1] == b;
    let second = choose|path: Seq<V>| #[trigger]
        is_path(edge, path) && path[0] == b && path[path.len() - 1] == c;
    let n = first.len() as int;
    let path = first + second.skip(1);
    assert forall|i: int| 0 <= i < path.len() - 1 implies #[trigger] step(edge, path, i) by {
        if i < n - 1 {
            assert(step(edge, first, i));
        } else {
            assert(step(edge, second, i - n + 1));
            if i == n - 1 {
                assert(path[i] == b);
            } else {
                assert(path[i] == second[i - n + 1]);
            }
            assert(path[i + 1] == second[i - n + 2]);
        }
    }
    assert(is_path(edge, path));
    assert(path[path.len() - 1] == c);
}

/// Where edges lead both ways, so do paths.
pub proof fn lemma_connected_sym<V>(edge: spec_fn(V, V) -> bool, a: V, b: V)
    requires
        connected(edge, a, b),
        forall|x: V, y: V| #[trigger] edge(x, y) ==> edge(y, x),
    ensures
        connected(edge, b, a),
{
    let path = choose|path: Seq<V>| #[trigger]
        is_path(edge, path) && path[0] == a && path[path.len() - 1] == b;
    let back = path.reverse();
    assert forall|i: int| 0 <= i < back.len() - 1 implies #[trigger] step(edge, back, i) by {
        let j = path.len() - 2 - i;
        assert(step(edge, path, j));
        assert(back[i] == path[j + 1]);
        assert(back[i + 1] == path[j]);
    }
    assert(is_path(edge, back));
}

/// A path that starts in a set which the edges do not leave stays in it, and is a path of every
/// graph that has the edges inside the set.
pub proof fn lemma_connected_within<V>(
    edge: spec_fn(V, V) -> bool,
    other: spec_fn(V, V) -> bool,
    within: spec_fn(V) -> bool,
    a: V,
    b: V,
)
    requires
        connected(edge, a, b),
        within(a),
        forall|x: V, y: V| within(x) && #[trigger] edge(x, y) ==> within(y) && other(x, y),
    ensures
        connected(other, a, b),
        within(b),
{
    let path = choose|path: Seq<V>| #[trigger]
        is_path(edge, path) && path[0] == a && path[path.len() - 1] == b;
    lemma_path_within(edge, other, within, path, path.len() - 1);
    assert forall|i: int| 0 <= i < path.len() - 1 implies #[trigger] step(other, path, i) by {
        assert(step(edge, path, i));
        lemma_path_within(edge, other, within, path, i);
    }
    assert(is_path(other, path));
}

proof fn lemma_path_within<V>(
    edge: spec_fn(V, V) -> bool,
    other: spec_fn(V, V) -> bool,
    within: spec_fn(V) -> bool,
    path: Seq<V>,
    index: int,
)
    requires
        is_path(edge, path),
        within(path[0]),
        0 <= index < path.len(),
        forall|x: V, y: V| within(x) && #[trigger] edge(x, y) ==> within(y) && other(x, y),
    ensures
        within(path[index]),
    decreases index,
{
    if index > 0 {
        lemma_path_within(edge, other, within, path, index - 1);
        assert(step(edge, path, index - 1));
    }
}

/// A path that starts in a set which the edges do not leave can be replaced, edge by edge, by paths
/// of another graph.
pub proof fn lemma_connected_replaced<V>(
    edge: spec_fn(V, V) -> bool,
    other: spec_fn(V, V) -> bool,
    within: spec_fn(V) -> bool,
    a: V,
    b: V,
)
    requires
        connected(edge, a, b),
        within(a),
        forall|x: V, y: V|
            within(x) && #[trigger] edge(x, y) ==> within(y) && connected(other, x, y),
    ensures
        connected(other, a, b),
        within(b),
{
    let path = choose|path: Seq<V>| #[trigger]
        is_path(edge, path) && path[0] == a && path[path.len() - 1] == b;
    lemma_path_replaced(edge, other, within, path, path.len() - 1);
}

proof fn lemma_path_replaced<V>(
    edge: spec_fn(V, V) -> bool,
    other: spec_fn(V, V) -> bool,
    within: spec_fn(V) -> bool,
    path: Seq<V>,
    index: int,
)
    requires
        is_path(edge, path),
        within(path[0]),
        0 <= index < path.len(),
        forall|x: V, y: V|
            within(x) && #[trigger] edge(x, y) ==> within(y) && connected(other, x, y),
    ensures
        within(path[index]),
        connected(other, path[0], path[index]),
    decreases index,
{
    if index > 0 {
        lemma_path_replaced(edge, other, within, path, index - 1);
        assert(step(edge, path, index - 1));
        lemma_connected_trans(other, path[0], path[index - 1], path[index]);
    } else {
        lemma_connected_self(other, path[0]);
    }
}

/// A map of vertices that takes edges to edges takes paths to paths.
pub proof fn lemma_connected_map<V, W>(
    edge: spec_fn(V, V) -> bool,
    other: spec_fn(W, W) -> bool,
    map: spec_fn(V) -> W,
    a: V,
    b: V,
)
    requires
        connected(edge, a, b),
        forall|x: V, y: V| #[trigger] edge(x, y) ==> other(map(x), map(y)),
    ensures
        connected(other, map(a), map(b)),
{
    let path = choose|path: Seq<V>| #[trigger]
        is_path(edge, path) && path[0] == a && path[path.len() - 1] == b;
    let image = Seq::new(path.len(), |i: int| map(path[i]));
    assert forall|i: int| 0 <= i < image.len() - 1 implies #[trigger] step(other, image, i) by {
        assert(step(edge, path, i));
    }
    assert(is_path(other, image));
}

} // verus!
