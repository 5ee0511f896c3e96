//! Disjoint sets of numbers.

use vstd::arithmetic::power2::{lemma_pow2_adds, lemma_pow2_strictly_increases, pow2};
use vstd::prelude::*;

verus! {

/// Numbers below a bound, in disjoint sets.
pub(crate) struct UnionFind {
    parents: Vec<usize>,
    ranks: Vec<u8>,
    /// For the number that stands for a set, how many numbers the set holds.
    sizes: Ghost<Seq<nat>>,
}

/// The number that stands for the set of `node`.
spec fn root_of(parents: Seq<usize>, ranks: Seq<u8>, node: int) -> int
    decreases 256 - ranks[node],
{
    if 0 <= node < parents.len() && parents[node] != node && ranks[parents[node] as int]
        > ranks[node] {
        root_of(parents, ranks, parents[node] as int)
    } else {
        node
    }
}

/// Following parents climbs ranks.
spec fn climbing(parents: Seq<usize>, ranks: Seq<u8>) -> bool {
    &&& parents.len() == ranks.len()
    &&& forall|i: int|
        0 <= i < parents.len() ==> (#[trigger] parents[i]) < parents.len() && (parents[i] == i
            || ranks[parents[i] as int] > ranks[i])
}

/// How many numbers the sets that the first numbers stand for hold together.
spec fn held(parents: Seq<usize>, sizes: Seq<nat>, count: int) -> nat
    decreases count,
{
    if count <= 0 {
        0
    } else {
        held(parents, sizes, count - 1) + if parents[count - 1] == count - 1 {
            sizes[count - 1]
        } else {
            0
        }
    }
}

/// A root is a number that stands for its own set.
proof fn lemma_root(parents: Seq<usize>, ranks: Seq<u8>, node: int)
    requires
        climbing(parents, ranks),
        0 <= node < parents.len(),
    ensures
        0 <= root_of(parents, ranks, node) < parents.len(),
        parents[root_of(parents, ranks, node)] == root_of(parents, ranks, node),
        root_of(parents, ranks, root_of(parents, ranks, node)) == root_of(parents, ranks, node),
        root_of(parents, ranks, node) != node ==> ranks[root_of(parents, ranks, node)]
            > ranks[node],
    decreases 256 - ranks[node],
{
    if parents[node] != node {
        lemma_root(parents, ranks, parents[node] as int);
    }
}

/// Pointing a number at the root of its set leaves the sets as they are.
proof fn lemma_shortcut(parents: Seq<usize>, ranks: Seq<u8>, node: int, root: usize, other: int)
    requires
        climbing(parents, ranks),
        0 <= node < parents.len(),
        root == root_of(parents, ranks, node),
        parents[node] != node,
        0 <= other < parents.len(),
    ensures
        climbing(parents.update(node, root), ranks),
        root_of(parents.update(node, root), ranks, other) == root_of(parents, ranks, other),
    decreases 256 - ranks[other],
{
    let after = parents.update(node, root);
    lemma_root(parents, ranks, node);
    lemma_root(parents, ranks, parents[node] as int);
    assert(climbing(after, ranks)) by {
        assert forall|i: int| 0 <= i < after.len() implies (#[trigger] after[i]) < after.len() && (
        after[i] == i || ranks[after[i] as int] > ranks[i]) by {
            assert(parents[i] < parents.len());
        }
    }
    if other == node {
        assert(root != node);
        assert(after[root as int] == root);
        assert(root_of(after, ranks, root as int) == root);
        assert(ranks[root as int] > ranks[node]);
    } else if parents[other] != other {
        lemma_shortcut(parents, ranks, node, root, parents[other] as int);
    }
}

/// Pointing one root at another joins their sets.
proof fn lemma_joined(
    parents: Seq<usize>,
    ranks: Seq<u8>,
    after: Seq<u8>,
    top: usize,
    bottom: usize,
    other: int,
)
    requires
        climbing(parents, ranks),
        climbing(parents.update(bottom as int, top), after),
        top < parents.len(),
        bottom < parents.len(),
        top != bottom,
        parents[top as int] == top,
        parents[bottom as int] == bottom,
        forall|i: int|
            0 <= i < ranks.len() && i != top ==> #[trigger] after[i] == ranks[i],
        0 <= other < parents.len(),
    ensures
        root_of(parents.update(bottom as int, top), after, other) == if root_of(
            parents,
            ranks,
            other,
        ) == bottom {
            top as int
        } else {
            root_of(parents, ranks, other)
        },
    decreases 256 - ranks[other],
{
    let joined = parents.update(bottom as int, top);
    assert(joined[other] < joined.len());
    assert(joined[top as int] == top);
    if other == bottom {
        assert(root_of(joined, after, top as int) == top);
    } else if parents[other] != other {
        lemma_joined(parents, ranks, after, top, bottom, parents[other] as int);
    }
}

/// A set is no larger than all sets together.
proof fn lemma_held(parents: Seq<usize>, sizes: Seq<nat>, count: int, node: int)
    requires
        0 <= node < count,
        parents[node] == node,
    ensures
        sizes[node] <= held(parents, sizes, count),
    decreases count,
{
    if node < count - 1 {
        lemma_held(parents, sizes, count - 1, node);
    }
}

/// Two sets are no larger than all sets together, and joining them adds nothing.
proof fn lemma_held_joined(
    parents: Seq<usize>,
    sizes: Seq<nat>,
    top: usize,
    bottom: usize,
    count: int,
)
    requires
        0 <= count <= parents.len(),
        parents.len() == sizes.len(),
        top < parents.len(),
        bottom < parents.len(),
        top != bottom,
        parents[top as int] == top,
        parents[bottom as int] == bottom,
    ensures
        held(
            parents.update(bottom as int, top),
            sizes.update(top as int, sizes[top as int] + sizes[bottom as int]),
            count,
        ) == held(parents, sizes, count) + (if top < count {
            sizes[bottom as int] as int
        } else {
            0
        }) - (if bottom < count {
            sizes[bottom as int] as int
        } else {
            0
        }),
    decreases count,
{
    if count > 0 {
        lemma_held_joined(parents, sizes, top, bottom, count - 1);
    }
}

/// Numbers that stand for themselves hold one each.
proof fn lemma_held_alone(parents: Seq<usize>, sizes: Seq<nat>, count: int)
    requires
        0 <= count <= parents.len(),
        parents.len() == sizes.len(),
        forall|i: int| 0 <= i < parents.len() ==> #[trigger] parents[i] == i,
        forall|i: int| 0 <= i < sizes.len() ==> #[trigger] sizes[i] == 1,
    ensures
        held(parents, sizes, count) == count,
    decreases count,
{
    if count > 0 {
        lemma_held_alone(parents, sizes, count - 1);
    }
}

/// Which numbers are roots decides what is held.
proof fn lemma_held_same(parents: Seq<usize>, other: Seq<usize>, sizes: Seq<nat>, count: int)
    requires
        0 <= count <= parents.len(),
        parents.len() == other.len(),
        forall|i: int|
            0 <= i < parents.len() ==> ((#[trigger] parents[i] == i) == (other[i] == i)),
    ensures
        held(other, sizes, count) == held(parents, sizes, count),
    decreases count,
{
    if count > 0 {
        lemma_held_same(parents, other, sizes, count - 1);
        assert((parents[count - 1] == count - 1) == (other[count - 1] == count - 1));
    }
}

impl UnionFind {
    /// The bound below which the numbers are.
    pub(crate) closed spec fn spec_len(self) -> int {
        self.parents@.len() as int
    }

    /// The number that stands for the set of `node`.
    pub(crate) closed spec fn root(self, node: int) -> int {
        root_of(self.parents@, self.ranks@, node)
    }

    pub(crate) closed spec fn wf(self) -> bool {
        &&& climbing(self.parents@, self.ranks@)
        &&& self.sizes@.len() == self.parents@.len()
        &&& held(self.parents@, self.sizes@, self.parents@.len() as int) == self.parents@.len()
        &&& forall|i: int|
            0 <= i < self.parents@.len() && #[trigger] self.parents@[i] == i ==> pow2(
                self.ranks@[i] as nat,
            ) <= self.sizes@[i]
    }

    /// Each number below `len` in a set of its own.
    pub(crate) fn new(len: usize) -> (result: Self)
        ensures
            result.wf(),
            result.spec_len() == len,
            forall|i: int| 0 <= i < len ==> #[trigger] result.root(i) == i,
    {
        let mut parents: Vec<usize> = Vec::new();
        let mut ranks: Vec<u8> = Vec::new();
        let mut index: usize = 0;
        while index < len
            invariant
                index <= len,
                parents@.len() == index,
                ranks@.len() == index,
                forall|i: int| 0 <= i < index ==> #[trigger] parents@[i] == i,
                forall|i: int| 0 <= i < index ==> #[trigger] ranks@[i] == 0,
            decreases len - index,
        {
            parents.push(index);
            ranks.push(0);
            index = index + 1;
        }
        let ghost sizes = Seq::new(len as nat, |i: int| 1nat);
        proof {
            lemma_held_alone(parents@, sizes, len as int);
            vstd::arithmetic::power2::lemma2_to64();
        }
        UnionFind { parents, ranks, sizes: Ghost(sizes) }
    }

    /// The number that stands for the set of `node`.
    pub(crate) fn find(&mut self, node: usize) -> (result: usize)
        requires
            old(self).wf(),
            node < old(self).spec_len(),
        ensures
            final(self).wf(),
            final(self).spec_len() == old(self).spec_len(),
            result == old(self).root(node as int),
            result < old(self).spec_len(),
            final(self).root(result as int) == result,
            forall|i: int|
                0 <= i < old(self).spec_len() ==> #[trigger] final(self).root(i) == old(self).root(
                    i,
                ),
    {
        let mut root: usize = node;
        proof {
            lemma_root(self.parents@, self.ranks@, node as int);
        }
        while self.parents[root] != root
            invariant
                climbing(self.parents@, self.ranks@),
                root < self.parents@.len(),
                root_of(self.parents@, self.ranks@, root as int) == root_of(
                    self.parents@,
                    self.ranks@,
                    node as int,
                ),
            decreases 256 - self.ranks@[root as int],
        {
            root = self.parents[root];
        }
        let mut current: usize = node;
        while self.parents[current] != current
            invariant
                climbing(self.parents@, self.ranks@),
                self.ranks == old(self).ranks,
                self.sizes == old(self).sizes,
                self.parents@.len() == old(self).parents@.len(),
                current < self.parents@.len(),
                root_of(self.parents@, self.ranks@, current as int) == root,
                forall|i: int|
                    0 <= i < self.parents@.len() ==> #[trigger] self.root(i) == old(self).root(i),
                forall|i: int|
                    0 <= i < self.parents@.len() ==> (#[trigger] self.parents@[i] == i) == (old(
                        self,
                    ).parents@[i] == i),
            decreases 256 - self.ranks@[current as int],
        {
            let parent: usize = self.parents[current];
            let ghost before = *self;
            proof {
                lemma_root(self.parents@, self.ranks@, current as int);
                assert forall|i: int| 0 <= i < self.parents@.len() implies root_of(
                    self.parents@.update(current as int, root),
                    self.ranks@,
                    i,
                ) == #[trigger] self.root(i) by {
                    lemma_shortcut(self.parents@, self.ranks@, current as int, root, i);
                }
                lemma_shortcut(self.parents@, self.ranks@, current as int, root, parent as int);
            }
            self.parents.set(current, root);
            proof {
                assert forall|i: int| 0 <= i < self.parents@.len() implies #[trigger] self.root(i)
                    == old(self).root(i) by {
                    assert(before.root(i) == old(self).root(i));
                }
            }
            current = parent;
        }
        proof {
            lemma_root(self.parents@, self.ranks@, root as int);
            lemma_held_same(
                old(self).parents@,
                self.parents@,
                self.sizes@,
                self.parents@.len() as int,
            );
            assert forall|i: int|
                0 <= i < self.parents@.len() && #[trigger] self.parents@[i] == i implies pow2(
                self.ranks@[i] as nat,
            ) <= self.sizes@[i] by {
                assert(old(self).parents@[i] == i);
            }
        }
        root
    }

    /// Joins the sets of two numbers.
    pub(crate) fn union(&mut self, a: usize, b: usize)
        requires
            old(self).wf(),
            a < old(self).spec_len(),
            b < old(self).spec_len(),
        ensures
            final(self).wf(),
            final(self).spec_len() == old(self).spec_len(),
            forall|x: int, y: int|
                #![trigger final(self).root(x), final(self).root(y)]
                0 <= x < old(self).spec_len() && 0 <= y < old(self).spec_len()
                    ==> (final(self).root(x) == final(self).root(y)) == {
                    ||| old(self).root(x) == old(self).root(y)
                    ||| old(self).root(x) == old(self).root(a as int) && old(self).root(y) == old(
                        self,
                    ).root(b as int)
                    ||| old(self).root(x) == old(self).root(b as int) && old(self).root(y) == old(
                        self,
                    ).root(a as int)
                },
    {
        let root_a: usize = self.find(a);
        let root_b: usize = self.find(b);
        let ghost found = *self;
        proof {
            lemma_root(self.parents@, self.ranks@, a as int);
            lemma_root(self.parents@, self.ranks@, b as int);
            lemma_root(self.parents@, self.ranks@, root_a as int);
            assert forall|i: int| 0 <= i < self.spec_len() implies #[trigger] self.root(i) == old(
                self,
            ).root(i) by {}
            assert(self.root(a as int) == root_a && self.root(b as int) == root_b);
        }
        if root_a == root_b {
            return ;
        }
        let (top, bottom): (usize, usize) = if self.ranks[root_a] < self.ranks[root_b] {
            (root_b, root_a)
        } else {
            (root_a, root_b)
        };
        let count: usize = self.parents.len();
        let ghost sizes = self.sizes@;
        let ghost n = self.parents@.len() as int;
        proof {
            lemma_held(self.parents@, sizes, n, top as int);
            assert(pow2(self.ranks@[top as int] as nat) <= sizes[top as int]);
            assert(pow2(self.ranks@[bottom as int] as nat) <= sizes[bottom as int]);
            assert(self.ranks@[top as int] < 64) by {
                if self.ranks@[top as int] >= 64 {
                    vstd::arithmetic::power2::lemma2_to64();
                    if self.ranks@[top as int] > 64 {
                        lemma_pow2_strictly_increases(64, self.ranks@[top as int] as nat);
                    }
                    assert(pow2(64) == 0x1_0000_0000_0000_0000);
                }
            }
        }
        self.parents.set(bottom, top);
        if self.ranks[top] == self.ranks[bottom] {
            let rank: u8 = self.ranks[top];
            self.ranks.set(top, rank + 1);
        }
        self.sizes = Ghost(sizes.update(top as int, sizes[top as int] + sizes[bottom as int]));
        proof {
            let after = self.ranks@;
            assert(climbing(self.parents@, after)) by {
                assert forall|i: int| 0 <= i < self.parents@.len() implies (
                #[trigger] self.parents@[i]) < self.parents@.len() && (self.parents@[i] == i
                    || after[self.parents@[i] as int] > after[i]) by {
                    assert(found.parents@[i] < found.parents@.len());
                }
            }
            lemma_held_joined(found.parents@, sizes, top, bottom, n);
            let rank = found.ranks@[top as int] as nat;
            if after[top as int] != found.ranks@[top as int] {
                lemma_pow2_adds(1, rank);
                vstd::arithmetic::power2::lemma2_to64();
                assert(pow2(rank + 1) == 2 * pow2(rank));
                assert(pow2(rank) <= sizes[bottom as int]);
            }
            assert forall|i: int|
                0 <= i < self.parents@.len() && #[trigger] self.parents@[i] == i implies pow2(
                self.ranks@[i] as nat,
            ) <= self.sizes@[i] by {
                assert(found.parents@[i] == i);
            }
            assert forall|x: int| 0 <= x < n implies #[trigger] self.root(x) == if found.root(x)
                == bottom {
                top as int
            } else {
                found.root(x)
            } by {
                lemma_joined(found.parents@, found.ranks@, after, top, bottom, x);
            }
            assert forall|x: int, y: int|
                #![trigger self.root(x), self.root(y)]
                0 <= x < n && 0 <= y < n implies (self.root(x) == self.root(y)) == {
                ||| old(self).root(x) == old(self).root(y)
                ||| old(self).root(x) == old(self).root(a as int) && old(self).root(y) == old(
                    self,
                ).root(b as int)
                ||| old(self).root(x) == old(self).root(b as int) && old(self).root(y) == old(
                    self,
                ).root(a as int)
            } by {
                assert(found.root(x) == old(self).root(x));
                assert(found.root(y) == old(self).root(y));
            }
        }
    }
}

} // verus!
