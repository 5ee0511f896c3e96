//! Repair of an island after something was taken out of it.

use crate::connection::{group_words, is_terminal_word, word_id};
use crate::dense_store::{listed_between, DenseIdStore};
use crate::graph::{connected, lemma_connected_sym, lemma_connected_within};
use crate::ids::IslandId;
use crate::island_traversal::{
    adjacent, belongs, covers_bare_nets, in_pieces, is_island_split, island_components,
    island_vertex, lemma_linked_live, lemma_vertex_edge_sym, net_reached, pieces_found,
    pieces_in_order, IslandPiece, IslandVertex,
};
use crate::network::Network;
use crate::registry::DefinitionRegistry;
use crate::scratch::TraversalScratch;
use crate::small_list::{dropped, swap_removed, IdList};
use crate::topology::{
    component_of, is_component, network_ok, vertex_edge, vertex_of, DerivedTopology, IslandTopology,
    Net, Vertex,
};
use crate::topology_steps::{found_before, lemma_part_ids, part_ids, parts_numbered};
use crate::traversal::lemma_subset_bounded;
use vstd::prelude::*;

verus! {

impl DerivedTopology {
    /// Components and islands point at each other, but for the list of one island.
    pub(crate) open spec fn components_ok_but(
        self,
        network: Network,
        definitions: DefinitionRegistry,
        broken: Set<u32>,
        island: u32,
    ) -> bool {
        &&& forall|c: u64| #[trigger]
            is_component(network, definitions, c) ==> {
                let label = self.component_label(network, c);
                &&& self.islands@.contains_key(label)
                &&& label != island ==> self.islands@[label].components@.contains(c)
            }
        &&& forall|i: u32| #[trigger]
            self.islands@.contains_key(i) && i != island ==> {
                &&& !broken.contains(i) ==> self.islands@[i].components@.len() > 0
                &&& self.islands@[i].components@.no_duplicates()
                &&& forall|c: u64| #[trigger]
                    self.islands@[i].components@.contains(c) ==> is_component(
                        network,
                        definitions,
                        c,
                    ) && self.component_label(network, c) == i
            }
    }

    /// What holds while an island is taken apart.
    pub(crate) open spec fn repairing(
        self,
        network: Network,
        definitions: DefinitionRegistry,
        broken: Set<u32>,
        island: u32,
    ) -> bool {
        &&& self.structure_ok(network, definitions)
        &&& self.wires_ok(network)
        &&& self.nets_list(network, definitions)
        &&& self.net_labels_ok(broken)
        &&& self.components_ok_but(network, definitions, broken, island)
        &&& self.closed_ok(network, definitions)
        &&& self.nets_connected(network)
        &&& self.islands_connected(network, definitions, broken)
        &&& self.islands@.contains_key(island)
        &&& broken.contains(island)
        &&& forall|i: u32| #[trigger] broken.contains(i) ==> i <= self.islands.spec_slot_count()
    }

    /// Whether `after` differs in the labels of one piece only.
    pub(crate) open spec fn relabelled(
        self,
        after: Self,
        network: Network,
        definitions: DefinitionRegistry,
        piece: IslandPiece,
        to: u32,
    ) -> bool {
        &&& after.nets == self.nets
        &&& after.wire_net_map == self.wire_net_map
        &&& after.net_island_map@.len() == self.net_island_map@.len()
        &&& forall|n: u32| #[trigger]
            after.net_label(n) == if piece.nets@.contains(n) {
                to
            } else {
                self.net_label(n)
            }
        &&& forall|c: u64|
            is_component(network, definitions, c) ==> #[trigger] after.component_label(network, c)
                == if piece.components@.contains(c) {
                to
            } else {
                self.component_label(network, c)
            }
    }

    /// Moves the nets and components of a piece to another island, or its nets to none.
    fn move_piece(
        &mut self,
        definitions: &DefinitionRegistry,
        network: &Network,
        piece: &IslandPiece,
        to: u32,
    )
        requires
            network_ok(*network, *definitions),
            old(self).structure_ok(*network, *definitions),
            forall|n: u32| #[trigger] piece.nets@.contains(n) ==> old(self).nets@.contains_key(n),
            forall|c: u64| #[trigger]
                piece.components@.contains(c) ==> is_component(*network, *definitions, c),
            to != 0 || piece.components@.len() == 0,
        ensures
            final(self).structure_ok(*network, *definitions),
            final(self).islands == old(self).islands,
            final(self).invalidation == old(self).invalidation,
            old(self).relabelled(*final(self), *network, *definitions, *piece, to),
    {
        broadcast use DenseIdStore::lemma_live;

        let mut index: usize = 0;
        while index < piece.nets.len()
            invariant
                network_ok(*network, *definitions),
                self.structure_ok(*network, *definitions),
                self.islands == old(self).islands,
                self.invalidation == old(self).invalidation,
                self.nets == old(self).nets,
                self.wire_net_map == old(self).wire_net_map,
                self.device_chunks == old(self).device_chunks,
                self.net_island_map@.len() == old(self).net_island_map@.len(),
                index <= piece.nets@.len(),
                forall|n: u32| #[trigger]
                    piece.nets@.contains(n) ==> old(self).nets@.contains_key(n),
                forall|n: u32| #[trigger]
                    self.net_label(n) == if piece.nets@.take(index as int).contains(n) {
                        to
                    } else {
                        old(self).net_label(n)
                    },
            decreases piece.nets@.len() - index,
        {
            broadcast use DenseIdStore::lemma_live;

            let net_id: u32 = piece.nets.get(index);
            assert(piece.nets@.contains(net_id));
            assert(self.nets@.contains_key(net_id));
            let ghost before = *self;
            self.net_island_map.set((net_id - 1) as usize, to);
            proof {
                let taken = piece.nets@.take(index as int);
                assert(piece.nets@.take(index + 1) =~= taken.push(net_id));
                crate::traversal::lemma_push_contains(taken, net_id);
                assert forall|n: u32| #[trigger] self.net_label(n) == if piece.nets@.take(
                    index + 1,
                ).contains(n) {
                    to
                } else {
                    old(self).net_label(n)
                } by {
                    assert(before.net_label(n) == if taken.contains(n) {
                        to
                    } else {
                        old(self).net_label(n)
                    });
                }
            }
            index = index + 1;
        }
        assert(piece.nets@.take(piece.nets@.len() as int) =~= piece.nets@);
        let mut position: usize = 0;
        while position < piece.components.len()
            invariant
                network_ok(*network, *definitions),
                self.structure_ok(*network, *definitions),
                self.islands == old(self).islands,
                self.invalidation == old(self).invalidation,
                self.nets == old(self).nets,
                self.wire_net_map == old(self).wire_net_map,
                self.net_island_map@.len() == old(self).net_island_map@.len(),
                position <= piece.components@.len(),
                to != 0 || piece.components@.len() == 0,
                forall|c: u64| #[trigger]
                    piece.components@.contains(c) ==> is_component(*network, *definitions, c),
                forall|n: u32| #[trigger]
                    self.net_label(n) == if piece.nets@.contains(n) {
                        to
                    } else {
                        old(self).net_label(n)
                    },
                forall|c: u64|
                    is_component(*network, *definitions, c) ==> #[trigger] self.component_label(
                        *network,
                        c,
                    ) == if piece.components@.take(position as int).contains(c) {
                        to
                    } else {
                        old(self).component_label(*network, c)
                    },
            decreases piece.components@.len() - position,
        {
            let component: u64 = piece.components.get(position);
            assert(piece.components@.contains(component));
            let ghost before = *self;
            self.set_component_island(definitions, network, component, to);
            proof {
                let taken = piece.components@.take(position as int);
                assert(piece.components@.take(position + 1) =~= taken.push(component));
                crate::traversal::lemma_push_contains(taken, component);
                assert forall|n: u32| #[trigger] self.net_label(n) == if piece.nets@.contains(n) {
                    to
                } else {
                    old(self).net_label(n)
                } by {
                    assert(before.net_label(n) == self.net_label(n));
                }
                assert forall|c: u64| is_component(
                    *network,
                    *definitions,
                    c,
                ) implies #[trigger] self.component_label(*network, c)
                    == if piece.components@.take(position + 1).contains(c) {
                    to
                } else {
                    old(self).component_label(*network, c)
                } by {
                    assert(before.component_label(*network, c) == if taken.contains(c) {
                        to
                    } else {
                        old(self).component_label(*network, c)
                    });
                }
            }
            position = position + 1;
        }
        assert(piece.components@.take(piece.components@.len() as int) =~= piece.components@);
    }
}

/// A net with nothing attached is connected to its own wires only.
pub(crate) proof fn lemma_bare_net(
    topology: DerivedTopology,
    network: Network,
    definitions: DefinitionRegistry,
    net: u32,
    wire: u32,
    to: Vertex,
)
    requires
        network_ok(network, definitions),
        topology.closed_ok(network, definitions),
        topology.net_lists(network, definitions, net),
        topology.nets@[net].terminals@.len() == 0,
        topology.net_of(wire) == net,
        connected(vertex_edge(network, definitions), Vertex::Wire(wire), to),
    ensures
        to matches Vertex::Wire(w) && topology.net_of(w) == net,
{
    broadcast use group_words;

    let edge = vertex_edge(network, definitions);
    let within = |v: Vertex| v matches Vertex::Wire(w) && topology.net_of(w) == net;
    assert forall|a: Vertex, b: Vertex| within(a) && #[trigger] edge(a, b) implies within(b)
        && edge(a, b) by {
        let (x, y) = choose|x: u64, y: u64| #[trigger]
            network.linked(x, y) && vertex_of(network, definitions, x) == a && vertex_of(
                network,
                definitions,
                y,
            ) == b;
        assert(network.linked(y, x));
        if is_terminal_word(y) {
            assert(topology.attached(network, y, net));
            assert(topology.nets@[net].terminals@.contains(y));
        } else {
            assert(topology.net_of(word_id(x)) == topology.net_of(word_id(y)));
        }
    }
    lemma_connected_within(edge, edge, within, Vertex::Wire(wire), to);
}

/// Something is attached to every net of a piece that has a component; nothing is attached to the
/// nets of a piece that has none.
pub(crate) proof fn lemma_piece_terminals(
    topology: DerivedTopology,
    network: Network,
    definitions: DefinitionRegistry,
    island: u32,
    pieces: Seq<IslandPiece>,
    k: int,
    net: u32,
)
    requires
        network_ok(network, definitions),
        topology.closed_ok(network, definitions),
        topology.wires_ok(network),
        topology.nets_list(network, definitions),
        pieces_found(topology, network, definitions, island, pieces),
        0 <= k < pieces.len(),
        pieces[k].nets@.contains(net),
    ensures
        topology.nets@.contains_key(net),
        topology.nets@[net].terminals@.len() > 0 <==> pieces[k].components@.len() > 0,
{
    broadcast use group_words;

    assert(pieces[k].holds(IslandVertex::Net(net)));
    assert(belongs(topology, network, definitions, island, IslandVertex::Net(net)));
    assert(topology.net_lists(network, definitions, net));
    if topology.nets@[net].terminals@.len() > 0 {
        let x = topology.nets@[net].terminals@[0];
        assert(topology.nets@[net].terminals@.contains(x));
        assert(topology.attached(network, x, net));
        let y = choose|y: u64| #[trigger]
            network.linked(x, y) && !is_terminal_word(y) && topology.net_of(word_id(y)) == net;
        assert(network.linked(y, x));
        let c = component_of(network, definitions, x);
        assert(island_vertex(topology, network, definitions, y) == IslandVertex::Net(net));
        assert(island_vertex(topology, network, definitions, x) == IslandVertex::Component(c));
        assert(adjacent(
            topology,
            network,
            definitions,
            IslandVertex::Net(net),
            IslandVertex::Component(c),
        ));
        assert(pieces[k].holds(IslandVertex::Component(c)));
    }
    if pieces[k].components@.len() > 0 && topology.nets@[net].terminals@.len() == 0 {
        let c = pieces[k].components@[0];
        assert(pieces[k].components@.contains(c));
        assert(net_reached(topology, network, definitions, Vertex::Component(c), net));
        let w = topology.nets@[net].wires@[0];
        assert(topology.nets@[net].wires@.contains(w));
        assert(topology.net_of(w) == net);
        lemma_vertex_edge_sym(network, definitions);
        lemma_connected_sym(
            vertex_edge(network, definitions),
            Vertex::Component(c),
            Vertex::Wire(w),
        );
        lemma_bare_net(topology, network, definitions, net, w, Vertex::Component(c));
    }
}

/// Adjacency does not depend on islands.
pub(crate) proof fn lemma_adjacent_same(
    before: DerivedTopology,
    after: DerivedTopology,
    network: Network,
    definitions: DefinitionRegistry,
    a: IslandVertex,
    b: IslandVertex,
)
    requires
        after.wire_net_map == before.wire_net_map,
    ensures
        adjacent(before, network, definitions, a, b) == adjacent(
            after,
            network,
            definitions,
            a,
            b,
        ),
{
    if adjacent(before, network, definitions, a, b) {
        let (x, y) = choose|x: u64, y: u64| #[trigger]
            network.linked(x, y) && island_vertex(before, network, definitions, x) == a
                && island_vertex(before, network, definitions, y) == b;
        assert(island_vertex(after, network, definitions, x) == a);
        assert(island_vertex(after, network, definitions, y) == b);
    }
    if adjacent(after, network, definitions, a, b) {
        let (x, y) = choose|x: u64, y: u64| #[trigger]
            network.linked(x, y) && island_vertex(after, network, definitions, x) == a
                && island_vertex(after, network, definitions, y) == b;
        assert(island_vertex(before, network, definitions, x) == a);
        assert(island_vertex(before, network, definitions, y) == b);
    }
}

/// Once a piece has moved away, the other pieces make up the island.
pub(crate) proof fn lemma_pieces_left(
    before: DerivedTopology,
    after: DerivedTopology,
    network: Network,
    definitions: DefinitionRegistry,
    island: u32,
    pieces: Seq<IslandPiece>,
    k: int,
    to: u32,
)
    requires
        network_ok(network, definitions),
        0 <= k < pieces.len(),
        is_island_split(before, network, definitions, island, pieces),
        before.relabelled(after, network, definitions, pieces[k], to),
        to != island,
    ensures
        is_island_split(after, network, definitions, island, swap_removed(pieces, k)),
{
    let rest = swap_removed(pieces, k);
    let last = pieces.len() - 1;
    assert forall|j: int| 0 <= j < rest.len() implies #[trigger] rest[j] == pieces[if j == k {
        last
    } else {
        j
    }] by {}
    assert forall|j: int, v: IslandVertex|
        0 <= j < rest.len() && #[trigger] rest[j].holds(v) implies belongs(
        after,
        network,
        definitions,
        island,
        v,
    ) by {
        let from = if j == k {
            last
        } else {
            j
        };
        assert(pieces[from].holds(v));
        assert(!pieces[k].holds(v));
        match v {
            IslandVertex::Net(n) => {
                assert(after.net_label(n) == before.net_label(n));
            },
            IslandVertex::Component(c) => {
                assert(after.component_label(network, c) == before.component_label(network, c));
            },
        }
    }
    assert forall|j: int, l: int, v: IslandVertex|
        0 <= j < rest.len() && 0 <= l < rest.len() && #[trigger] rest[j].holds(v)
            && #[trigger] rest[l].holds(v) implies j == l by {
        let from_j = if j == k {
            last
        } else {
            j
        };
        let from_l = if l == k {
            last
        } else {
            l
        };
        assert(pieces[from_j].holds(v) && pieces[from_l].holds(v));
    }
    assert forall|j: int, v: IslandVertex, u: IslandVertex|
        0 <= j < rest.len() && #[trigger] rest[j].holds(v) && #[trigger] adjacent(
            after,
            network,
            definitions,
            v,
            u,
        ) implies rest[j].holds(u) by {
        let from = if j == k {
            last
        } else {
            j
        };
        lemma_adjacent_same(before, after, network, definitions, v, u);
        assert(pieces[from].holds(v));
    }
    assert forall|j: int, a: u64, b: u64|
        0 <= j < rest.len() && #[trigger] rest[j].components@.contains(a)
            && #[trigger] rest[j].components@.contains(b) implies connected(
        vertex_edge(network, definitions),
        Vertex::Component(a),
        Vertex::Component(b),
    ) by {
        let from = if j == k {
            last
        } else {
            j
        };
        assert(pieces[from].components@.contains(a) && pieces[from].components@.contains(b));
    }
    assert forall|j: int, a: u64, n: u32|
        0 <= j < rest.len() && #[trigger] rest[j].components@.contains(a)
            && #[trigger] rest[j].nets@.contains(n) implies net_reached(
        after,
        network,
        definitions,
        Vertex::Component(a),
        n,
    ) by {
        let from = if j == k {
            last
        } else {
            j
        };
        assert(pieces[from].components@.contains(a) && pieces[from].nets@.contains(n));
        assert(net_reached(before, network, definitions, Vertex::Component(a), n));
        assert forall|w: u32| #[trigger] after.nets@[n].wires@.contains(w) implies connected(
            vertex_edge(network, definitions),
            Vertex::Component(a),
            Vertex::Wire(w),
        ) by {
            assert(before.nets@[n].wires@.contains(w));
        }
    }
    assert forall|j: int| 0 <= j < rest.len() implies (#[trigger] rest[j]).nets@.no_duplicates()
        && rest[j].components@.no_duplicates() by {
        let from = if j == k {
            last
        } else {
            j
        };
        assert(pieces[from].nets@.no_duplicates());
    }
    assert forall|v: IslandVertex| #[trigger]
        belongs(after, network, definitions, island, v) implies in_pieces(rest, v) by {
        match v {
            IslandVertex::Net(n) => {
                assert(after.net_label(n) == island);
                assert(!pieces[k].nets@.contains(n));
                assert(before.net_label(n) == island);
            },
            IslandVertex::Component(c) => {
                assert(after.component_label(network, c) == island);
                assert(!pieces[k].components@.contains(c));
                assert(before.component_label(network, c) == island);
            },
        }
        assert(belongs(before, network, definitions, island, v));
        assert(!pieces[k].holds(v));
        let j = choose|j: int| 0 <= j < pieces.len() && #[trigger] pieces[j].holds(v);
        if j == last {
            assert(rest[k].holds(v));
        } else {
            assert(rest[j].holds(v));
        }
    }
}

/// What is known of wires and nets does not depend on islands.
pub(crate) proof fn lemma_same_wires(
    before: DerivedTopology,
    after: DerivedTopology,
    network: Network,
    definitions: DefinitionRegistry,
)
    requires
        after.nets == before.nets,
        after.wire_net_map == before.wire_net_map,
        before.wires_ok(network),
        before.nets_list(network, definitions),
        before.nets_connected(network),
    ensures
        after.wires_ok(network),
        after.nets_list(network, definitions),
        after.nets_connected(network),
{
    assert(after.wires_ok(network)) by {
        assert forall|w: u32| #[trigger] after.net_of(w) == before.net_of(w) by {}
        assert forall|n: u32| #[trigger] after.nets@.contains_key(n) implies {
            &&& after.nets@[n].wires@.len() > 0
            &&& after.nets@[n].wires@.no_duplicates()
            &&& forall|w: u32| #[trigger]
                after.nets@[n].wires@.contains(w) ==> network.wire_live(w) && after.net_of(w) == n
        } by {
            assert(before.nets@.contains_key(n));
            assert forall|w: u32| #[trigger] after.nets@[n].wires@.contains(
                w,
            ) implies network.wire_live(w) && after.net_of(w) == n by {
                assert(before.nets@[n].wires@.contains(w));
            }
        }
    }
    assert(after.nets_list(network, definitions)) by {
        assert forall|n: u32| #[trigger] after.nets@.contains_key(n) implies after.net_lists(
            network,
            definitions,
            n,
        ) by {
            assert(before.net_lists(network, definitions, n));
            assert forall|x: u64| #[trigger] after.nets@[n].terminals@.contains(x)
                <==> after.attached(network, x, n) by {
                assert(before.attached(network, x, n) == after.attached(network, x, n)) by {
                    if before.attached(network, x, n) {
                        let y = choose|y: u64| #[trigger]
                            network.linked(x, y) && !is_terminal_word(y) && before.net_of(
                                word_id(y),
                            ) == n;
                        assert(after.net_of(word_id(y)) == n);
                    }
                    if after.attached(network, x, n) {
                        let y = choose|y: u64| #[trigger]
                            network.linked(x, y) && !is_terminal_word(y) && after.net_of(
                                word_id(y),
                            ) == n;
                        assert(before.net_of(word_id(y)) == n);
                    }
                }
            }
        }
    }
    assert(after.nets_connected(network)) by {
        assert forall|a: u32, b: u32|
            #![trigger after.net_of(a), after.net_of(b)]
            network.wire_live(a) && network.wire_live(b) && after.net_of(a) == after.net_of(
                b,
            ) implies connected(crate::topology::wire_edge(network), a, b) by {
            assert(before.net_of(a) == before.net_of(b));
        }
    }
}

/// Moving a whole piece out of an island that is being taken apart keeps what is known.
#[verifier::spinoff_prover]
#[verifier::rlimit(40)]
pub(crate) proof fn lemma_piece_moved(
    before: DerivedTopology,
    after: DerivedTopology,
    network: Network,
    definitions: DefinitionRegistry,
    broken: Set<u32>,
    island: u32,
    pieces: Seq<IslandPiece>,
    k: int,
    to: u32,
)
    requires
        network_ok(network, definitions),
        before.repairing(network, definitions, broken, island),
        is_island_split(before, network, definitions, island, pieces),
        0 <= k < pieces.len(),
        after.structure_ok(network, definitions),
        before.relabelled(after, network, definitions, pieces[k], to),
        after.islands.spec_slot_count() >= before.islands.spec_slot_count(),
        to == 0 ==> pieces[k].components@.len() == 0 && after.islands@ == before.islands@,
        to != 0 ==> {
            &&& pieces[k].components@.len() > 0
            &&& to > before.islands.spec_slot_count()
            &&& !before.islands@.contains_key(to)
            &&& after.islands@.dom() == before.islands@.dom().insert(to)
            &&& after.islands@[to].components@ == pieces[k].components@
            &&& forall|i: u32|
                before.islands@.contains_key(i) ==> #[trigger] after.islands@[i]
                    == before.islands@[i]
        },
    ensures
        after.repairing(network, definitions, broken, island),
{
    broadcast use DenseIdStore::lemma_live;

    let piece = pieces[k];
    assert(before.islands@.contains_key(island));
    assert(island != 0 && to != island);
    assert(to != 0 ==> !broken.contains(to)) by {
        if to != 0 && broken.contains(to) {
            assert(to <= before.islands.spec_slot_count());
        }
    }
    assert forall|i: u32| #[trigger] after.islands@.contains_key(i) <==> (
    before.islands@.contains_key(i) || (to != 0 && i == to)) by {
        if to != 0 {
            assert(after.islands@.dom().contains(i) == before.islands@.dom().insert(to).contains(
                i,
            ));
        }
    }
    assert forall|i: u32| before.islands@.contains_key(i) implies #[trigger] after.islands@[i]
        == before.islands@[i] by {}
    assert forall|n: u32| #[trigger] piece.nets@.contains(n) implies before.nets@.contains_key(n)
        && before.net_label(n) == island by {
        assert(piece.holds(IslandVertex::Net(n)));
    }
    assert forall|c: u64| #[trigger] piece.components@.contains(c) implies is_component(
        network,
        definitions,
        c,
    ) && before.component_label(network, c) == island by {
        assert(piece.holds(IslandVertex::Component(c)));
    }
    lemma_same_wires(before, after, network, definitions);
    assert(after.net_labels_ok(broken)) by {
        assert forall|n: u32| #[trigger] after.nets@.contains_key(n) implies {
            &&& after.net_label(n) != 0 ==> after.islands@.contains_key(after.net_label(n))
            &&& after.net_label(n) == 0 ==> after.nets@[n].terminals@.len() == 0
            &&& after.net_label(n) != 0 && !broken.contains(after.net_label(n))
                ==> after.nets@[n].terminals@.len() > 0
        } by {
            assert(before.nets@.contains_key(n));
            if piece.nets@.contains(n) {
                lemma_piece_terminals(before, network, definitions, island, pieces, k, n);
            }
        }
        assert forall|n: u32| !after.nets@.contains_key(n) implies #[trigger] after.net_label(n)
            == 0 by {
            assert(before.net_label(n) == 0);
        }
    }
    assert(after.components_ok_but(network, definitions, broken, island)) by {
        assert forall|c: u64| #[trigger] is_component(network, definitions, c) implies {
            let label = after.component_label(network, c);
            &&& after.islands@.contains_key(label)
            &&& label != island ==> after.islands@[label].components@.contains(c)
        } by {
            assert(before.islands@.contains_key(before.component_label(network, c)));
        }
        assert forall|i: u32| #[trigger] after.islands@.contains_key(i) && i != island implies {
            &&& !broken.contains(i) ==> after.islands@[i].components@.len() > 0
            &&& after.islands@[i].components@.no_duplicates()
            &&& forall|c: u64| #[trigger]
                after.islands@[i].components@.contains(c) ==> is_component(network, definitions, c)
                    && after.component_label(network, c) == i
        } by {
            if to != 0 && i == to {
                assert(pieces[k].components@.no_duplicates());
            } else {
                assert(before.islands@.contains_key(i));
                assert forall|c: u64| #[trigger] after.islands@[i].components@.contains(
                    c,
                ) implies is_component(network, definitions, c) && after.component_label(network, c)
                    == i by {
                    assert(before.islands@[i].components@.contains(c));
                    assert(before.component_label(network, c) == i);
                }
            }
        }
    }
    assert(after.closed_ok(network, definitions)) by {
        assert forall|x: u64, y: u64| #[trigger] network.linked(x, y) implies {
            &&& after.label(network, definitions, x) == after.label(network, definitions, y)
            &&& !is_terminal_word(x) && !is_terminal_word(y) ==> after.net_of(word_id(x))
                == after.net_of(word_id(y))
        } by {
            assert(network.linked(y, x));
            lemma_linked_live(network, definitions, x, y);
            lemma_linked_live(network, definitions, y, x);
            let v = island_vertex(before, network, definitions, x);
            let u = island_vertex(before, network, definitions, y);
            assert(adjacent(before, network, definitions, v, u));
            assert(adjacent(before, network, definitions, u, v));
            assert(piece.holds(v) ==> piece.holds(u));
            assert(piece.holds(u) ==> piece.holds(v));
            assert(after.net_of(word_id(x)) == before.net_of(word_id(x)));
            assert(after.net_of(word_id(y)) == before.net_of(word_id(y)));
        }
    }
    assert(after.islands_connected(network, definitions, broken)) by {
        assert forall|a: u64, b: u64|
            #![trigger after.component_label(network, a), after.component_label(network, b)]
            is_component(network, definitions, a) && is_component(network, definitions, b)
                && after.component_label(network, a) == after.component_label(network, b)
                && !broken.contains(after.component_label(network, a)) implies connected(
            vertex_edge(network, definitions),
            Vertex::Component(a),
            Vertex::Component(b),
        ) by {
            assert(before.islands@.contains_key(before.component_label(network, a)));
            assert(before.islands@.contains_key(before.component_label(network, b)));
            assert(piece.components@.contains(a) == piece.components@.contains(b));
            if piece.components@.contains(a) {
                assert(pieces[k].components@.contains(a) && pieces[k].components@.contains(b));
            } else {
                assert(before.component_label(network, a) == before.component_label(network, b));
            }
        }
    }
}

/// The position of the last of the pieces that cost the most to move.
fn costliest_piece(pieces: &Vec<IslandPiece>) -> (result: usize)
    requires
        pieces@.len() > 0,
    ensures
        result < pieces@.len(),
        forall|k: int|
            0 <= k < pieces@.len() ==> (#[trigger] pieces@[k]).cost() <= pieces@[result as int].cost(),
        forall|k: int|
            result < k < pieces@.len() ==> (#[trigger] pieces@[k]).cost()
                < pieces@[result as int].cost(),
{
    let mut best: usize = 0;
    let mut index: usize = 1;
    while index < pieces.len()
        invariant
            best < index <= pieces@.len(),
            forall|k: int|
                0 <= k < index ==> (#[trigger] pieces@[k]).cost() <= pieces@[best as int].cost(),
            forall|k: int|
                best < k < index ==> (#[trigger] pieces@[k]).cost() < pieces@[best as int].cost(),
        decreases pieces@.len() - index,
    {
        if pieces[index].rewrite_cost() >= pieces[best].rewrite_cost() {
            best = index;
        }
        index = index + 1;
    }
    best
}

impl DerivedTopology {
    /// The nets of an island.
    pub(crate) open spec fn nets_labelled(self, island: u32) -> Set<u32> {
        Set::new(|n: u32| self.nets@.contains_key(n) && self.net_label(n) == island)
    }

    /// How much would have to be rewritten to move an island's contents to another one.
    pub(crate) open spec fn island_cost(self, island: u32) -> nat {
        self.nets_labelled(island).len() + self.islands@[island].components@.len()
    }

    /// What a repair leaves as it was: nets, other islands, and the labels of what is in them.
    pub(crate) open spec fn repaired_elsewhere(
        self,
        after: Self,
        network: Network,
        definitions: DefinitionRegistry,
        island: u32,
    ) -> bool {
        &&& after.nets == self.nets
        &&& after.wire_net_map == self.wire_net_map
        &&& forall|i: u32|
            #![trigger after.islands@[i]]
            #![trigger after.islands@.contains_key(i)]
            i != island && self.islands@.contains_key(i) ==> after.islands@.contains_key(i)
                && after.islands@[i] == self.islands@[i]
        &&& forall|n: u32|
            self.net_label(n) != island ==> #[trigger] after.net_label(n) == self.net_label(n)
        &&& forall|n: u32|
            self.net_label(n) == island ==> {
                ||| #[trigger] after.net_label(n) == island
                ||| after.net_label(n) == 0
                ||| after.net_label(n) > self.islands.spec_slot_count()
            }
        &&& forall|c: u64|
            is_component(network, definitions, c) && self.component_label(network, c) != island
                ==> #[trigger] after.component_label(network, c) == self.component_label(network, c)
    }
}

/// The nets of a piece are the nets of its island.
proof fn lemma_piece_cost(
    topology: DerivedTopology,
    network: Network,
    definitions: DefinitionRegistry,
    island: u32,
    piece: IslandPiece,
)
    requires
        topology.islands@.contains_key(island),
        piece.nets@.no_duplicates(),
        piece.components@ == topology.islands@[island].components@,
        forall|n: u32| #[trigger]
            piece.nets@.contains(n) <==> (topology.nets@.contains_key(n) && topology.net_label(n)
                == island),
    ensures
        topology.island_cost(island) == piece.cost(),
{
    assert forall|n: u32| #[trigger] topology.nets_labelled(island).contains(n)
        == piece.nets@.to_set().contains(n) by {
        assert(piece.nets@.contains(n) <==> topology.nets@.contains_key(n) && topology.net_label(n)
            == island);
    }
    assert(topology.nets_labelled(island) =~= piece.nets@.to_set());
    piece.nets@.unique_seq_to_set();
}

/// In which order the pieces of an island stand does not matter.
proof fn lemma_pieces_permuted(
    topology: DerivedTopology,
    network: Network,
    definitions: DefinitionRegistry,
    island: u32,
    pieces: Seq<IslandPiece>,
    other: Seq<IslandPiece>,
    from: spec_fn(int) -> int,
    back: spec_fn(int) -> int,
)
    requires
        is_island_split(topology, network, definitions, island, pieces),
        other.len() == pieces.len(),
        forall|j: int|
            0 <= j < other.len() ==> 0 <= #[trigger] from(j) < pieces.len() && other[j]
                == pieces[from(j)] && back(from(j)) == j,
        forall|i: int|
            0 <= i < pieces.len() ==> 0 <= #[trigger] back(i) < other.len() && other[back(i)]
                == pieces[i],
    ensures
        is_island_split(topology, network, definitions, island, other),
{
    assert forall|j: int| 0 <= j < other.len() implies (#[trigger] other[j]).nets@.no_duplicates()
        && other[j].components@.no_duplicates() by {
        assert(pieces[from(j)].nets@.no_duplicates());
    }
    assert forall|j: int, v: IslandVertex|
        0 <= j < other.len() && #[trigger] other[j].holds(v) implies belongs(
        topology,
        network,
        definitions,
        island,
        v,
    ) by {
        assert(pieces[from(j)].holds(v));
    }
    assert forall|j: int, l: int, v: IslandVertex|
        0 <= j < other.len() && 0 <= l < other.len() && #[trigger] other[j].holds(v)
            && #[trigger] other[l].holds(v) implies j == l by {
        assert(pieces[from(j)].holds(v) && pieces[from(l)].holds(v));
        assert(back(from(j)) == j && back(from(l)) == l);
    }
    assert forall|j: int, v: IslandVertex, u: IslandVertex|
        0 <= j < other.len() && #[trigger] other[j].holds(v) && #[trigger] adjacent(
            topology,
            network,
            definitions,
            v,
            u,
        ) implies other[j].holds(u) by {
        assert(pieces[from(j)].holds(v));
    }
    assert forall|j: int, a: u64, b: u64|
        0 <= j < other.len() && #[trigger] other[j].components@.contains(a)
            && #[trigger] other[j].components@.contains(b) implies connected(
        vertex_edge(network, definitions),
        Vertex::Component(a),
        Vertex::Component(b),
    ) by {
        assert(pieces[from(j)].components@.contains(a) && pieces[from(j)].components@.contains(b));
    }
    assert forall|j: int, a: u64, n: u32|
        0 <= j < other.len() && #[trigger] other[j].components@.contains(a)
            && #[trigger] other[j].nets@.contains(n) implies net_reached(
        topology,
        network,
        definitions,
        Vertex::Component(a),
        n,
    ) by {
        assert(pieces[from(j)].components@.contains(a) && pieces[from(j)].nets@.contains(n));
    }
    assert forall|v: IslandVertex| #[trigger]
        belongs(topology, network, definitions, island, v) implies in_pieces(other, v) by {
        let i = choose|i: int| 0 <= i < pieces.len() && #[trigger] pieces[i].holds(v);
        assert(other[back(i)].holds(v));
    }
}

/// An island in one piece is repaired once it lists the components of the piece.
proof fn lemma_one_piece(
    topology: DerivedTopology,
    network: Network,
    definitions: DefinitionRegistry,
    broken: Set<u32>,
    island: u32,
    pieces: Seq<IslandPiece>,
)
    requires
        network_ok(network, definitions),
        topology.repairing(network, definitions, broken, island),
        is_island_split(topology, network, definitions, island, pieces),
        pieces.len() == 1,
        pieces[0].components@.len() > 0,
        topology.islands@[island].components@ == pieces[0].components@,
    ensures
        topology.consistent_except(network, definitions, broken.remove(island)),
        topology.island_cost(island) == pieces[0].cost(),
{
    broadcast use DenseIdStore::lemma_live;

    let piece = pieces[0];
    let left = broken.remove(island);
    assert forall|v: IslandVertex| #[trigger]
        belongs(topology, network, definitions, island, v) == piece.holds(v) by {
        if belongs(topology, network, definitions, island, v) {
            assert(in_pieces(pieces, v));
        }
    }
    assert(island != 0);
    assert(topology.net_labels_ok(left)) by {
        assert forall|n: u32| #[trigger] topology.nets@.contains_key(n) implies {
            &&& topology.net_label(n) != 0 ==> topology.islands@.contains_key(topology.net_label(n))
            &&& topology.net_label(n) == 0 ==> topology.nets@[n].terminals@.len() == 0
            &&& topology.net_label(n) != 0 && !left.contains(topology.net_label(n))
                ==> topology.nets@[n].terminals@.len() > 0
        } by {
            if topology.net_label(n) == island {
                assert(belongs(topology, network, definitions, island, IslandVertex::Net(n)));
                assert(piece.nets@.contains(n));
                lemma_piece_terminals(topology, network, definitions, island, pieces, 0, n);
            }
        }
    }
    assert(topology.components_ok(network, definitions, left)) by {
        assert forall|c: u64| #[trigger] is_component(network, definitions, c) implies {
            let label = topology.component_label(network, c);
            topology.islands@.contains_key(label) && topology.islands@[label].components@.contains(c)
        } by {
            if topology.component_label(network, c) == island {
                assert(belongs(topology, network, definitions, island, IslandVertex::Component(c)));
                assert(piece.components@.contains(c));
            }
        }
        assert forall|i: u32| #[trigger] topology.islands@.contains_key(i) implies {
            &&& !left.contains(i) ==> topology.islands@[i].components@.len() > 0
            &&& topology.islands@[i].components@.no_duplicates()
            &&& forall|c: u64| #[trigger]
                topology.islands@[i].components@.contains(c) ==> is_component(
                    network,
                    definitions,
                    c,
                ) && topology.component_label(network, c) == i
        } by {
            if i == island {
                assert(pieces[0].components@.no_duplicates());
                assert forall|c: u64| #[trigger] topology.islands@[i].components@.contains(
                    c,
                ) implies is_component(network, definitions, c) && topology.component_label(
                    network,
                    c,
                ) == i by {
                    assert(piece.holds(IslandVertex::Component(c)));
                }
            }
        }
    }
    assert(topology.islands_connected(network, definitions, left)) by {
        assert forall|a: u64, b: u64|
            #![trigger topology.component_label(network, a), topology.component_label(network, b)]
            is_component(network, definitions, a) && is_component(network, definitions, b)
                && topology.component_label(network, a) == topology.component_label(network, b)
                && !left.contains(topology.component_label(network, a)) implies connected(
            vertex_edge(network, definitions),
            Vertex::Component(a),
            Vertex::Component(b),
        ) by {
            if topology.component_label(network, a) == island {
                assert(belongs(topology, network, definitions, island, IslandVertex::Component(a)));
                assert(belongs(topology, network, definitions, island, IslandVertex::Component(b)));
                assert(pieces[0].components@.contains(a) && pieces[0].components@.contains(b));
            }
        }
    }
    assert forall|n: u32| #[trigger]
        piece.nets@.contains(n) <==> (topology.nets@.contains_key(n) && topology.net_label(n)
            == island) by {
        assert(belongs(topology, network, definitions, island, IslandVertex::Net(n)) == piece.holds(
            IslandVertex::Net(n),
        ));
    }
    lemma_piece_cost(topology, network, definitions, island, piece);
}

/// An island with nothing left in it can go.
proof fn lemma_no_piece(
    before: DerivedTopology,
    after: DerivedTopology,
    network: Network,
    definitions: DefinitionRegistry,
    broken: Set<u32>,
    island: u32,
)
    requires
        network_ok(network, definitions),
        before.repairing(network, definitions, broken, island),
        is_island_split(before, network, definitions, island, Seq::empty()),
        after.structure_ok(network, definitions),
        after.nets == before.nets,
        after.wire_net_map == before.wire_net_map,
        after.net_island_map == before.net_island_map,
        after.device_chunks == before.device_chunks,
        after.islands@ == before.islands@.remove(island),
    ensures
        after.consistent_except(network, definitions, broken.remove(island)),
{
    broadcast use DenseIdStore::lemma_live;

    let left = broken.remove(island);
    assert(island != 0);
    assert forall|v: IslandVertex| !#[trigger] belongs(before, network, definitions, island, v) by {
        if belongs(before, network, definitions, island, v) {
            assert(in_pieces(Seq::<IslandPiece>::empty(), v));
        }
    }
    assert forall|n: u32| #[trigger] before.nets@.contains_key(n) implies before.net_label(n)
        != island by {
        assert(!belongs(before, network, definitions, island, IslandVertex::Net(n)));
    }
    assert forall|c: u64| #[trigger] is_component(network, definitions, c) implies
        before.component_label(network, c) != island by {
        assert(!belongs(before, network, definitions, island, IslandVertex::Component(c)));
    }
    assert forall|n: u32| #[trigger] after.net_label(n) == before.net_label(n) by {}
    assert forall|w: u32| #[trigger] after.net_of(w) == before.net_of(w) by {}
    assert forall|c: u64| #[trigger]
        after.component_label(network, c) == before.component_label(network, c) by {}
    assert(after.wires_ok(network)) by {
        lemma_same_wires(before, after, network, definitions);
    }
    assert(after.nets_list(network, definitions)) by {
        lemma_same_wires(before, after, network, definitions);
    }
    assert(after.nets_connected(network)) by {
        lemma_same_wires(before, after, network, definitions);
    }
    assert(after.net_labels_ok(left));
    assert(after.components_ok(network, definitions, left)) by {
        assert forall|i: u32| #[trigger] after.islands@.contains_key(i) implies {
            &&& !left.contains(i) ==> after.islands@[i].components@.len() > 0
            &&& after.islands@[i].components@.no_duplicates()
            &&& forall|c: u64| #[trigger]
                after.islands@[i].components@.contains(c) ==> is_component(network, definitions, c)
                    && after.component_label(network, c) == i
        } by {
            assert(before.islands@.contains_key(i) && i != island);
            assert(after.islands@[i] == before.islands@[i]);
        }
    }
    assert(after.closed_ok(network, definitions)) by {
        assert forall|x: u64, y: u64| #[trigger] network.linked(x, y) implies {
            &&& after.label(network, definitions, x) == after.label(network, definitions, y)
            &&& !is_terminal_word(x) && !is_terminal_word(y) ==> after.net_of(word_id(x))
                == after.net_of(word_id(y))
        } by {
            assert(after.label(network, definitions, x) == before.label(network, definitions, x));
            assert(after.label(network, definitions, y) == before.label(network, definitions, y));
        }
    }
    assert(after.islands_connected(network, definitions, left)) by {
        assert forall|a: u64, b: u64|
            #![trigger after.component_label(network, a), after.component_label(network, b)]
            is_component(network, definitions, a) && is_component(network, definitions, b)
                && after.component_label(network, a) == after.component_label(network, b)
                && !left.contains(after.component_label(network, a)) implies connected(
            vertex_edge(network, definitions),
            Vertex::Component(a),
            Vertex::Component(b),
        ) by {
            assert(before.component_label(network, a) == before.component_label(network, b));
        }
    }
}

/// There are no more pieces with components than components in the island.
proof fn lemma_piece_count(
    topology: DerivedTopology,
    network: Network,
    definitions: DefinitionRegistry,
    island: u32,
    pieces: Seq<IslandPiece>,
    components: Seq<u64>,
)
    requires
        pieces_found(topology, network, definitions, island, pieces),
        forall|k: int| 0 <= k < pieces.len() ==> (#[trigger] pieces[k]).components@.len() > 0,
        forall|c: u64| #[trigger]
            is_component(network, definitions, c) && topology.component_label(network, c) == island
                ==> components.contains(c),
    ensures
        pieces.len() <= components.len(),
{
    let firsts = Seq::new(pieces.len(), |k: int| pieces[k].components@[0]);
    assert forall|k: int| 0 <= k < firsts.len() implies pieces[k].holds(
        IslandVertex::Component(#[trigger] firsts[k]),
    ) by {
        assert(pieces[k].components@.len() > 0);
        assert(pieces[k].components@.contains(pieces[k].components@[0]));
    }
    assert(firsts.no_duplicates()) by {
        assert forall|k: int, l: int|
            0 <= k < firsts.len() && 0 <= l < firsts.len() && k != l implies firsts[k]
            != firsts[l] by {
            assert(pieces[k].holds(IslandVertex::Component(firsts[k])));
            assert(pieces[l].holds(IslandVertex::Component(firsts[l])));
        }
    }
    assert forall|c: u64| #[trigger] firsts.contains(c) implies components.contains(c) by {
        let k = choose|k: int| 0 <= k < firsts.len() && firsts[k] == c;
        assert(pieces[k].holds(IslandVertex::Component(firsts[k])));
        assert(belongs(topology, network, definitions, island, IslandVertex::Component(c)));
        assert(is_component(network, definitions, c));
    }
    lemma_subset_bounded(firsts, components);
}

/// The list of the island that is taken apart does not matter.
proof fn lemma_relisted(
    before: DerivedTopology,
    after: DerivedTopology,
    network: Network,
    definitions: DefinitionRegistry,
    broken: Set<u32>,
    island: u32,
    pieces: Seq<IslandPiece>,
)
    requires
        network_ok(network, definitions),
        before.repairing(network, definitions, broken, island),
        is_island_split(before, network, definitions, island, pieces),
        after.invalidation.wf(),
        after.invalidation.gone() == before.invalidation.gone(),
        after.nets == before.nets,
        after.wire_net_map == before.wire_net_map,
        after.net_island_map == before.net_island_map,
        after.device_chunks == before.device_chunks,
        after.islands.wf(),
        after.islands.spec_slot_count() == before.islands.spec_slot_count(),
        after.islands@ == before.islands@.insert(island, after.islands@[island]),
    ensures
        after.repairing(network, definitions, broken, island),
        is_island_split(after, network, definitions, island, pieces),
{
    lemma_same_wires(before, after, network, definitions);
    assert forall|n: u32| #[trigger] after.net_label(n) == before.net_label(n) by {}
    assert forall|c: u64| #[trigger]
        after.component_label(network, c) == before.component_label(network, c) by {}
    assert(after.structure_ok(network, definitions));
    assert(after.net_labels_ok(broken));
    assert(after.components_ok_but(network, definitions, broken, island)) by {
        assert forall|i: u32| #[trigger] after.islands@.contains_key(i) && i != island implies {
            &&& !broken.contains(i) ==> after.islands@[i].components@.len() > 0
            &&& after.islands@[i].components@.no_duplicates()
            &&& forall|c: u64| #[trigger]
                after.islands@[i].components@.contains(c) ==> is_component(network, definitions, c)
                    && after.component_label(network, c) == i
        } by {
            assert(before.islands@.contains_key(i));
            assert(after.islands@[i] == before.islands@[i]);
        }
    }
    assert(after.closed_ok(network, definitions)) by {
        assert forall|x: u64, y: u64| #[trigger] network.linked(x, y) implies {
            &&& after.label(network, definitions, x) == after.label(network, definitions, y)
            &&& !is_terminal_word(x) && !is_terminal_word(y) ==> after.net_of(word_id(x))
                == after.net_of(word_id(y))
        } by {
            assert(after.label(network, definitions, x) == before.label(network, definitions, x));
            assert(after.label(network, definitions, y) == before.label(network, definitions, y));
        }
    }
    assert(after.islands_connected(network, definitions, broken)) by {
        assert forall|a: u64, b: u64|
            #![trigger after.component_label(network, a), after.component_label(network, b)]
            is_component(network, definitions, a) && is_component(network, definitions, b)
                && after.component_label(network, a) == after.component_label(network, b)
                && !broken.contains(after.component_label(network, a)) implies connected(
            vertex_edge(network, definitions),
            Vertex::Component(a),
            Vertex::Component(b),
        ) by {
            assert(before.component_label(network, a) == before.component_label(network, b));
        }
    }
    assert forall|v: IslandVertex| #[trigger]
        belongs(after, network, definitions, island, v) == belongs(
            before,
            network,
            definitions,
            island,
            v,
        ) by {}
    assert forall|k: int, v: IslandVertex, u: IslandVertex|
        0 <= k < pieces.len() && #[trigger] pieces[k].holds(v) && #[trigger] adjacent(
            after,
            network,
            definitions,
            v,
            u,
        ) implies pieces[k].holds(u) by {
        lemma_adjacent_same(before, after, network, definitions, v, u);
    }
    assert forall|k: int, a: u64, n: u32|
        0 <= k < pieces.len() && #[trigger] pieces[k].components@.contains(a)
            && #[trigger] pieces[k].nets@.contains(n) implies net_reached(
        after,
        network,
        definitions,
        Vertex::Component(a),
        n,
    ) by {
        assert(net_reached(before, network, definitions, Vertex::Component(a), n));
        assert forall|w: u32| #[trigger] after.nets@[n].wires@.contains(w) implies connected(
            vertex_edge(network, definitions),
            Vertex::Component(a),
            Vertex::Wire(w),
        ) by {
            assert(before.nets@[n].wires@.contains(w));
        }
    }
}

/// The identifiers that were given out between two counts.
pub open spec fn ids_between(from: int, to: int) -> Set<u32> {
    Set::new(|i: u32| from < i <= to)
}

impl DerivedTopology {
    /// What a repair does to the island and to the islands that were split off.
    pub(crate) open spec fn island_repaired(self, after: Self, island: u32) -> bool {
        let live = after.islands@.contains_key(island);
        &&& live <==> self.islands@[island].components@.len() > 0
        &&& live ==> after.islands@[island].revision == self.islands@[island].revision + 1
        &&& !live ==> after.islands@ == self.islands@.remove(island)
            && after.islands.spec_slot_count() == self.islands.spec_slot_count()
        &&& self.islands.spec_slot_count() <= after.islands.spec_slot_count()
            <= self.islands.spec_slot_count() + self.islands@[island].components@.len()
        &&& forall|i: u32| #[trigger]
            after.islands@.contains_key(i) && !self.islands@.contains_key(i) ==> {
                &&& i > self.islands.spec_slot_count()
                &&& after.islands@[i].revision == 0
                &&& after.island_cost(i) <= after.island_cost(island)
            }
        &&& self.invalidation.marked_more(
            after.invalidation,
            if live {
                ids_between(
                    self.islands.spec_slot_count(),
                    after.islands.spec_slot_count(),
                ).insert(island)
            } else {
                Set::empty()
            },
            if live {
                Set::empty()
            } else {
                set![island]
            },
        )
        &&& live ==> exists|parts: Seq<u32>, keep: int| #[trigger]
            parts_numbered(parts, keep, island, self.islands.spec_slot_count()) && parts.len()
                == after.islands.spec_slot_count() - self.islands.spec_slot_count() + 1
                && self.island_parts_ordered(after, island, parts, keep)
        &&& after.islands.dense_order() == if live {
            listed_between(
                self.islands.dense_order(),
                self.islands.spec_slot_count(),
                after.islands.spec_slot_count(),
            )
        } else {
            dropped(self.islands.dense_order(), island)
        }
        &&& after.invalidation.marks() == if live {
            self.invalidation.marks().dirtied(island).dirtied_between(
                self.islands.spec_slot_count(),
                after.islands.spec_slot_count(),
            )
        } else {
            self.invalidation.marks().retired(island)
        }
    }

    /// Whether the first of some pieces are islands with the next identifiers, in order.
    pub(crate) open spec fn pieces_moved(
        self,
        after: Self,
        pieces: Seq<IslandPiece>,
        count: int,
    ) -> bool {
        forall|k: int|
            0 <= k < count ==> after.is_piece(
                (self.islands.spec_slot_count() + 1 + k) as u32,
                #[trigger] pieces[k],
            )
    }

    /// Whether an island is one piece of another.
    pub(crate) open spec fn is_piece(self, island: u32, piece: IslandPiece) -> bool {
        &&& self.islands@.contains_key(island)
        &&& self.islands@[island].components@ == piece.components@
        &&& self.island_cost(island) == piece.cost()
    }

    /// Whether the parts of an island come in the order in which their first components came on its
    /// list, and the one at a place is the last of those that take the most to rewrite.
    pub(crate) open spec fn island_parts_ordered(
        self,
        after: Self,
        island: u32,
        parts: Seq<u32>,
        keep: int,
    ) -> bool {
        &&& forall|k: int|
            0 <= k < parts.len() ==> after.island_cost(#[trigger] parts[k]) <= after.island_cost(
                island,
            )
        &&& forall|k: int|
            keep < k < parts.len() ==> after.island_cost(#[trigger] parts[k]) < after.island_cost(
                island,
            )
        &&& forall|k: int, l: int|
            0 <= k < l < parts.len() ==> found_before(
                self.islands@[island].components@,
                after.islands@[#[trigger] parts[k]].components@,
                after.islands@[#[trigger] parts[l]].components@,
            )
    }

    /// Gives each piece of an island but one an identifier of its own.
    #[verifier::spinoff_prover]
    #[verifier::rlimit(40)]
    fn move_pieces(
        &mut self,
        definitions: &DefinitionRegistry,
        network: &Network,
        pieces: Vec<IslandPiece>,
        island_id: u32,
        Ghost(kept): Ghost<IslandPiece>,
        Ghost(broken): Ghost<Set<u32>>,
    )
        requires
            network_ok(*network, *definitions),
            old(self).repairing(*network, *definitions, broken, island_id),
            is_island_split(*old(self), *network, *definitions, island_id, pieces@.push(kept)),
            forall|k: int|
                0 <= k < pieces@.len() ==> (#[trigger] pieces@[k]).components@.len() > 0
                    && pieces@[k].cost() <= kept.cost(),
            old(self).islands.spec_slot_count() + pieces@.len() <= u32::MAX,
        ensures
            final(self).repairing(*network, *definitions, broken, island_id),
            is_island_split(*final(self), *network, *definitions, island_id, seq![kept]),
            old(self).repaired_elsewhere(*final(self), *network, *definitions, island_id),
            final(self).islands@[island_id] == old(self).islands@[island_id],
            final(self).islands.spec_slot_count() == old(self).islands.spec_slot_count()
                + pieces@.len(),
            forall|i: u32| #[trigger]
                final(self).islands@.contains_key(i) && !old(self).islands@.contains_key(i) ==> {
                    &&& i > old(self).islands.spec_slot_count()
                    &&& final(self).islands@[i].revision == 0
                    &&& final(self).island_cost(i) <= kept.cost()
                },
            old(self).pieces_moved(*final(self), pieces@, pieces@.len() as int),
            old(self).invalidation.marked_more(
                final(self).invalidation,
                ids_between(
                    old(self).islands.spec_slot_count(),
                    final(self).islands.spec_slot_count(),
                ),
                Set::empty(),
            ),
            final(self).islands.dense_order() == listed_between(
                old(self).islands.dense_order(),
                old(self).islands.spec_slot_count(),
                final(self).islands.spec_slot_count(),
            ),
            final(self).invalidation.marks() == old(self).invalidation.marks().dirtied_between(
                old(self).islands.spec_slot_count(),
                final(self).islands.spec_slot_count(),
            ),
    {
        let ghost rest = pieces@;
        let mut pieces = pieces;
        let ghost mut moved: int = 0;
        proof {
            assert(rest.skip(0) =~= rest);
        }
        while pieces.len() > 0
            invariant
                network_ok(*network, *definitions),
                self.repairing(*network, *definitions, broken, island_id),
                0 <= moved <= rest.len(),
                pieces@ == rest.skip(moved),
                is_island_split(*self, *network, *definitions, island_id, pieces@.push(kept)),
                forall|k: int|
                    0 <= k < rest.len() ==> (#[trigger] rest[k]).components@.len() > 0
                        && rest[k].cost() <= kept.cost(),
                old(self).islands.spec_slot_count() + rest.len() <= u32::MAX,
                old(self).repaired_elsewhere(*self, *network, *definitions, island_id),
                old(self).islands@.contains_key(island_id),
                self.islands@[island_id] == old(self).islands@[island_id],
                self.islands.spec_slot_count() == old(self).islands.spec_slot_count() + moved,
                forall|i: u32| #[trigger]
                    self.islands@.contains_key(i) && !old(self).islands@.contains_key(i) ==> {
                        &&& i > old(self).islands.spec_slot_count()
                        &&& self.islands@[i].revision == 0
                        &&& self.island_cost(i) <= kept.cost()
                    },
                old(self).pieces_moved(*self, rest, moved),
                old(self).invalidation.marked_more(
                    self.invalidation,
                    ids_between(
                        old(self).islands.spec_slot_count(),
                        self.islands.spec_slot_count(),
                    ),
                    Set::empty(),
                ),
                self.islands.dense_order() == listed_between(
                    old(self).islands.dense_order(),
                    old(self).islands.spec_slot_count(),
                    self.islands.spec_slot_count(),
                ),
                self.invalidation.marks() == old(self).invalidation.marks().dirtied_between(
                    old(self).islands.spec_slot_count(),
                    self.islands.spec_slot_count(),
                ),
            decreases pieces@.len(),
        {
            broadcast use DenseIdStore::lemma_live;

            let ghost before = *self;
            let ghost done = moved;
            assert(old(self).pieces_moved(before, rest, done));
            let ghost split = pieces@.push(kept);
            let piece = pieces.remove(0);
            let ghost moving = piece;
            let new_island_id: u32 = self.islands.slot_count() as u32 + 1;
            proof {
                assert(moving == rest[moved]);
                assert(split[0] == moving);
                assert forall|n: u32| #[trigger] moving.nets@.contains(n) implies
                    self.nets@.contains_key(n) && self.net_label(n) == island_id by {
                    assert(split[0].holds(IslandVertex::Net(n)));
                }
                assert forall|c: u64| #[trigger] moving.components@.contains(c) implies
                    is_component(*network, *definitions, c) && self.component_label(*network, c)
                        == island_id by {
                    assert(split[0].holds(IslandVertex::Component(c)));
                }
                assert(!before.islands@.contains_key(new_island_id));
                assert(!before.invalidation.gone().contains(new_island_id)) by {
                    if before.invalidation.gone().contains(new_island_id) {
                        assert(new_island_id <= before.islands.spec_slot_count());
                    }
                }
            }
            self.move_piece(definitions, network, &piece, new_island_id);
            let ghost relabelled = *self;
            self.islands.insert(IslandTopology { components: piece.components, revision: 0 });
            self.invalidation.mark_topology_dirty(IslandId::new(new_island_id));
            proof {
                moved = moved + 1;
                assert(rest.skip(moved - 1).remove(0) =~= rest.skip(moved));
                let next = pieces@.push(kept);
                assert(self.structure_ok(*network, *definitions));
                assert forall|c: u64| #[trigger] self.component_label(*network, c)
                    == relabelled.component_label(*network, c) by {}
                assert forall|n: u32| #[trigger] self.net_label(n) == relabelled.net_label(n) by {}
                assert(before.relabelled(*self, *network, *definitions, split[0], new_island_id));
                assert(self.islands@.dom() =~= before.islands@.dom().insert(new_island_id));
                lemma_piece_moved(
                    before,
                    *self,
                    *network,
                    *definitions,
                    broken,
                    island_id,
                    split,
                    0,
                    new_island_id,
                );
                lemma_pieces_left(
                    before,
                    *self,
                    *network,
                    *definitions,
                    island_id,
                    split,
                    0,
                    new_island_id,
                );
                let left = swap_removed(split, 0);
                let m = left.len() as int;
                lemma_pieces_permuted(
                    *self,
                    *network,
                    *definitions,
                    island_id,
                    left,
                    next,
                    |j: int|
                        if j == m - 1 {
                            0
                        } else {
                            j + 1
                        },
                    |i: int|
                        if i == 0 {
                            m - 1
                        } else {
                            i - 1
                        },
                );
                assert forall|i: u32| #[trigger]
                    self.islands@.contains_key(i) && !old(self).islands@.contains_key(i) implies {
                    &&& i > old(self).islands.spec_slot_count()
                    &&& self.islands@[i].revision == 0
                    &&& self.island_cost(i) <= kept.cost()
                } by {
                    if i == new_island_id {
                        assert forall|n: u32| #[trigger]
                            moving.nets@.contains(n) <==> (self.nets@.contains_key(n)
                                && self.net_label(n) == new_island_id) by {
                            assert(self.net_label(n) == if moving.nets@.contains(n) {
                                new_island_id
                            } else {
                                before.net_label(n)
                            });
                            if self.nets@.contains_key(n) && before.net_label(n) == new_island_id {
                                assert(before.islands@.contains_key(before.net_label(n)));
                            }
                        }
                        assert(split[0].nets@.no_duplicates());
                        lemma_piece_cost(*self, *network, *definitions, new_island_id, moving);
                        assert(self.island_cost(new_island_id) == moving.cost());
                    } else {
                        assert(before.islands@.contains_key(i));
                        assert(self.islands@[i] == before.islands@[i]);
                        assert forall|n: u32| #[trigger]
                            self.nets_labelled(i).contains(n) == before.nets_labelled(i).contains(
                                n,
                            ) by {
                            assert(self.net_label(n) == if moving.nets@.contains(n) {
                                new_island_id
                            } else {
                                before.net_label(n)
                            });
                        }
                        assert(self.nets_labelled(i) =~= before.nets_labelled(i));
                        assert(self.island_cost(i) == before.island_cost(i));
                    }
                }
                assert(old(self).pieces_moved(*self, rest, moved)) by {
                    assert forall|k: int| 0 <= k < moved implies self.is_piece(
                        (old(self).islands.spec_slot_count() + 1 + k) as u32,
                        #[trigger] rest[k],
                    ) by {
                        let id = (old(self).islands.spec_slot_count() + 1 + k) as u32;
                        if k < done {
                            assert(before.is_piece(id, rest[k]));
                            assert(before.islands@[id].components@ == rest[k].components@);
                            assert(self.islands@[id] == before.islands@[id]);
                            assert(self.nets_labelled(id) =~= before.nets_labelled(id)) by {
                                assert forall|n: u32| #[trigger]
                                    self.nets_labelled(id).contains(n) == before.nets_labelled(
                                        id,
                                    ).contains(n) by {
                                    assert(self.net_label(n) == if moving.nets@.contains(n) {
                                        new_island_id
                                    } else {
                                        before.net_label(n)
                                    });
                                }
                            }
                        } else {
                            assert(id == new_island_id);
                            assert(self.islands@.contains_key(new_island_id));
                            assert forall|n: u32| #[trigger]
                                moving.nets@.contains(n) <==> (self.nets@.contains_key(n)
                                    && self.net_label(n) == new_island_id) by {
                                assert(self.net_label(n) == if moving.nets@.contains(n) {
                                    new_island_id
                                } else {
                                    before.net_label(n)
                                });
                                if self.nets@.contains_key(n) && before.net_label(n)
                                    == new_island_id {
                                    assert(before.islands@.contains_key(before.net_label(n)));
                                }
                            }
                            assert(split[0].nets@.no_duplicates());
                            lemma_piece_cost(
                                *self,
                                *network,
                                *definitions,
                                new_island_id,
                                moving,
                            );
                        }
                    }
                }
                assert forall|i: u32|
                    #![trigger self.islands@[i]]
                    #![trigger self.islands@.contains_key(i)]
                    i != island_id && old(self).islands@.contains_key(i) implies
                    self.islands@.contains_key(i) && self.islands@[i] == old(self).islands@[i] by {
                    assert(before.islands@.contains_key(i));
                    assert(before.islands@[i] == old(self).islands@[i]);
                }
                assert forall|n: u32| old(self).net_label(n)
                    != island_id implies #[trigger] self.net_label(n) == old(self).net_label(
                    n,
                ) by {
                    assert(before.net_label(n) == old(self).net_label(n));
                }
                assert forall|n: u32| old(self).net_label(n) == island_id implies {
                    ||| #[trigger] self.net_label(n) == island_id
                    ||| self.net_label(n) == 0
                    ||| self.net_label(n) > old(self).islands.spec_slot_count()
                } by {
                    assert(self.net_label(n) == if moving.nets@.contains(n) {
                        new_island_id
                    } else {
                        before.net_label(n)
                    });
                }
                assert forall|c: u64|
                    is_component(*network, *definitions, c) && old(self).component_label(
                        *network,
                        c,
                    ) != island_id implies #[trigger] self.component_label(*network, c) == old(
                    self,
                ).component_label(*network, c) by {
                    assert(before.component_label(*network, c) == old(self).component_label(
                        *network,
                        c,
                    ));
                }
            }
        }
        proof {
            assert(pieces@ =~= Seq::empty());
            assert(pieces@.push(kept) =~= seq![kept]);
            assert(moved == rest.len());
        }
    }

    /// Takes nets that are not connected to any component out of an island.
    fn drop_bare_pieces(
        &mut self,
        definitions: &DefinitionRegistry,
        network: &Network,
        pieces: &mut Vec<IslandPiece>,
        island_id: u32,
        Ghost(broken): Ghost<Set<u32>>,
        Ghost(bare): Ghost<int>,
    )
        requires
            network_ok(*network, *definitions),
            old(self).repairing(*network, *definitions, broken, island_id),
            is_island_split(*old(self), *network, *definitions, island_id, old(pieces)@),
            pieces_in_order(old(pieces)@, old(self).islands@[island_id].components@, bare),
        ensures
            final(pieces)@ == old(pieces)@.take(bare),
            final(self).repairing(*network, *definitions, broken, island_id),
            is_island_split(*final(self), *network, *definitions, island_id, final(pieces)@),
            forall|k: int|
                0 <= k < final(pieces)@.len() ==> (#[trigger] final(pieces)@[k]).components@.len()
                    > 0,
            final(self).islands == old(self).islands,
            final(self).invalidation == old(self).invalidation,
            old(self).repaired_elsewhere(*final(self), *network, *definitions, island_id),
            forall|c: u64|
                is_component(*network, *definitions, c) ==> #[trigger] final(self).component_label(
                    *network,
                    c,
                ) == old(self).component_label(*network, c),
    {
        let mut index: usize = 0;
        while index < pieces.len()
            invariant
                network_ok(*network, *definitions),
                self.repairing(*network, *definitions, broken, island_id),
                is_island_split(*self, *network, *definitions, island_id, pieces@),
                index <= pieces@.len(),
                forall|k: int| 0 <= k < index ==> (#[trigger] pieces@[k]).components@.len() > 0,
                pieces_in_order(old(pieces)@, old(self).islands@[island_id].components@, bare),
                bare <= pieces@.len(),
                pieces@.take(bare) == old(pieces)@.take(bare),
                forall|k: int|
                    bare <= k < pieces@.len() ==> (#[trigger] pieces@[k]).components@.len() == 0,
                self.islands == old(self).islands,
                self.invalidation == old(self).invalidation,
                old(self).repaired_elsewhere(*self, *network, *definitions, island_id),
                forall|c: u64|
                    is_component(*network, *definitions, c) ==> #[trigger] self.component_label(
                        *network,
                        c,
                    ) == old(self).component_label(*network, c),
            decreases pieces@.len() - index,
        {
            broadcast use DenseIdStore::lemma_live;

            if pieces[index].components.len() != 0 {
                index = index + 1;
                continue;
            }
            let ghost before = *self;
            let ghost split = pieces@;
            let piece = pieces.swap_remove(index);
            proof {
                assert(bare <= index) by {
                    if index < bare {
                        assert(split.take(bare)[index as int] == old(pieces)@[index as int]);
                    }
                }
                assert(pieces@.take(bare) =~= split.take(bare));
                assert forall|n: u32| #[trigger] piece.nets@.contains(n) implies
                    self.nets@.contains_key(n) && self.net_label(n) == island_id by {
                    assert(split[index as int].holds(IslandVertex::Net(n)));
                }
            }
            self.move_piece(definitions, network, &piece, 0);
            proof {
                lemma_piece_moved(
                    before,
                    *self,
                    *network,
                    *definitions,
                    broken,
                    island_id,
                    split,
                    index as int,
                    0,
                );
                lemma_pieces_left(
                    before,
                    *self,
                    *network,
                    *definitions,
                    island_id,
                    split,
                    index as int,
                    0,
                );
                assert forall|n: u32| old(self).net_label(n)
                    != island_id implies #[trigger] self.net_label(n) == old(self).net_label(
                    n,
                ) by {
                    assert(before.net_label(n) == old(self).net_label(n));
                }
                assert forall|n: u32| old(self).net_label(n) == island_id implies {
                    ||| #[trigger] self.net_label(n) == island_id
                    ||| self.net_label(n) == 0
                    ||| self.net_label(n) > old(self).islands.spec_slot_count()
                } by {
                    assert(self.net_label(n) == if piece.nets@.contains(n) {
                        0
                    } else {
                        before.net_label(n)
                    });
                }
            }
        }
        proof {
            if pieces@.len() > bare {
                assert(pieces@[bare].components@.len() == 0);
            }
            assert(pieces@.take(bare) =~= pieces@);
        }
    }

    /// Splits an island that may have fallen apart. The part that would cost the most to move keeps
    /// the identifier, the others get new ones; nets without any component leave their island, and
    /// an island without components is retired.
    #[verifier::spinoff_prover]
    #[verifier::rlimit(40)]
    pub(crate) fn repair_island(
        &mut self,
        definitions: &DefinitionRegistry,
        network: &Network,
        scratch: &mut TraversalScratch,
        island_id: u32,
        affected_nets: &IdList,
        Ghost(broken): Ghost<Set<u32>>,
    )
        requires
            network_ok(*network, *definitions),
            old(self).consistent_except(*network, *definitions, broken),
            broken.contains(island_id),
            forall|i: u32| #[trigger]
                broken.contains(i) ==> i <= old(self).islands.spec_slot_count(),
            old(self).islands@.contains_key(island_id) ==> {
                &&& covers_bare_nets(*old(self), island_id, affected_nets@)
                &&& old(self).islands@[island_id].revision < u64::MAX
                &&& old(self).islands.spec_slot_count() + old(
                    self,
                ).islands@[island_id].components@.len() <= u32::MAX
            },
            old(scratch).wf(),
        ensures
            final(scratch).wf(),
            final(self).consistent_except(*network, *definitions, broken.remove(island_id)),
            old(self).repaired_elsewhere(*final(self), *network, *definitions, island_id),
            old(self).islands.spec_slot_count() <= final(self).islands.spec_slot_count(),
            !old(self).islands@.contains_key(island_id) ==> *final(self) == *old(self),
            old(self).islands@.contains_key(island_id) ==> old(self).island_repaired(
                *final(self),
                island_id,
            ),
    {
        broadcast use DenseIdStore::lemma_live;

        if !self.islands.has(island_id) {
            assert(self.net_labels_ok(broken.remove(island_id)));
            assert(self.components_ok(*network, *definitions, broken.remove(island_id)));
            assert(self.islands_connected(*network, *definitions, broken.remove(island_id))) by {
                assert forall|a: u64, b: u64|
                    #![trigger self.component_label(*network, a), self.component_label(*network, b)]
                    is_component(*network, *definitions, a) && is_component(
                        *network,
                        *definitions,
                        b,
                    ) && self.component_label(*network, a) == self.component_label(*network, b)
                        && !broken.remove(island_id).contains(
                        self.component_label(*network, a),
                    ) implies connected(
                    vertex_edge(*network, *definitions),
                    Vertex::Component(a),
                    Vertex::Component(b),
                ) by {
                    assert(self.islands@.contains_key(self.component_label(*network, a)));
                }
            }
            return ;
        }
        let old_revision: u64 = self.islands.get(island_id).unwrap().revision;
        let mut pieces = island_components(
            self,
            definitions,
            network,
            scratch,
            island_id,
            affected_nets,
            Ghost(broken),
        );
        assert(self.repairing(*network, *definitions, broken, island_id));
        let ghost found = pieces@;
        let ghost bare = choose|bare: int| #[trigger]
            pieces_in_order(found, old(self).islands@[island_id].components@, bare);
        self.drop_bare_pieces(
            definitions,
            network,
            &mut pieces,
            island_id,
            Ghost(broken),
            Ghost(bare),
        );
        proof {
            lemma_piece_count(
                *self,
                *network,
                *definitions,
                island_id,
                pieces@,
                old(self).islands@[island_id].components@,
            );
        }
        if pieces.len() == 0 {
            let ghost before = *self;
            proof {
                let listed = old(self).islands@[island_id].components@;
                if listed.len() > 0 {
                    assert(listed.contains(listed[0]));
                    assert(belongs(
                        before,
                        *network,
                        *definitions,
                        island_id,
                        IslandVertex::Component(listed[0]),
                    ));
                }
            }
            self.islands.remove(island_id);
            self.invalidation.mark_retired(IslandId::new(island_id));
            proof {
                assert(pieces@ =~= Seq::empty());
                assert(self.structure_ok(*network, *definitions));
                lemma_no_piece(before, *self, *network, *definitions, broken, island_id);
            }
            return ;
        }
        let keep: usize = costliest_piece(&pieces);
        let ghost all = pieces@;
        let kept = pieces.swap_remove(keep);
        let ghost kept_piece = kept;
        let ghost rest = pieces@;
        let ghost dropped = *self;
        proof {
            let whole = rest.push(kept_piece);
            let last = all.len() - 1;
            let swap = |j: int|
                if j == last {
                    keep as int
                } else if j == keep {
                    last
                } else {
                    j
                };
            lemma_pieces_permuted(
                *self,
                *network,
                *definitions,
                island_id,
                all,
                whole,
                swap,
                swap,
            );
            assert(rest.skip(0).push(kept_piece) =~= whole);
            assert(rest.skip(0) =~= rest);
        }
        let island = self.islands.get_mut(island_id);
        island.components = kept.components;
        island.revision = old_revision + 1;
        self.invalidation.mark_topology_dirty(IslandId::new(island_id));
        proof {
            lemma_relisted(
                dropped,
                *self,
                *network,
                *definitions,
                broken,
                island_id,
                rest.push(kept_piece),
            );
        }
        let ghost relisted = *self;
        self.move_pieces(
            definitions,
            network,
            pieces,
            island_id,
            Ghost(kept_piece),
            Ghost(broken),
        );
        proof {
            assert forall|i: u32|
                #![trigger self.islands@[i]]
                #![trigger self.islands@.contains_key(i)]
                i != island_id && old(self).islands@.contains_key(i) implies
                self.islands@.contains_key(i) && self.islands@[i] == old(self).islands@[i] by {
                assert(relisted.islands@.contains_key(i));
                assert(relisted.islands@[i] == old(self).islands@[i]);
            }
            assert forall|n: u32| old(self).net_label(n)
                != island_id implies #[trigger] self.net_label(n) == old(self).net_label(n) by {
                assert(relisted.net_label(n) == dropped.net_label(n));
            }
            assert forall|n: u32| old(self).net_label(n) == island_id implies {
                ||| #[trigger] self.net_label(n) == island_id
                ||| self.net_label(n) == 0
                ||| self.net_label(n) > old(self).islands.spec_slot_count()
            } by {
                assert(relisted.net_label(n) == dropped.net_label(n));
            }
            assert forall|c: u64|
                is_component(*network, *definitions, c) && old(self).component_label(*network, c)
                    != island_id implies #[trigger] self.component_label(*network, c) == old(
                self,
            ).component_label(*network, c) by {
                assert(relisted.component_label(*network, c) == dropped.component_label(
                    *network,
                    c,
                ));
            }
            lemma_one_piece(
                *self,
                *network,
                *definitions,
                broken,
                island_id,
                seq![kept_piece],
            );
            assert forall|k: int, l: int| 0 <= k < l < all.len() implies found_before(
                old(self).islands@[island_id].components@,
                (#[trigger] all[k]).components@,
                (#[trigger] all[l]).components@,
            ) by {
                assert(all[k] == found[k] && all[l] == found[l]);
            }
            lemma_island_parts(*old(self), relisted, *self, island_id, all, keep as int);
        }
    }
}

/// Pieces of an island are numbered in the order in which they were found.
proof fn lemma_island_parts(
    before: DerivedTopology,
    relisted: DerivedTopology,
    after: DerivedTopology,
    island: u32,
    all: Seq<IslandPiece>,
    keep: int,
)
    requires
        0 <= keep < all.len(),
        0 <= before.islands.spec_slot_count(),
        relisted.islands.spec_slot_count() == before.islands.spec_slot_count(),
        before.islands.spec_slot_count() + all.len() - 1 <= u32::MAX,
        relisted.pieces_moved(after, swap_removed(all, keep), all.len() - 1),
        after.islands@[island].components@ == all[keep].components@,
        after.island_cost(island) == all[keep].cost(),
        forall|k: int| 0 <= k < all.len() ==> (#[trigger] all[k]).cost() <= all[keep].cost(),
        forall|k: int| keep < k < all.len() ==> (#[trigger] all[k]).cost() < all[keep].cost(),
        forall|k: int, l: int|
            0 <= k < l < all.len() ==> found_before(
                before.islands@[island].components@,
                (#[trigger] all[k]).components@,
                (#[trigger] all[l]).components@,
            ),
    ensures
        exists|parts: Seq<u32>, kept: int| #[trigger]
            parts_numbered(parts, kept, island, before.islands.spec_slot_count()) && parts.len()
                == all.len() && before.island_parts_ordered(after, island, parts, kept),
{
    let base = before.islands.spec_slot_count();
    let rest = swap_removed(all, keep);
    let ids = part_ids(all.len() as int, keep, island, base);
    lemma_part_ids(all.len() as int, keep, island, base);
    assert forall|k: int| 0 <= k < ids.len() implies after.islands@[#[trigger] ids[k]].components@
        == all[k].components@ && after.island_cost(ids[k]) == all[k].cost() by {
        if k != keep {
            let r = if k == all.len() - 1 {
                keep
            } else {
                k
            };
            assert(rest[r] == all[k]);
            assert(ids[k] == base + 1 + r);
        }
    }
    assert(after.islands@[ids[keep]].components@ == all[keep].components@);
    assert forall|k: int, l: int| 0 <= k < l < ids.len() implies found_before(
        before.islands@[island].components@,
        after.islands@[#[trigger] ids[k]].components@,
        after.islands@[#[trigger] ids[l]].components@,
    ) by {
        assert(found_before(
            before.islands@[island].components@,
            all[k].components@,
            all[l].components@,
        ));
    }
    assert(before.island_parts_ordered(after, island, ids, keep));
}

} // verus!
