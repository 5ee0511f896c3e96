//! The derived topology of some of the connections of a network.

use crate::connection::{is_terminal_word, wire_word, word_id};
use crate::graph::{connected, lemma_connected_sym, lemma_connected_trans, lemma_connected_within};
use crate::island_traversal::lemma_linked_live;
use crate::network::Network;
use crate::registry::DefinitionRegistry;
use crate::topology::{
    component_of, is_component, network_ok, vertex_edge, vertex_of, wire_edge, DerivedTopology,
    Vertex,
};
use crate::topology_cuts::lemma_same_shape;
use vstd::prelude::*;

verus! {

/// All connections of a network.
pub(crate) open spec fn network_links(network: Network) -> spec_fn(u64, u64) -> bool {
    |x: u64, y: u64| network.linked(x, y)
}

/// Some connections and one more.
pub(crate) open spec fn with_link(links: spec_fn(u64, u64) -> bool, a: u64, b: u64) -> spec_fn(
    u64,
    u64,
) -> bool {
    |x: u64, y: u64| links(x, y) || (x == a && y == b) || (x == b && y == a)
}

/// Whether these are connections of the network, each with both its ends.
pub(crate) open spec fn links_of(network: Network, links: spec_fn(u64, u64) -> bool) -> bool {
    forall|x: u64, y: u64| #[trigger] links(x, y) ==> network.linked(x, y) && links(y, x)
}

/// Whether one of the connections leads from one wire or component to another.
pub(crate) open spec fn vertex_joined(
    network: Network,
    definitions: DefinitionRegistry,
    links: spec_fn(u64, u64) -> bool,
    a: Vertex,
    b: Vertex,
) -> bool {
    exists|x: u64, y: u64| #[trigger]
        links(x, y) && vertex_of(network, definitions, x) == a && vertex_of(
            network,
            definitions,
            y,
        ) == b
}

/// The graph of wires and components that the connections span.
pub(crate) open spec fn joint(
    network: Network,
    definitions: DefinitionRegistry,
    links: spec_fn(u64, u64) -> bool,
) -> spec_fn(Vertex, Vertex) -> bool {
    |a: Vertex, b: Vertex| vertex_joined(network, definitions, links, a, b)
}

/// The graph of wires that the connections span.
pub(crate) open spec fn wire_joint(links: spec_fn(u64, u64) -> bool) -> spec_fn(u32, u32) -> bool {
    |a: u32, b: u32| links(wire_word(a), wire_word(b))
}

impl DerivedTopology {
    /// Whether a packed terminal is attached to a wire of a net.
    pub(crate) open spec fn attached_by(
        self,
        links: spec_fn(u64, u64) -> bool,
        terminal: u64,
        net: u32,
    ) -> bool {
        is_terminal_word(terminal) && exists|y: u64| #[trigger]
            links(terminal, y) && !is_terminal_word(y) && self.net_of(word_id(y)) == net
    }

    pub(crate) open spec fn net_lists_by(
        self,
        network: Network,
        definitions: DefinitionRegistry,
        links: spec_fn(u64, u64) -> bool,
        net: u32,
    ) -> bool {
        let model = self.nets@[net];
        &&& model.terminals@.no_duplicates()
        &&& model.terminals@.len() == model.terminal_components@.len()
        &&& forall|i: int|
            0 <= i < model.terminals@.len() ==> #[trigger] model.terminal_components@[i]
                == component_of(network, definitions, model.terminals@[i])
        &&& forall|x: u64| #[trigger]
            model.terminals@.contains(x) <==> self.attached_by(links, x, net)
    }

    pub(crate) open spec fn nets_list_by(
        self,
        network: Network,
        definitions: DefinitionRegistry,
        links: spec_fn(u64, u64) -> bool,
    ) -> bool {
        forall|n: u32| #[trigger]
            self.nets@.contains_key(n) ==> self.net_lists_by(network, definitions, links, n)
    }

    pub(crate) open spec fn closed_by(
        self,
        network: Network,
        definitions: DefinitionRegistry,
        links: spec_fn(u64, u64) -> bool,
    ) -> bool {
        forall|x: u64, y: u64| #[trigger]
            links(x, y) ==> {
                &&& self.label(network, definitions, x) == self.label(network, definitions, y)
                &&& !is_terminal_word(x) && !is_terminal_word(y) ==> self.net_of(word_id(x))
                    == self.net_of(word_id(y))
            }
    }

    pub(crate) open spec fn nets_joined(
        self,
        network: Network,
        links: spec_fn(u64, u64) -> bool,
    ) -> bool {
        forall|a: u32, b: u32|
            #![trigger self.net_of(a), self.net_of(b)]
            network.wire_live(a) && network.wire_live(b) && self.net_of(a) == self.net_of(b)
                ==> connected(wire_joint(links), a, b)
    }

    pub(crate) open spec fn islands_joined(
        self,
        network: Network,
        definitions: DefinitionRegistry,
        links: spec_fn(u64, u64) -> bool,
    ) -> bool {
        forall|a: u64, b: u64|
            #![trigger self.component_label(network, a), self.component_label(network, b)]
            is_component(network, definitions, a) && is_component(network, definitions, b)
                && self.component_label(network, a) == self.component_label(network, b)
                ==> connected(
                joint(network, definitions, links),
                Vertex::Component(a),
                Vertex::Component(b),
            )
    }

    /// The topology is the one that some connections of a network give.
    pub(crate) open spec fn joined(
        self,
        network: Network,
        definitions: DefinitionRegistry,
        links: spec_fn(u64, u64) -> bool,
    ) -> bool {
        &&& self.structure_ok(network, definitions)
        &&& self.wires_ok(network)
        &&& self.nets_list_by(network, definitions, links)
        &&& self.net_labels_ok(Set::empty())
        &&& self.components_ok(network, definitions, Set::empty())
        &&& self.closed_by(network, definitions, links)
        &&& self.nets_joined(network, links)
        &&& self.islands_joined(network, definitions, links)
    }
}

/// What is connected stays so when connections are added.
pub(crate) proof fn lemma_joint_more(
    network: Network,
    definitions: DefinitionRegistry,
    links: spec_fn(u64, u64) -> bool,
    more: spec_fn(u64, u64) -> bool,
)
    requires
        forall|x: u64, y: u64| #[trigger] links(x, y) ==> more(x, y),
    ensures
        forall|a: Vertex, b: Vertex| #[trigger]
            connected(joint(network, definitions, links), a, b) ==> connected(
                joint(network, definitions, more),
                a,
                b,
            ),
        forall|a: u32, b: u32| #[trigger]
            connected(wire_joint(links), a, b) ==> connected(wire_joint(more), a, b),
{
    let all = |v: Vertex| true;
    let all_wires = |w: u32| true;
    assert forall|a: Vertex, b: Vertex| all(a) && #[trigger]
        joint(network, definitions, links)(a, b) implies all(b) && joint(
        network,
        definitions,
        more,
    )(a, b) by {
        let (x, y) = choose|x: u64, y: u64| #[trigger]
            links(x, y) && vertex_of(network, definitions, x) == a && vertex_of(
                network,
                definitions,
                y,
            ) == b;
        assert(more(x, y));
    }
    assert forall|a: Vertex, b: Vertex| #[trigger]
        connected(joint(network, definitions, links), a, b) implies connected(
        joint(network, definitions, more),
        a,
        b,
    ) by {
        lemma_connected_within(
            joint(network, definitions, links),
            joint(network, definitions, more),
            all,
            a,
            b,
        );
    }
    assert forall|a: u32, b: u32| all_wires(a) && #[trigger] wire_joint(links)(a, b) implies
        all_wires(b) && wire_joint(more)(a, b) by {
        assert(links(wire_word(a), wire_word(b)));
    }
    assert forall|a: u32, b: u32| #[trigger] connected(wire_joint(links), a, b) implies connected(
        wire_joint(more),
        a,
        b,
    ) by {
        lemma_connected_within(wire_joint(links), wire_joint(more), all_wires, a, b);
    }
}

/// All connections give the topology of the network.
pub(crate) proof fn lemma_joined_all(
    topology: DerivedTopology,
    network: Network,
    definitions: DefinitionRegistry,
)
    ensures
        topology.joined(network, definitions, network_links(network))
            == topology.consistent_except(network, definitions, Set::empty()),
{
    let links = network_links(network);
    assert forall|x: u64, n: u32| #[trigger]
        topology.attached_by(links, x, n) == topology.attached(network, x, n) by {
        if topology.attached_by(links, x, n) {
            let y = choose|y: u64| #[trigger]
                links(x, y) && !is_terminal_word(y) && topology.net_of(word_id(y)) == n;
            assert(network.linked(x, y));
        }
        if topology.attached(network, x, n) {
            let y = choose|y: u64| #[trigger]
                network.linked(x, y) && !is_terminal_word(y) && topology.net_of(word_id(y)) == n;
            assert(links(x, y));
        }
    }
    assert forall|n: u32| #[trigger]
        topology.net_lists_by(network, definitions, links, n) == topology.net_lists(
            network,
            definitions,
            n,
        ) by {
        if topology.net_lists_by(network, definitions, links, n) {
            assert forall|x: u64| #[trigger] topology.nets@[n].terminals@.contains(x)
                <==> topology.attached(network, x, n) by {
                assert(topology.attached_by(links, x, n) == topology.attached(network, x, n));
            }
        }
        if topology.net_lists(network, definitions, n) {
            assert forall|x: u64| #[trigger] topology.nets@[n].terminals@.contains(x)
                <==> topology.attached_by(links, x, n) by {
                assert(topology.attached_by(links, x, n) == topology.attached(network, x, n));
            }
        }
    }
    assert(topology.nets_list_by(network, definitions, links) == topology.nets_list(
        network,
        definitions,
    )) by {
        if topology.nets_list(network, definitions) {
            assert forall|n: u32| #[trigger] topology.nets@.contains_key(n) implies
                topology.net_lists_by(network, definitions, links, n) by {
                assert(topology.net_lists(network, definitions, n));
            }
        }
        if topology.nets_list_by(network, definitions, links) {
            assert forall|n: u32| #[trigger] topology.nets@.contains_key(n) implies
                topology.net_lists(network, definitions, n) by {
                assert(topology.net_lists_by(network, definitions, links, n));
            }
        }
    }
    assert(topology.closed_by(network, definitions, links) == topology.closed_ok(
        network,
        definitions,
    )) by {
        if topology.closed_by(network, definitions, links) {
            assert forall|x: u64, y: u64| #[trigger] network.linked(x, y) implies {
                &&& topology.label(network, definitions, x) == topology.label(
                    network,
                    definitions,
                    y,
                )
                &&& !is_terminal_word(x) && !is_terminal_word(y) ==> topology.net_of(word_id(x))
                    == topology.net_of(word_id(y))
            } by {
                assert(links(x, y));
            }
        }
        if topology.closed_ok(network, definitions) {
            assert forall|x: u64, y: u64| #[trigger] links(x, y) implies {
                &&& topology.label(network, definitions, x) == topology.label(
                    network,
                    definitions,
                    y,
                )
                &&& !is_terminal_word(x) && !is_terminal_word(y) ==> topology.net_of(word_id(x))
                    == topology.net_of(word_id(y))
            } by {
                assert(network.linked(x, y));
            }
        }
    }
    assert(wire_joint(links) =~= wire_edge(network));
    assert forall|a: Vertex, b: Vertex| #[trigger]
        joint(network, definitions, links)(a, b) == vertex_edge(network, definitions)(a, b) by {
        if joint(network, definitions, links)(a, b) {
            let (x, y) = choose|x: u64, y: u64| #[trigger]
                links(x, y) && vertex_of(network, definitions, x) == a && vertex_of(
                    network,
                    definitions,
                    y,
                ) == b;
            assert(network.linked(x, y));
        }
        if vertex_edge(network, definitions)(a, b) {
            let (x, y) = choose|x: u64, y: u64| #[trigger]
                network.linked(x, y) && vertex_of(network, definitions, x) == a && vertex_of(
                    network,
                    definitions,
                    y,
                ) == b;
            assert(links(x, y));
        }
    }
    assert(joint(network, definitions, links) =~= vertex_edge(network, definitions));
}

/// The topology of a network is that of the same connections among those of another network with
/// the same wires and devices.
pub(crate) proof fn lemma_joined_before(
    topology: DerivedTopology,
    before: Network,
    after: Network,
    definitions: DefinitionRegistry,
)
    requires
        network_ok(before, definitions),
        network_ok(after, definitions),
        before.same_devices(after),
        before.same_wires(after),
        topology.consistent_except(before, definitions, Set::empty()),
    ensures
        topology.joined(after, definitions, network_links(before)),
{
    let links = network_links(before);
    lemma_joined_all(topology, before, definitions);
    lemma_same_shape(topology, before, after, definitions);
    assert forall|x: u64, y: u64| #[trigger] links(x, y) implies {
        &&& vertex_of(after, definitions, x) == vertex_of(before, definitions, x)
        &&& vertex_of(after, definitions, y) == vertex_of(before, definitions, y)
        &&& topology.label(after, definitions, x) == topology.label(before, definitions, x)
        &&& topology.label(after, definitions, y) == topology.label(before, definitions, y)
        &&& is_terminal_word(x) ==> component_of(after, definitions, x) == component_of(
            before,
            definitions,
            x,
        )
    } by {
        assert(before.linked(x, y) && before.linked(y, x));
        lemma_linked_live(before, definitions, x, y);
        lemma_linked_live(before, definitions, y, x);
        assert(after.device_live(word_id(x)) == before.device_live(word_id(x))) by {
            assert(after.arena().resident(word_id(x)) == before.arena().resident(word_id(x)));
        }
        assert(after.device_live(word_id(y)) == before.device_live(word_id(y))) by {
            assert(after.arena().resident(word_id(y)) == before.arena().resident(word_id(y)));
        }
        if is_terminal_word(x) {
            assert(component_of(after, definitions, x) == component_of(before, definitions, x));
            assert(is_component(before, definitions, component_of(before, definitions, x)));
        }
        if is_terminal_word(y) {
            assert(component_of(after, definitions, y) == component_of(before, definitions, y));
            assert(is_component(before, definitions, component_of(before, definitions, y)));
        }
    }
    assert(topology.wires_ok(after)) by {
        assert forall|w: u32| !after.wire_live(w) implies #[trigger] topology.net_of(w) == 0 by {
            assert(!before.wire_live(w));
        }
        assert forall|n: u32| #[trigger] topology.nets@.contains_key(n) implies {
            &&& topology.nets@[n].wires@.len() > 0
            &&& topology.nets@[n].wires@.no_duplicates()
            &&& forall|w: u32| #[trigger]
                topology.nets@[n].wires@.contains(w) ==> after.wire_live(w) && topology.net_of(w)
                    == n
        } by {
            assert forall|w: u32| #[trigger] topology.nets@[n].wires@.contains(w) implies
                after.wire_live(w) && topology.net_of(w) == n by {
                assert(before.wire_live(w));
            }
        }
    }
    assert(topology.nets_list_by(after, definitions, links)) by {
        assert forall|n: u32| #[trigger] topology.nets@.contains_key(n) implies
            topology.net_lists_by(after, definitions, links, n) by {
            assert(topology.net_lists_by(before, definitions, links, n));
            let model = topology.nets@[n];
            assert forall|i: int|
                0 <= i < model.terminals@.len() implies #[trigger] model.terminal_components@[i]
                == component_of(after, definitions, model.terminals@[i]) by {
                let x = model.terminals@[i];
                assert(model.terminals@.contains(x));
                assert(topology.attached_by(links, x, n));
                let y = choose|y: u64| #[trigger]
                    links(x, y) && !is_terminal_word(y) && topology.net_of(word_id(y)) == n;
                assert(links(x, y));
            }
        }
    }
    assert(topology.components_ok(after, definitions, Set::empty())) by {
        assert forall|c: u64| #[trigger] is_component(after, definitions, c) implies {
            let label = topology.component_label(after, c);
            topology.islands@.contains_key(label) && topology.islands@[label].components@.contains(c)
        } by {
            assert(is_component(before, definitions, c));
        }
        assert forall|i: u32| #[trigger] topology.islands@.contains_key(i) implies {
            &&& topology.islands@[i].components@.len() > 0
            &&& topology.islands@[i].components@.no_duplicates()
            &&& forall|c: u64| #[trigger]
                topology.islands@[i].components@.contains(c) ==> is_component(
                    after,
                    definitions,
                    c,
                ) && topology.component_label(after, c) == i
        } by {
            assert forall|c: u64| #[trigger] topology.islands@[i].components@.contains(c) implies
                is_component(after, definitions, c) && topology.component_label(after, c) == i by {
                assert(is_component(before, definitions, c));
            }
        }
    }
    assert(topology.closed_by(after, definitions, links)) by {
        assert forall|x: u64, y: u64| #[trigger] links(x, y) implies {
            &&& topology.label(after, definitions, x) == topology.label(after, definitions, y)
            &&& !is_terminal_word(x) && !is_terminal_word(y) ==> topology.net_of(word_id(x))
                == topology.net_of(word_id(y))
        } by {
            assert(topology.label(before, definitions, x) == topology.label(
                before,
                definitions,
                y,
            ));
        }
    }
    assert(topology.nets_joined(after, links)) by {
        assert forall|a: u32, b: u32|
            #![trigger topology.net_of(a), topology.net_of(b)]
            after.wire_live(a) && after.wire_live(b) && topology.net_of(a) == topology.net_of(
                b,
            ) implies connected(wire_joint(links), a, b) by {
            assert(before.wire_live(a) && before.wire_live(b));
        }
    }
    assert forall|a: Vertex, b: Vertex| #[trigger]
        joint(before, definitions, links)(a, b) == joint(after, definitions, links)(a, b) by {
        if joint(before, definitions, links)(a, b) {
            let (x, y) = choose|x: u64, y: u64| #[trigger]
                links(x, y) && vertex_of(before, definitions, x) == a && vertex_of(
                    before,
                    definitions,
                    y,
                ) == b;
            assert(links(x, y));
        }
        if joint(after, definitions, links)(a, b) {
            let (x, y) = choose|x: u64, y: u64| #[trigger]
                links(x, y) && vertex_of(after, definitions, x) == a && vertex_of(
                    after,
                    definitions,
                    y,
                ) == b;
            assert(links(x, y));
        }
    }
    assert(joint(before, definitions, links) =~= joint(after, definitions, links));
    assert(topology.islands_joined(after, definitions, links)) by {
        assert forall|a: u64, b: u64|
            #![trigger topology.component_label(after, a), topology.component_label(after, b)]
            is_component(after, definitions, a) && is_component(after, definitions, b)
                && topology.component_label(after, a) == topology.component_label(
                after,
                b,
            ) implies connected(
            joint(after, definitions, links),
            Vertex::Component(a),
            Vertex::Component(b),
        ) by {
            assert(is_component(before, definitions, a) && is_component(before, definitions, b));
            assert(topology.component_label(before, a) == topology.component_label(before, b));
        }
    }
}

/// Connections lead both ways.
pub(crate) proof fn lemma_joint_sym(
    network: Network,
    definitions: DefinitionRegistry,
    links: spec_fn(u64, u64) -> bool,
)
    requires
        forall|x: u64, y: u64| #[trigger] links(x, y) ==> links(y, x),
    ensures
        forall|a: Vertex, b: Vertex| #[trigger]
            joint(network, definitions, links)(a, b) ==> joint(network, definitions, links)(b, a),
        forall|a: u32, b: u32| #[trigger]
            wire_joint(links)(a, b) ==> wire_joint(links)(b, a),
{
    assert forall|a: Vertex, b: Vertex| #[trigger]
        joint(network, definitions, links)(a, b) implies joint(network, definitions, links)(b, a) by {
        let (x, y) = choose|x: u64, y: u64| #[trigger]
            links(x, y) && vertex_of(network, definitions, x) == a && vertex_of(
                network,
                definitions,
                y,
            ) == b;
        assert(links(y, x));
    }
    assert forall|a: u32, b: u32| #[trigger] wire_joint(links)(a, b) implies wire_joint(links)(
        b,
        a,
    ) by {
        assert(links(wire_word(a), wire_word(b)));
    }
}

/// Islands that a new connection joins are connected.
pub(crate) proof fn lemma_islands_joined(
    t0: DerivedTopology,
    t1: DerivedTopology,
    network: Network,
    definitions: DefinitionRegistry,
    links: spec_fn(u64, u64) -> bool,
    more: spec_fn(u64, u64) -> bool,
    src: u32,
    dst: u32,
    c_src: u64,
    c_dst: u64,
)
    requires
        t0.islands_joined(network, definitions, links),
        forall|x: u64, y: u64| #[trigger] links(x, y) ==> more(x, y),
        forall|x: u64, y: u64| #[trigger] more(x, y) ==> more(y, x),
        forall|c: u64| #[trigger]
            is_component(network, definitions, c) ==> t1.component_label(network, c) == if
                t0.component_label(network, c) == src {
                dst
            } else {
                t0.component_label(network, c)
            },
        is_component(network, definitions, c_src),
        is_component(network, definitions, c_dst),
        t0.component_label(network, c_src) == src,
        t0.component_label(network, c_dst) == dst,
        connected(
            joint(network, definitions, more),
            Vertex::Component(c_src),
            Vertex::Component(c_dst),
        ),
    ensures
        t1.islands_joined(network, definitions, more),
{
    let edge = joint(network, definitions, more);
    lemma_joint_more(network, definitions, links, more);
    lemma_joint_sym(network, definitions, more);
    assert forall|a: u64, b: u64|
        #![trigger t1.component_label(network, a), t1.component_label(network, b)]
        is_component(network, definitions, a) && is_component(network, definitions, b)
            && t1.component_label(network, a) == t1.component_label(network, b) implies connected(
        edge,
        Vertex::Component(a),
        Vertex::Component(b),
    ) by {
        let la = t0.component_label(network, a);
        let lb = t0.component_label(network, b);
        if la == lb {
            assert(connected(
                joint(network, definitions, links),
                Vertex::Component(a),
                Vertex::Component(b),
            ));
        } else {
            let (s, d) = if la == src {
                (a, b)
            } else {
                (b, a)
            };
            assert(t0.component_label(network, s) == src && t0.component_label(network, d) == dst);
            assert(connected(
                joint(network, definitions, links),
                Vertex::Component(s),
                Vertex::Component(c_src),
            ));
            assert(connected(
                joint(network, definitions, links),
                Vertex::Component(c_dst),
                Vertex::Component(d),
            ));
            lemma_connected_trans(
                edge,
                Vertex::Component(s),
                Vertex::Component(c_src),
                Vertex::Component(c_dst),
            );
            lemma_connected_trans(
                edge,
                Vertex::Component(s),
                Vertex::Component(c_dst),
                Vertex::Component(d),
            );
            lemma_connected_sym(edge, Vertex::Component(s), Vertex::Component(d));
        }
    }
}

} // verus!
