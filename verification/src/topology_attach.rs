//! Following the network when connections are added to it.

use crate::connection::{
    group_words, is_terminal_word, lemma_component_word, terminal_word, wire_word, word_id,
};
use crate::dense_store::DenseIdStore;
use crate::ids::{DeviceId, TerminalId};
use crate::island_traversal::lemma_linked_live;
use crate::network::Network;
use crate::registry::DefinitionRegistry;
use crate::topology::{component_of, is_component, network_ok, terminal_component, DerivedTopology};
use crate::topology_joins::moved;
use crate::topology_links::{links_of, with_link};
use crate::topology_wiring::{lemma_components_joined, lemma_terminal_joined, lemma_touched};
use vstd::prelude::*;

verus! {

impl DerivedTopology {
    /// What attaching a terminal does to islands and marks: an island without this net takes it in,
    /// an island with it gets a new revision, two islands are joined.
    pub(crate) open spec fn islands_after_attach(
        self,
        after: Self,
        network: Network,
        definitions: DefinitionRegistry,
        net: u32,
        component: u64,
    ) -> bool {
        let island = self.component_label(network, component);
        let old = self.net_label(net);
        &&& after.nets@.dom() == self.nets@.dom()
        &&& forall|n: u32|
            self.nets@.contains_key(n) && n != net ==> #[trigger] after.nets@[n] == self.nets@[n]
        &&& after.nets@[net].wires == self.nets@[net].wires
        &&& after.nets@[net].terminal_components@ == self.nets@[net].terminal_components@.push(
            component,
        )
        &&& if old == 0 || old == island {
            &&& self.bumped(after, island)
            &&& forall|n: u32| #[trigger]
                after.net_label(n) == if n == net {
                    island
                } else {
                    self.net_label(n)
                }
            &&& forall|c: u64|
                is_component(network, definitions, c) ==> #[trigger] after.component_label(
                    network,
                    c,
                ) == self.component_label(network, c)
        } else {
            let (dst, src) = self.merge_target(old, island);
            &&& self.islands_after_join(after, network, definitions, old, island)
            &&& self.labels_moved(after, network, definitions, src, dst)
        }
    }

    /// Whether what was in one island is now in another.
    pub(crate) open spec fn labels_moved(
        self,
        after: Self,
        network: Network,
        definitions: DefinitionRegistry,
        src: u32,
        dst: u32,
    ) -> bool {
        &&& forall|n: u32| #[trigger] after.net_label(n) == moved(self.net_label(n), src, dst)
        &&& forall|c: u64|
            is_component(network, definitions, c) ==> #[trigger] after.component_label(network, c)
                == moved(self.component_label(network, c), src, dst)
    }

    /// Attaches a terminal to the net of a wire, and joins their islands.
    #[verifier::spinoff_prover]
    #[verifier::rlimit(40)]
    pub(crate) fn join_terminal(
        &mut self,
        definitions: &DefinitionRegistry,
        network: &Network,
        wire: u32,
        device: DeviceId,
        terminal: TerminalId,
        Ghost(links): Ghost<spec_fn(u64, u64) -> bool>,
    )
        requires
            network_ok(*network, *definitions),
            links_of(*network, links),
            old(self).joined(*network, *definitions, links),
            terminal.value() < 0x8000_0000,
            network.linked(wire_word(wire), terminal_word(device.value(), terminal.value())),
            forall|y: u64| !#[trigger] links(terminal_word(device.value(), terminal.value()), y),
            forall|i: u32| #[trigger]
                old(self).islands@.contains_key(i) ==> old(self).islands@[i].revision < u64::MAX,
        ensures
            final(self).joined(
                *network,
                *definitions,
                with_link(
                    links,
                    wire_word(wire),
                    terminal_word(device.value(), terminal.value()),
                ),
            ),
            final(self).wire_net_map == old(self).wire_net_map,
            old(self).islands_after_attach(
                *final(self),
                *network,
                *definitions,
                old(self).net_of(wire),
                component_of(
                    *network,
                    *definitions,
                    terminal_word(device.value(), terminal.value()),
                ),
            ),
    {
        broadcast use {group_words, lemma_component_word, DenseIdStore::lemma_live};

        let ghost t0 = *self;
        let ghost ww = wire_word(wire);
        let ghost x = terminal_word(device.value(), terminal.value());
        let number: u32 = device.get();
        proof {
            assert(network.linked(x, ww));
            lemma_linked_live(*network, *definitions, ww, x);
            lemma_linked_live(*network, *definitions, x, ww);
            assert(network.wire_live(wire));
        }
        let net_id: u32 = self.wire_net_raw(wire);
        let component: u64 = terminal_component(definitions, network, device, terminal).to_word();
        let component_island: u32 = self.component_island_raw(definitions, network, component);
        proof {
            assert(component == component_of(*network, *definitions, x));
            assert(self.nets@.contains_key(net_id));
            assert(self.islands@.contains_key(component_island));
        }
        let ghost terminals = self.nets@[net_id].terminals@.push(x);
        let net = self.nets.get_mut(net_id);
        net.terminal_components.push(component);
        net.terminals = Ghost(terminals);
        let ghost listed = *self;
        proof {
            assert(listed.nets@.dom() =~= t0.nets@.dom());
            assert(listed.structure_ok(*network, *definitions));
            assert forall|w: u32| #[trigger] listed.net_of(w) == t0.net_of(w) by {}
            assert forall|n: u32| #[trigger] listed.net_label(n) == t0.net_label(n) by {}
            assert forall|c: u64| #[trigger]
                listed.component_label(*network, c) == t0.component_label(*network, c) by {}
            assert(listed.components_ok(*network, *definitions, Set::empty()));
            assert(listed.wires_ok(*network)) by {
                assert forall|n: u32| #[trigger] listed.nets@.contains_key(n) implies {
                    &&& listed.nets@[n].wires@.len() > 0
                    &&& listed.nets@[n].wires@.no_duplicates()
                    &&& forall|v: u32| #[trigger]
                        listed.nets@[n].wires@.contains(v) ==> network.wire_live(v)
                            && listed.net_of(v) == n
                } by {
                    assert(t0.nets@.contains_key(n));
                    assert forall|v: u32| #[trigger] listed.nets@[n].wires@.contains(v) implies
                        network.wire_live(v) && listed.net_of(v) == n by {
                        assert(t0.nets@[n].wires@.contains(v));
                    }
                }
                assert forall|w: u32| #[trigger] network.wire_live(w) implies
                    listed.nets@.contains_key(listed.net_of(w))
                    && listed.nets@[listed.net_of(w)].wires@.contains(w) by {
                    assert(t0.nets@[t0.net_of(w)].wires@.contains(w));
                }
            }
        }
        let net_island: u32 = self.net_island_map[(net_id - 1) as usize];
        let ghost mut from: u32 = 1;
        let ghost mut to: u32 = 1;
        if net_island == 0 {
            self.net_island_map.set((net_id - 1) as usize, component_island);
            self.bump_island(component_island);
            proof {
                assert forall|n: u32| #[trigger] self.net_label(n) == if n == net_id {
                    component_island
                } else {
                    t0.net_label(n)
                } by {}
                assert(t0.bumped(*self, component_island));
                lemma_bumped(listed, *self, *network, *definitions, component_island);
            }
        } else if net_island == component_island {
            self.bump_island(component_island);
            proof {
                assert(t0.bumped(*self, component_island));
                assert forall|n: u32| #[trigger] self.net_label(n) == t0.net_label(n) by {}
                lemma_bumped(listed, *self, *network, *definitions, component_island);
            }
        } else {
            proof {
                lemma_touched(t0, *network, *definitions, links, net_island);
                lemma_touched(t0, *network, *definitions, links, component_island);
                assert forall|island: u32| t0.nets_touched(
                    *network,
                    *definitions,
                    island,
                ) implies #[trigger] listed.nets_touched(*network, *definitions, island) by {
                    assert forall|n: u32| #[trigger] listed.net_label(n) == island implies
                        listed.net_touched(*network, *definitions, island, n) by {
                        assert(t0.net_label(n) == island);
                        assert(t0.net_touched(*network, *definitions, island, n));
                        let (u, v) = choose|u: u64, v: u64| #[trigger]
                            network.linked(u, v) && is_terminal_word(u) && !is_terminal_word(v)
                                && t0.net_of(word_id(v)) == n && t0.component_label(
                                *network,
                                component_of(*network, *definitions, u),
                            ) == island;
                        assert(listed.net_of(word_id(v)) == n);
                        assert(listed.component_label(
                            *network,
                            component_of(*network, *definitions, u),
                        ) == island);
                    }
                }
                assert(listed.nets_touched(*network, *definitions, net_island));
                assert(listed.nets_touched(*network, *definitions, component_island));
            }
            let dst: u32 = self.merge_islands(definitions, network, net_island, component_island);
            proof {
                to = dst;
                from = if dst == net_island {
                    component_island
                } else {
                    net_island
                };
                assert forall|i: u32| #[trigger] t0.islands@.contains_key(i) implies
                    self.islands@.contains_key(moved(i, from, to)) by {
                    assert(self.islands@.dom().contains(moved(i, from, to)));
                }
                assert(t0.islands_after_join(
                    *self,
                    *network,
                    *definitions,
                    net_island,
                    component_island,
                ));
                assert forall|n: u32| #[trigger] self.net_label(n) == moved(
                    t0.net_label(n),
                    from,
                    to,
                ) by {
                    assert(listed.net_label(n) == t0.net_label(n));
                }
                assert forall|c: u64| is_component(*network, *definitions, c) implies #[trigger]
                    self.component_label(*network, c) == moved(
                    t0.component_label(*network, c),
                    from,
                    to,
                ) by {
                    assert(listed.component_label(*network, c) == t0.component_label(*network, c));
                }
            }
        }
        proof {
            lemma_terminal_joined(
                t0,
                *self,
                *network,
                *definitions,
                links,
                wire,
                x,
                from,
                to,
            );
        }
    }

    /// Joins the islands of two components that a connection between terminals joins.
    pub(crate) fn connect_components(
        &mut self,
        definitions: &DefinitionRegistry,
        network: &Network,
        component_a: u64,
        component_b: u64,
        Ghost(links): Ghost<spec_fn(u64, u64) -> bool>,
        Ghost(x): Ghost<u64>,
        Ghost(y): Ghost<u64>,
    )
        requires
            network_ok(*network, *definitions),
            links_of(*network, links),
            old(self).joined(*network, *definitions, links),
            network.linked(x, y),
            is_terminal_word(x),
            is_terminal_word(y),
            component_a == component_of(*network, *definitions, x),
            component_b == component_of(*network, *definitions, y),
            forall|i: u32| #[trigger]
                old(self).islands@.contains_key(i) ==> old(self).islands@[i].revision < u64::MAX,
        ensures
            final(self).joined(*network, *definitions, with_link(links, x, y)),
            ({
                let a = old(self).component_label(*network, component_a);
                let b = old(self).component_label(*network, component_b);
                if a == b {
                    *final(self) == *old(self)
                } else {
                    let (dst, src) = old(self).merge_target(a, b);
                    &&& old(self).islands_after_join(*final(self), *network, *definitions, a, b)
                    &&& old(self).labels_moved(*final(self), *network, *definitions, src, dst)
                    &&& final(self).wire_net_map == old(self).wire_net_map
                    &&& final(self).nets == old(self).nets
                }
            }),
    {
        broadcast use {group_words, lemma_component_word, DenseIdStore::lemma_live};

        let ghost t0 = *self;
        proof {
            assert(network.linked(y, x));
            lemma_linked_live(*network, *definitions, x, y);
            lemma_linked_live(*network, *definitions, y, x);
        }
        let island_a: u32 = self.component_island_raw(definitions, network, component_a);
        let island_b: u32 = self.component_island_raw(definitions, network, component_b);
        let ghost mut from: u32 = 1;
        let ghost mut to: u32 = 1;
        if island_a != island_b {
            proof {
                lemma_touched(t0, *network, *definitions, links, island_a);
                lemma_touched(t0, *network, *definitions, links, island_b);
                assert(self.islands@.contains_key(island_a));
                assert(self.islands@.contains_key(island_b));
            }
            let dst: u32 = self.merge_islands(definitions, network, island_a, island_b);
            proof {
                to = dst;
                from = if dst == island_a {
                    island_b
                } else {
                    island_a
                };
                assert forall|i: u32| #[trigger] t0.islands@.contains_key(i) implies
                    self.islands@.contains_key(moved(i, from, to)) by {
                    assert(self.islands@.dom().contains(moved(i, from, to)));
                }
            }
        }
        proof {
            lemma_components_joined(
                t0,
                *self,
                *network,
                *definitions,
                links,
                x,
                y,
                from,
                to,
            );
        }
    }
}

/// A new revision of an island leaves what islands hold.
proof fn lemma_bumped(
    before: DerivedTopology,
    after: DerivedTopology,
    network: Network,
    definitions: DefinitionRegistry,
    island: u32,
)
    requires
        before.structure_ok(network, definitions),
        before.components_ok(network, definitions, Set::empty()),
        before.bumped(after, island),
        after.nets == before.nets,
        after.wire_net_map == before.wire_net_map,
        after.net_island_map@.len() == before.net_island_map@.len(),
        after.device_chunks == before.device_chunks,
    ensures
        after.structure_ok(network, definitions),
        after.components_ok(network, definitions, Set::empty()),
        forall|i: u32| #[trigger]
            after.islands@.contains_key(i) == before.islands@.contains_key(i),
        forall|c: u64| #[trigger]
            after.component_label(network, c) == before.component_label(network, c),
{
    assert forall|i: u32| #[trigger]
        after.islands@.contains_key(i) == before.islands@.contains_key(i) by {
        assert(after.islands@.dom().contains(i) == before.islands@.dom().contains(i));
    }
    assert forall|c: u64| #[trigger]
        after.component_label(network, c) == before.component_label(network, c) by {}
    assert forall|i: u32| #[trigger] after.islands@.contains_key(i) implies {
        &&& after.islands@[i].components@.len() > 0
        &&& after.islands@[i].components@.no_duplicates()
        &&& forall|c: u64| #[trigger]
            after.islands@[i].components@.contains(c) ==> is_component(network, definitions, c)
                && after.component_label(network, c) == i
    } by {
        assert(before.islands@.contains_key(i));
    }
    assert forall|c: u64| #[trigger] is_component(network, definitions, c) implies {
        let label = after.component_label(network, c);
        after.islands@.contains_key(label) && after.islands@[label].components@.contains(c)
    } by {
        assert(before.islands@.contains_key(before.component_label(network, c)));
    }
}

} // verus!
