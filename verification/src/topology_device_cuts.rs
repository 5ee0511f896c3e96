//! What the derived topology does when a device is taken out of the network.

use crate::connection::{
    component_device, component_partition, component_word, group_words, is_terminal_word,
    lemma_component_word, word_id, word_terminal, ConnectionRef, DeviceComponent,
};
use crate::dense_store::DenseIdStore;
use crate::device_arena::DeviceRemoveResult;
use crate::graph::connected;
use crate::ids::{DeviceId, NetId};
use crate::invalidation::{lemma_with, with};
use crate::island_repair::ids_between;
use crate::island_traversal::{covers_bare_nets, lemma_linked_live};
use crate::network::{belongs_to, Network};
use crate::registry::DefinitionRegistry;
use crate::scratch::TraversalScratch;
use crate::small_list::{lemma_swap_removed, swap_removed, IdList, WordList};
use crate::topology::{
    component_of, is_component, is_component_word, network_ok, partition_count, wire_edge,
    DerivedTopology, IslandTopology, Net,
};
use crate::topology_cuts::{components_kept, lemma_cut_closed, lemma_cut_islands, lemma_cut_nets};
use crate::topology_steps::{
    first_of_device, lemma_first_of_device, pruned, within, without_device,
};
use vstd::prelude::*;

verus! {

/// Whether the entries of a net's list are packed components of the terminals' devices.
pub(crate) open spec fn net_paired(net: Net) -> bool {
    &&& net.terminals@.no_duplicates()
    &&& net.terminals@.len() == net.terminal_components@.len()
    &&& forall|i: int|
        0 <= i < net.terminals@.len() ==> is_component_word(#[trigger] net.terminal_components@[i])
            && component_device(net.terminal_components@[i]) == word_id(net.terminals@[i])
            && is_terminal_word(net.terminals@[i])
}

/// Whether a net's list has a terminal with a component.
pub(crate) open spec fn has_entry(net: Net, terminal: u64, component: u64) -> bool {
    exists|j: int|
        0 <= j < net.terminals@.len() && #[trigger] net.terminals@[j] == terminal
            && net.terminal_components@[j] == component
}

/// Whether `after` is a net without the terminals of a device.
pub(crate) open spec fn net_pruned(before: Net, after: Net, device: u32) -> bool {
    &&& after.wires == before.wires
    &&& after.terminal_components@ == pruned(before.terminal_components@, device)
    &&& net_paired(after)
    &&& forall|x: u64| #[trigger]
        after.terminals@.contains(x) <==> (before.terminals@.contains(x) && !belongs_to(x, device))
    &&& forall|i: int|
        0 <= i < after.terminals@.len() ==> has_entry(
            before,
            #[trigger] after.terminals@[i],
            after.terminal_components@[i],
        )
}

/// The first place in a list that belongs to a device.
fn find_device(list: &WordList, device: u32) -> (result: Option<usize>)
    requires
        forall|i: int| 0 <= i < list@.len() ==> is_component_word(#[trigger] list@[i]),
    ensures
        match result {
            Some(position) => position < list@.len() && component_device(list@[position as int])
                == device && first_of_device(list@, device, 0) == position,
            None => forall|i: int|
                0 <= i < list@.len() ==> component_device(#[trigger] list@[i]) != device,
        },
{
    let mut index: usize = 0;
    while index < list.len()
        invariant
            index <= list@.len(),
            forall|i: int| 0 <= i < list@.len() ==> is_component_word(#[trigger] list@[i]),
            forall|i: int| 0 <= i < index ==> component_device(#[trigger] list@[i]) != device,
        decreases list@.len() - index,
    {
        assert(is_component_word(list@[index as int]));
        if DeviceComponent::from_word(list.get(index)).device().get() == device {
            proof {
                lemma_first_of_device(list@, device, 0, index as int);
            }
            return Some(index);
        }
        index = index + 1;
    }
    None
}

/// Without terminals of the device, a net is as it would be pruned.
proof fn lemma_nothing_to_prune(before: Net, net: Net, device: u32)
    requires
        net_paired(net),
        net.wires == before.wires,
        pruned(net.terminal_components@, device) == pruned(before.terminal_components@, device),
        forall|x: u64| #[trigger] net.terminals@.contains(x) ==> before.terminals@.contains(x),
        forall|x: u64| #[trigger]
            before.terminals@.contains(x) && !belongs_to(x, device) ==> net.terminals@.contains(x),
        forall|i: int|
            0 <= i < net.terminals@.len() ==> has_entry(
                before,
                #[trigger] net.terminals@[i],
                net.terminal_components@[i],
            ),
        forall|i: int|
            0 <= i < net.terminal_components@.len() ==> component_device(
                #[trigger] net.terminal_components@[i],
            ) != device,
    ensures
        net_pruned(before, net, device),
{
    let components = net.terminal_components@;
    lemma_first_of_device(components, device, 0, components.len() as int);
    assert forall|x: u64| #[trigger] net.terminals@.contains(x) <==> (before.terminals@.contains(x)
        && !belongs_to(x, device)) by {
        if net.terminals@.contains(x) {
            let i = choose|i: int| 0 <= i < net.terminals@.len() && net.terminals@[i] == x;
            assert(component_device(net.terminal_components@[i]) != device);
        }
    }
}

impl Net {
    /// Takes the terminals of a device off the list.
    fn remove_device(&mut self, device: u32)
        requires
            net_paired(*old(self)),
        ensures
            net_pruned(*old(self), *final(self), device),
    {
        assert forall|i: int| 0 <= i < self.terminals@.len() implies has_entry(
            *old(self),
            #[trigger] self.terminals@[i],
            self.terminal_components@[i],
        ) by {
            assert(old(self).terminals@[i] == self.terminals@[i]);
        }
        loop
            invariant
                net_paired(*self),
                self.wires == old(self).wires,
                pruned(self.terminal_components@, device) == pruned(
                    old(self).terminal_components@,
                    device,
                ),
                forall|x: u64| #[trigger]
                    self.terminals@.contains(x) ==> old(self).terminals@.contains(x),
                forall|x: u64| #[trigger]
                    old(self).terminals@.contains(x) && !belongs_to(x, device)
                        ==> self.terminals@.contains(x),
                forall|i: int|
                    0 <= i < self.terminals@.len() ==> has_entry(
                        *old(self),
                        #[trigger] self.terminals@[i],
                        self.terminal_components@[i],
                    ),
            ensures
                net_pruned(*old(self), *self, device),
            decreases self.terminals@.len(),
        {
            match find_device(&self.terminal_components, device) {
                None => {
                    proof {
                        lemma_nothing_to_prune(*old(self), *self, device);
                    }
                    break ;
                },
                Some(position) => {
                    let ghost before = *self;
                    self.terminal_components.swap_remove(position);
                    self.terminals = Ghost(swap_removed(before.terminals@, position as int));
                    proof {
                        lemma_swap_removed(before.terminals@, position as int);
                        let last = before.terminals@.len() - 1;
                        assert forall|i: int| 0 <= i < self.terminals@.len() implies has_entry(
                            *old(self),
                            #[trigger] self.terminals@[i],
                            self.terminal_components@[i],
                        ) by {
                            let from = if i == position {
                                last
                            } else {
                                i
                            };
                            assert(self.terminals@[i] == before.terminals@[from]);
                            assert(self.terminal_components@[i]
                                == before.terminal_components@[from]);
                        }
                        assert(before.terminals@.contains(before.terminals@[position as int]));
                        assert(component_device(before.terminal_components@[position as int])
                            == word_id(before.terminals@[position as int]));
                        assert forall|i: int| 0 <= i < self.terminals@.len() implies
                            is_component_word(#[trigger] self.terminal_components@[i])
                            && component_device(self.terminal_components@[i]) == word_id(
                            self.terminals@[i],
                        ) && is_terminal_word(self.terminals@[i]) by {
                            let from = if i == position {
                                last
                            } else {
                                i
                            };
                            assert(self.terminal_components@[i]
                                == before.terminal_components@[from]);
                        }
                    }
                },
            }
        }
    }
}

/// Whether `after` is an island without the components of a device.
pub(crate) open spec fn island_pruned(
    before: IslandTopology,
    after: IslandTopology,
    device: u32,
) -> bool {
    &&& after.revision == before.revision
    &&& after.components@ == without_device(before.components@, device)
    &&& after.components@.len() <= before.components@.len()
    &&& before.components@.no_duplicates() ==> after.components@.no_duplicates()
    &&& forall|c: u64| #[trigger]
        after.components@.contains(c) <==> (before.components@.contains(c) && component_device(c)
            != device)
}

impl IslandTopology {
    /// Takes the components of a device off the list, and keeps the others in order.
    fn remove_device(&mut self, device: u32)
        requires
            forall|i: int|
                0 <= i < old(self).components@.len() ==> is_component_word(
                    #[trigger] old(self).components@[i],
                ),
        ensures
            island_pruned(*old(self), *final(self), device),
    {
        let mut kept = WordList::new();
        let mut index: usize = 0;
        while index < self.components.len()
            invariant
                *self == *old(self),
                index <= self.components@.len(),
                forall|i: int|
                    0 <= i < self.components@.len() ==> is_component_word(
                        #[trigger] self.components@[i],
                    ),
                kept@ == without_device(self.components@.take(index as int), device),
                kept@.len() <= index,
                self.components@.no_duplicates() ==> kept@.no_duplicates(),
                forall|c: u64| #[trigger]
                    kept@.contains(c) <==> (self.components@.take(index as int).contains(c)
                        && component_device(c) != device),
            decreases self.components@.len() - index,
        {
            let component: u64 = self.components.get(index);
            let ghost taken = self.components@.take(index as int);
            assert(is_component_word(self.components@[index as int]));
            proof {
                assert(self.components@.take(index + 1) =~= taken.push(component));
                assert(self.components@.take(index + 1).drop_last() =~= taken);
                crate::traversal::lemma_push_contains(taken, component);
                crate::traversal::lemma_push_contains(kept@, component);
                if self.components@.no_duplicates() {
                    assert(!taken.contains(component)) by {
                        if taken.contains(component) {
                            let i = choose|i: int| 0 <= i < taken.len() && taken[i] == component;
                            assert(self.components@[i] == self.components@[index as int]);
                        }
                    }
                }
            }
            if DeviceComponent::from_word(component).device().get() != device {
                kept.push(component);
            }
            index = index + 1;
        }
        assert(self.components@.take(self.components@.len() as int) =~= self.components@);
        self.components = kept;
    }
}

/// The nets of the wires among a device's connections, in order.
pub open spec fn nets_at(
    topology: DerivedTopology,
    terminals: Seq<Option<ConnectionRef>>,
) -> Seq<u32>
    decreases terminals.len(),
{
    if terminals.len() == 0 {
        Seq::empty()
    } else {
        let rest = nets_at(topology, terminals.drop_last());
        match terminals.last() {
            Some(connection) => if is_terminal_word(connection.word()) || topology.wire_net_spec(
                word_id(connection.word()),
            ) == 0 {
                rest
            } else {
                rest.push(topology.wire_net_spec(word_id(connection.word())))
            },
            None => rest,
        }
    }
}

/// A wire that a terminal is connected to has its net among those of the device.
proof fn lemma_nets_at(
    topology: DerivedTopology,
    terminals: Seq<Option<ConnectionRef>>,
    index: int,
)
    requires
        0 <= index < terminals.len(),
        terminals[index] is Some,
        !is_terminal_word(terminals[index]->Some_0.word()),
        topology.net_of(word_id(terminals[index]->Some_0.word())) != 0,
    ensures
        nets_at(topology, terminals).contains(
            topology.net_of(word_id(terminals[index]->Some_0.word())),
        ),
    decreases terminals.len(),
{
    topology.lemma_wire_net(word_id(terminals[index]->Some_0.word()));
    let net = topology.net_of(word_id(terminals[index]->Some_0.word()));
    let rest = nets_at(topology, terminals.drop_last());
    let all = nets_at(topology, terminals);
    if index == terminals.len() - 1 {
        assert(all.last() == net);
        assert(all[all.len() - 1] == net);
    } else {
        assert(terminals.drop_last()[index] == terminals[index]);
        lemma_nets_at(topology, terminals.drop_last(), index);
        let i = choose|i: int| 0 <= i < rest.len() && rest[i] == net;
        assert(all[i] == net);
    }
}

/// The nets of a device are nets of wires that its terminals are connected to.
proof fn lemma_nets_at_source(
    topology: DerivedTopology,
    terminals: Seq<Option<ConnectionRef>>,
    net: u32,
)
    requires
        nets_at(topology, terminals).contains(net),
    ensures
        exists|i: int|
            0 <= i < terminals.len() && #[trigger] terminals[i] is Some && !is_terminal_word(
                terminals[i]->Some_0.word(),
            ) && topology.net_of(word_id(terminals[i]->Some_0.word())) == net && net != 0,
    decreases terminals.len(),
{
    let all = nets_at(topology, terminals);
    let k = choose|k: int| 0 <= k < all.len() && all[k] == net;
    let init = terminals.drop_last();
    let rest = nets_at(topology, init);
    if k < rest.len() {
        assert(rest[k] == net);
        lemma_nets_at_source(topology, init, net);
        let i = choose|i: int|
            0 <= i < init.len() && #[trigger] init[i] is Some && !is_terminal_word(
                init[i]->Some_0.word(),
            ) && topology.net_of(word_id(init[i]->Some_0.word())) == net && net != 0;
        assert(terminals[i] is Some);
    } else {
        assert(terminals[terminals.len() - 1] is Some);
        topology.lemma_wire_net(word_id(terminals.last()->Some_0.word()));
    }
}

/// What is affected by the removal of a device, noted before it is removed.
#[derive(Debug)]
pub struct PreparedDeviceTopologyRemoval {
    affected_nets: Vec<NetId>,
    affected_islands: IdList,
}

impl PreparedDeviceTopologyRemoval {
    /// The numbers of the nets that the device is attached to, once for each attached terminal.
    pub closed spec fn spec_nets(self) -> Seq<u32> {
        Seq::new(self.affected_nets@.len(), |i: int| self.affected_nets@[i].value())
    }

    /// The islands that the components of the device are in, each once.
    pub closed spec fn spec_islands(self) -> Seq<u32> {
        self.affected_islands@
    }
}

impl DerivedTopology {
    /// The numbers of the nets that a device is attached to, once for each attached terminal.
    pub open spec fn device_nets_spec(self, network: Network, device: u32) -> Seq<u32> {
        nets_at(self, network.device_model(device).terminals)
    }

    /// The nets that a device is attached to, once for each attached terminal; none where there is
    /// no such device.
    pub fn device_nets(&self, network: &Network, device: DeviceId) -> (result: Vec<NetId>)
        requires
            network.wf(),
        ensures
            !network.device_live(device.value()) ==> result@.len() == 0,
            network.device_live(device.value()) ==> {
                let nets = self.device_nets_spec(*network, device.value());
                &&& result@.len() == nets.len()
                &&& forall|i: int| 0 <= i < nets.len() ==> (#[trigger] result@[i]).value() == nets[i]
            },
    {
        let mut nets: Vec<NetId> = Vec::new();
        let view = match network.device(device) {
            Ok(view) => view,
            Err(_) => {
                return nets;
            },
        };
        let terminals = view.terminals();
        let mut index: usize = 0;
        while index < terminals.len()
            invariant
                index <= terminals@.len(),
                nets@.len() == nets_at(*self, terminals@.take(index as int)).len(),
                forall|i: int|
                    0 <= i < nets@.len() ==> (#[trigger] nets@[i]).value() == nets_at(
                        *self,
                        terminals@.take(index as int),
                    )[i],
            decreases terminals@.len() - index,
        {
            broadcast use group_words;

            let ghost taken = terminals@.take(index as int);
            let ghost more = terminals@.take(index + 1);
            proof {
                assert(more.drop_last() =~= taken);
                assert(more.last() == terminals@[index as int]);
            }
            if let Some(connection) = terminals[index] {
                if let Some(wire) = connection.as_wire() {
                    let number: u32 = wire.get();
                    proof {
                        self.lemma_wire_net(number);
                    }
                    if (number as usize) <= self.wire_net_map.len() {
                        let net: u32 = self.wire_net_raw(number);
                        if net != 0 {
                            nets.push(NetId::new(net));
                        }
                    }
                }
            }
            index = index + 1;
        }
        assert(terminals@.take(terminals@.len() as int) =~= terminals@);
        nets
    }

    /// The islands of the first components of a device, each once, in the order in which they come.
    pub open spec fn device_islands(self, network: Network, device: u32, count: int) -> Seq<u32>
        decreases count,
    {
        if count <= 0 {
            Seq::empty()
        } else {
            with(
                self.device_islands(network, device, count - 1),
                self.component_island_spec(network, component_word(device, (count - 1) as u16)),
            )
        }
    }

    /// Whether notes on the removal of a device fit.
    pub open spec fn removal_prepared(
        self,
        network: Network,
        definitions: DefinitionRegistry,
        device: u32,
        prepared: PreparedDeviceTopologyRemoval,
    ) -> bool {
        &&& prepared.spec_nets() == self.device_nets_spec(network, device)
        &&& prepared.spec_islands() == self.device_islands(
            network,
            device,
            partition_count(network, definitions, device),
        )
    }

    /// The islands of a device are those that its row names.
    proof fn lemma_device_islands(self, network: Network, device: u32, count: int)
        requires
            0 <= count <= 0x1_0000,
            device != 0,
        ensures
            self.device_islands(network, device, count).no_duplicates(),
            forall|i: u32| #[trigger]
                self.device_islands(network, device, count).contains(i) <==> exists|p: int|
                    0 <= p < count && #[trigger] self.device_chunks@[network.arena().chunk_of(
                        device,
                    )].island(network.arena().row_of(device), p) == i,
        decreases count,
    {
        broadcast use lemma_component_word;

        if count > 0 {
            let last = count - 1;
            let rest = self.device_islands(network, device, last);
            let c = component_word(device, last as u16);
            let island = self.component_island_spec(network, c);
            let chunk = self.device_chunks@[network.arena().chunk_of(device)];
            let row = network.arena().row_of(device);
            self.lemma_device_islands(network, device, last);
            self.lemma_component_island(network, c);
            lemma_with(rest, island);
            assert(chunk.island(row, last) == island);
            assert forall|i: u32| #[trigger]
                self.device_islands(network, device, count).contains(i) <==> exists|p: int|
                    0 <= p < count && #[trigger] chunk.island(row, p) == i by {
                assert(with(rest, island).contains(i) <==> (rest.contains(i) || i == island));
                if exists|p: int| 0 <= p < count && #[trigger] chunk.island(row, p) == i {
                    let p = choose|p: int| 0 <= p < count && #[trigger] chunk.island(row, p) == i;
                    if p < last {
                        assert(rest.contains(i));
                    }
                }
                if rest.contains(i) {
                    let p = choose|p: int| 0 <= p < last && #[trigger] chunk.island(row, p) == i;
                    assert(chunk.island(row, p) == i);
                }
            }
        }
    }

    /// What the notes on the removal of a device say of its row.
    proof fn lemma_removal_prepared(
        self,
        network: Network,
        definitions: DefinitionRegistry,
        device: u32,
        prepared: PreparedDeviceTopologyRemoval,
    )
        requires
            network_ok(network, definitions),
            network.device_live(device),
            self.removal_prepared(network, definitions, device, prepared),
        ensures
            prepared.spec_islands().no_duplicates(),
            forall|i: u32| #[trigger]
                prepared.spec_islands().contains(i) <==> exists|p: int|
                    0 <= p < partition_count(network, definitions, device) && #[trigger]
                    self.device_chunks@[network.arena().chunk_of(device)].island(
                        network.arena().row_of(device),
                        p,
                    ) == i,
    {
        network.arena().lemma_wf();
        assert(network.arena().resident(device));
        network.arena().lemma_fits(definitions, device);
        let id = network.device_model(device).definition.value();
        assert(definitions.spec_definitions()[id - 1].wf());
        self.lemma_device_islands(
            network,
            device,
            partition_count(network, definitions, device),
        );
    }

    /// Notes what the removal of a device will affect.
    pub fn prepare_device_removal(
        &self,
        definitions: &DefinitionRegistry,
        network: &Network,
        device: DeviceId,
    ) -> (result: PreparedDeviceTopologyRemoval)
        requires
            network_ok(*network, *definitions),
            self.consistent(*network, *definitions),
            network.device_live(device.value()),
        ensures
            self.removal_prepared(*network, *definitions, device.value(), result),
    {
        proof {
            self.lemma_consistent(*network, *definitions);
            network.arena().lemma_wf();
        }
        let affected_nets = self.device_nets(network, device);
        let location = network.device_location(device).unwrap();
        let row: usize = location.row() as usize;
        let chunk = &self.device_chunks[location.chunk_index() as usize];
        proof {
            let d = device.value();
            assert(network.arena().resident(d));
            network.arena().lemma_fits(*definitions, d);
            network.arena().lemma_shaped(*definitions, network.arena().chunk_of(d));
            assert(chunk.partitions() == partition_count(*network, *definitions, d));
        }
        let islands = chunk.row_islands(row);
        let mut affected_islands = IdList::new();
        let mut index: usize = 0;
        while index < islands.len()
            invariant
                index <= islands@.len() <= 0x1_0000,
                device.value() != 0,
                *chunk == self.device_chunks@[network.arena().chunk_of(device.value())],
                row == network.arena().row_of(device.value()),
                forall|p: int|
                    0 <= p < islands@.len() ==> (#[trigger] islands@[p]).value() == chunk.island(
                        row as int,
                        p,
                    ),
                affected_islands@ == self.device_islands(*network, device.value(), index as int),
            decreases islands@.len() - index,
        {
            broadcast use lemma_component_word;

            let island: u32 = islands[index].get();
            proof {
                let c = component_word(device.value(), index as u16);
                self.lemma_component_island(*network, c);
                assert(islands@[index as int].value() == island);
                assert(self.component_island_spec(*network, c) == island);
            }
            if !affected_islands.contains(island) {
                affected_islands.push(island);
            }
            index = index + 1;
        }
        let result = PreparedDeviceTopologyRemoval { affected_nets, affected_islands };
        proof {
            assert(result.spec_nets() =~= self.device_nets_spec(*network, device.value()));
        }
        result
    }

    /// Whether the chunks mirror the removal of a device.
    pub(crate) open spec fn row_removed(
        self,
        after: Self,
        removal: DeviceRemoveResult,
    ) -> bool {
        let k = removal.spec_chunk();
        let row = removal.spec_row();
        let chunk = self.device_chunks@[k];
        if chunk.rows() > 1 {
            let left = after.device_chunks@[k];
            &&& after.device_chunks@.len() == self.device_chunks@.len()
            &&& forall|c: int|
                0 <= c < self.device_chunks@.len() && c != k ==> #[trigger] after.device_chunks@[c]
                    == self.device_chunks@[c]
            &&& left.wf()
            &&& left.rows() == chunk.rows() - 1
            &&& left.partitions() == chunk.partitions()
            &&& forall|r: int, p: int|
                0 <= r < left.rows() && 0 <= p < left.partitions() ==> #[trigger] left.island(r, p)
                    == chunk.island(
                    if r == row {
                        chunk.rows() - 1
                    } else {
                        r
                    },
                    p,
                )
        } else {
            after.device_chunks@ == swap_removed(self.device_chunks@, k)
        }
    }

    /// Follows the removal of a row in the device arena.
    fn remove_device_row(&mut self, removal: DeviceRemoveResult)
        requires
            removal.spec_chunk() < old(self).device_chunks@.len(),
            old(self).device_chunks@[removal.spec_chunk()].wf(),
            removal.spec_row() < old(self).device_chunks@[removal.spec_chunk()].rows(),
        ensures
            final(self).nets == old(self).nets,
            final(self).wire_net_map == old(self).wire_net_map,
            final(self).islands == old(self).islands,
            final(self).net_island_map == old(self).net_island_map,
            final(self).invalidation == old(self).invalidation,
            old(self).row_removed(*final(self), removal),
    {
        let chunk_index: usize = removal.removed_chunk() as usize;
        let row: usize = removal.removed_row() as usize;
        self.device_chunks[chunk_index].remove_row(row);
        if self.device_chunks[chunk_index].row_count() == 0 {
            self.device_chunks.swap_remove(chunk_index);
            assert(self.device_chunks@ =~= swap_removed(
                old(self).device_chunks@,
                chunk_index as int,
            ));
        }
    }
}

/// The islands of the components that are left stay where they can be found.
proof fn lemma_row_removed(
    t0: DerivedTopology,
    t1: DerivedTopology,
    before: Network,
    after: Network,
    definitions: DefinitionRegistry,
    device: u32,
    removal: DeviceRemoveResult,
)
    requires
        network_ok(before, definitions),
        network_ok(after, definitions),
        before.device_removed(after, device, removal),
        t0.structure_ok(before, definitions),
        t0.row_removed(t1, removal),
        t1.nets.wf(),
        t1.nets.spec_slot_count() == t0.nets.spec_slot_count(),
        t1.wire_net_map == t0.wire_net_map,
        t1.net_island_map == t0.net_island_map,
        t1.islands.wf(),
        t1.islands@.dom() == t0.islands@.dom(),
        t1.islands.spec_slot_count() == t0.islands.spec_slot_count(),
        t1.invalidation == t0.invalidation,
    ensures
        t1.structure_ok(after, definitions),
        components_kept(t0, t1, before, after, definitions),
{
    let arena = before.arena();
    let k = arena.chunk_of(device);
    let last = arena.spec_chunk_count() - 1;
    arena.lemma_wf();
    after.arena().lemma_wf();
    assert(arena.resident(device));
    assert forall|i: u32| #[trigger] t1.invalidation.gone().contains(i) implies
        !t1.islands@.contains_key(i) && i <= t1.islands.spec_slot_count() by {
        assert(!t0.islands@.dom().contains(i));
    }
    assert forall|c: int| 0 <= c < t1.device_chunks@.len() implies {
        let chunk = #[trigger] t1.device_chunks@[c];
        &&& chunk.wf()
        &&& chunk.rows() == after.arena().rows(c)
        &&& chunk.partitions() == definitions.definition(
            after.arena().spec_chunk_definition(c).value(),
        ).spec_partition_count()
    } by {
        let from = if c == k && arena.rows(k) == 1 {
            last
        } else {
            c
        };
        assert(t0.device_chunks@[from].wf());
        assert(after.arena().spec_chunk_definition(c) == arena.spec_chunk_definition(from));
        assert(after.arena().rows(c) == if c != k {
            arena.rows(c)
        } else if arena.rows(k) == 1 {
            arena.rows(last)
        } else {
            arena.rows(k) - 1
        });
    }
    assert(t1.device_chunks@.len() == after.arena().spec_chunk_count());
    assert forall|x: u64|
        is_terminal_word(x) && after.device_live(word_id(x)) implies #[trigger] component_of(
        after,
        definitions,
        x,
    ) == component_of(before, definitions, x) by {}
    assert forall|c: u64| #[trigger] is_component(after, definitions, c) implies is_component(
        before,
        definitions,
        c,
    ) && t1.component_label(after, c) == t0.component_label(before, c) by {
        let d = component_device(c);
        assert(after.device_live(d));
        assert(after.arena().resident(d));
        assert(before.arena().resident(d) && d != device);
        assert(is_component(before, definitions, c));
        crate::island_traversal::lemma_component_place(t0, before, definitions, c);
        crate::island_traversal::lemma_component_place(t1, after, definitions, c);
        let place = arena.place_after_removal(device, d);
        assert(after.arena().chunk_of(d) == place.0);
        assert(after.arena().row_of(d) == place.1);
        let c0 = arena.chunk_of(d);
        let r0 = arena.row_of(d);
        let p = component_partition(c) as int;
        assert(arena.device_at(c0, r0) == d);
        assert(arena.device_at(k, arena.row_of(device)) == device);
        if arena.rows(k) == 1 {
            assert(c0 != k);
        } else if c0 == k {
            assert(r0 != arena.row_of(device));
            assert(t1.device_chunks@[k].island(place.1, p) == t0.device_chunks@[k].island(r0, p));
        }
    }
}

/// Once nets and islands no longer list a device, at most the islands that it was in are left to be
/// repaired.
#[verifier::spinoff_prover]
#[verifier::rlimit(40)]
proof fn lemma_device_cut(
    t0: DerivedTopology,
    t1: DerivedTopology,
    before: Network,
    after: Network,
    definitions: DefinitionRegistry,
    device: u32,
    removal: DeviceRemoveResult,
    affected: Seq<u32>,
)
    requires
        network_ok(before, definitions),
        network_ok(after, definitions),
        before.device_removed(after, device, removal),
        t0.consistent_except(before, definitions, Set::empty()),
        t1.structure_ok(after, definitions),
        components_kept(t0, t1, before, after, definitions),
        t1.nets@.dom() == t0.nets@.dom(),
        forall|n: u32| #[trigger]
            t0.nets@.contains_key(n) ==> net_pruned(t0.nets@[n], t1.nets@[n], device),
        t1.wire_net_map == t0.wire_net_map,
        t1.net_island_map == t0.net_island_map,
        t1.islands@.dom() == t0.islands@.dom(),
        forall|i: u32| #[trigger]
            t0.islands@.contains_key(i) ==> if affected.contains(i) {
                island_pruned(t0.islands@[i], t1.islands@[i], device)
            } else {
                t1.islands@[i] == t0.islands@[i]
            },
        forall|c: u64| #[trigger]
            is_component(before, definitions, c) && component_device(c) == device
                ==> affected.contains(t0.component_label(before, c)),
    ensures
        t1.consistent_except(after, definitions, affected.to_set()),
{
    broadcast use {group_words, lemma_component_word, DenseIdStore::lemma_live};

    let broken = affected.to_set();
    assert forall|w: u32| #[trigger] t1.net_of(w) == t0.net_of(w) by {}
    assert forall|n: u32| #[trigger] t1.net_label(n) == t0.net_label(n) by {}
    assert forall|n: u32| #[trigger] t1.nets@.contains_key(n) == t0.nets@.contains_key(n) by {
        assert(t1.nets@.dom().contains(n) == t0.nets@.dom().contains(n));
    }
    assert forall|i: u32| #[trigger] t1.islands@.contains_key(i) == t0.islands@.contains_key(i) by {
        assert(t1.islands@.dom().contains(i) == t0.islands@.dom().contains(i));
    }
    assert forall|x: u64, y: u64| #[trigger] before.linked(x, y) && (belongs_to(x, device)
        || belongs_to(y, device)) implies broken.contains(t0.label(before, definitions, x)) by {
        assert(before.linked(y, x));
        lemma_linked_live(before, definitions, x, y);
        lemma_linked_live(before, definitions, y, x);
        let z = if belongs_to(x, device) {
            x
        } else {
            y
        };
        let c = component_of(before, definitions, z);
        assert(is_component(before, definitions, c) && component_device(c) == device);
        assert(t0.label(before, definitions, x) == t0.label(before, definitions, z));
    }
    assert(t1.wires_ok(after)) by {
        assert forall|w: u32| #[trigger] after.wire_live(w) implies t1.nets@.contains_key(
            t1.net_of(w),
        ) && t1.nets@[t1.net_of(w)].wires@.contains(w) by {
            assert(before.wire_live(w));
            assert(t0.nets@.contains_key(t0.net_of(w)));
        }
        assert forall|w: u32| !after.wire_live(w) implies #[trigger] t1.net_of(w) == 0 by {
            assert(!before.wire_live(w));
            assert(t0.net_of(w) == 0);
        }
        assert forall|n: u32| #[trigger] t1.nets@.contains_key(n) implies {
            &&& t1.nets@[n].wires@.len() > 0
            &&& t1.nets@[n].wires@.no_duplicates()
            &&& forall|w: u32| #[trigger]
                t1.nets@[n].wires@.contains(w) ==> after.wire_live(w) && t1.net_of(w) == n
        } by {
            assert(t0.nets@.contains_key(n));
            assert forall|w: u32| #[trigger] t1.nets@[n].wires@.contains(w) implies after.wire_live(
                w,
            ) && t1.net_of(w) == n by {
                assert(t0.nets@[n].wires@.contains(w));
                assert(before.wire_live(w));
            }
        }
    }
    assert forall|y: u64, n: u32| n != 0 implies (#[trigger] t1.attached(after, y, n) <==> (
    t0.attached(before, y, n) && !belongs_to(y, device))) by {
        if t1.attached(after, y, n) {
            let b = choose|b: u64| #[trigger]
                after.linked(y, b) && !is_terminal_word(b) && t1.net_of(word_id(b)) == n;
            assert(before.linked(y, b));
            assert(t0.net_of(word_id(b)) == n);
        }
        if t0.attached(before, y, n) && !belongs_to(y, device) {
            let b = choose|b: u64| #[trigger]
                before.linked(y, b) && !is_terminal_word(b) && t0.net_of(word_id(b)) == n;
            assert(after.linked(y, b));
            assert(t1.net_of(word_id(b)) == n);
        }
    }
    assert forall|n: u32| #[trigger] t1.nets@.contains_key(n) implies t1.net_lists(
        after,
        definitions,
        n,
    ) by {
        assert(t0.net_lists(before, definitions, n));
        assert(net_pruned(t0.nets@[n], t1.nets@[n], device));
        assert forall|y: u64| #[trigger] t1.nets@[n].terminals@.contains(y) <==> t1.attached(
            after,
            y,
            n,
        ) by {
            assert(t0.nets@[n].terminals@.contains(y) <==> t0.attached(before, y, n));
        }
        assert forall|i: int|
            0 <= i < t1.nets@[n].terminals@.len() implies #[trigger] t1.nets@[n].terminal_components@[i]
            == component_of(after, definitions, t1.nets@[n].terminals@[i]) by {
            let y = t1.nets@[n].terminals@[i];
            assert(t1.nets@[n].terminals@.contains(y));
            assert(t1.attached(after, y, n));
            let b = choose|b: u64| #[trigger]
                after.linked(y, b) && !is_terminal_word(b) && t1.net_of(word_id(b)) == n;
            lemma_linked_live(after, definitions, y, b);
            assert(component_of(after, definitions, y) == component_of(before, definitions, y));
            assert(has_entry(t0.nets@[n], y, t1.nets@[n].terminal_components@[i]));
        }
    }
    assert(t1.net_labels_ok(broken)) by {
        assert forall|n: u32| #[trigger] t1.nets@.contains_key(n) implies {
            &&& t1.net_label(n) != 0 ==> t1.islands@.contains_key(t1.net_label(n))
            &&& t1.net_label(n) == 0 ==> t1.nets@[n].terminals@.len() == 0
            &&& t1.net_label(n) != 0 && !broken.contains(t1.net_label(n))
                ==> t1.nets@[n].terminals@.len() > 0
        } by {
            assert(t0.nets@.contains_key(n));
            assert(t0.net_lists(before, definitions, n));
            let old_list = t0.nets@[n].terminals@;
            let new_list = t1.nets@[n].terminals@;
            if new_list.len() > 0 {
                assert(new_list.contains(new_list[0]));
                let i = choose|i: int| 0 <= i < old_list.len() && old_list[i] == new_list[0];
            } else if t0.net_label(n) != 0 {
                let x = old_list[0];
                assert(old_list.contains(x));
                assert(!new_list.contains(x));
                assert(belongs_to(x, device));
                assert(t0.attached(before, x, n));
                let y = choose|y: u64| #[trigger]
                    before.linked(x, y) && !is_terminal_word(y) && t0.net_of(word_id(y)) == n;
                assert(broken.contains(t0.label(before, definitions, x)));
                assert(t0.label(before, definitions, x) == t0.label(before, definitions, y));
            }
        }
        assert forall|n: u32| !t1.nets@.contains_key(n) implies #[trigger] t1.net_label(n) == 0 by {
            assert(t0.net_label(n) == 0);
        }
    }
    assert(t1.components_ok(after, definitions, broken)) by {
        assert forall|c: u64| #[trigger] is_component(after, definitions, c) implies {
            let label = t1.component_label(after, c);
            t1.islands@.contains_key(label) && t1.islands@[label].components@.contains(c)
        } by {
            assert(is_component(before, definitions, c));
            assert(after.device_live(component_device(c)));
            assert(after.arena().resident(component_device(c)));
        }
        assert forall|i: u32| #[trigger] t1.islands@.contains_key(i) implies {
            &&& !broken.contains(i) ==> t1.islands@[i].components@.len() > 0
            &&& t1.islands@[i].components@.no_duplicates()
            &&& forall|c: u64| #[trigger]
                t1.islands@[i].components@.contains(c) ==> is_component(after, definitions, c)
                    && t1.component_label(after, c) == i
        } by {
            assert(t0.islands@.contains_key(i));
            assert forall|c: u64| #[trigger] t1.islands@[i].components@.contains(c) implies
                is_component(after, definitions, c) && t1.component_label(after, c) == i by {
                assert(t0.islands@[i].components@.contains(c));
                assert(is_component(before, definitions, c));
                let d = component_device(c);
                assert(d != device) by {
                    if d == device {
                        assert(affected.contains(t0.component_label(before, c)));
                    }
                }
                assert(before.arena().resident(d));
                assert(after.arena().resident(d));
                assert(after.device_live(d));
                assert(is_component(after, definitions, c));
            }
        }
    }
    assert forall|x: u64, y: u64| #[trigger] after.linked(x, y) implies before.linked(x, y) by {}
    lemma_cut_closed(t0, t1, before, after, definitions);
    lemma_cut_nets(t0, t1, before, after, definitions, 0);
    assert(t1.nets_connected(after)) by {
        assert forall|u: u32, v: u32|
            #![trigger t1.net_of(u), t1.net_of(v)]
            after.wire_live(u) && after.wire_live(v) && t1.net_of(u) == t1.net_of(
                v,
            ) implies connected(wire_edge(after), u, v) by {
            assert(before.wire_live(u));
            assert(t0.nets@.contains_key(t0.net_of(u)));
        }
    }
    lemma_cut_islands(t0, t1, before, after, definitions, broken);
}

/// The number of components of some islands.
pub(crate) open spec fn component_sum(topology: DerivedTopology, islands: Seq<u32>) -> nat
    decreases islands.len(),
{
    if islands.len() == 0 {
        0
    } else {
        topology.islands@[islands[0]].components@.len() + component_sum(
            topology,
            islands.drop_first(),
        )
    }
}

/// The nets of a list that are in an island, each once.
fn nets_in_island(topology: &DerivedTopology, nets: &Vec<NetId>, island: u32) -> (result: IdList)
    requires
        forall|i: int|
            0 <= i < nets@.len() ==> 1 <= (#[trigger] nets@[i]).value()
                <= topology.net_island_map@.len(),
    ensures
        forall|n: u32| #[trigger]
            result@.contains(n) <==> topology.net_label(n) == island && exists|i: int|
                0 <= i < nets@.len() && (#[trigger] nets@[i]).value() == n,
{
    let mut found = IdList::new();
    let mut index: usize = 0;
    while index < nets.len()
        invariant
            forall|i: int|
                0 <= i < nets@.len() ==> 1 <= (#[trigger] nets@[i]).value()
                    <= topology.net_island_map@.len(),
            index <= nets@.len(),
            forall|n: u32| #[trigger]
                found@.contains(n) <==> topology.net_label(n) == island && exists|i: int|
                    0 <= i < index && (#[trigger] nets@[i]).value() == n,
        decreases nets@.len() - index,
    {
        let net: u32 = nets[index].get();
        assert(nets@[index as int].value() == net);
        if self::label_of(topology, net) == island && !found.contains(net) {
            proof {
                crate::traversal::lemma_push_contains(found@, net);
            }
            found.push(net);
        }
        index = index + 1;
    }
    found
}

fn label_of(topology: &DerivedTopology, net: u32) -> (result: u32)
    requires
        1 <= net <= topology.net_island_map@.len(),
    ensures
        result == topology.net_label(net),
{
    topology.net_island_map[(net - 1) as usize]
}

impl DerivedTopology {
    /// Identifiers and revisions are left for the removal of a device.
    pub closed spec fn has_room_without(self, prepared: PreparedDeviceTopologyRemoval) -> bool {
        &&& self.has_room()
        &&& self.islands.spec_slot_count() + component_sum(self, prepared.spec_islands())
            <= u32::MAX
    }

    /// Whether identifiers and revisions are left for the removal of a device.
    pub fn has_room_left_without(
        &self,
        definitions: &DefinitionRegistry,
        network: &Network,
        device: DeviceId,
        prepared: &PreparedDeviceTopologyRemoval,
    ) -> (result: bool)
        requires
            network_ok(*network, *definitions),
            self.consistent(*network, *definitions),
            network.device_live(device.value()),
            self.removal_prepared(*network, *definitions, device.value(), *prepared),
        ensures
            result == self.has_room_without(*prepared),
    {
        if !self.has_room_left() {
            return false;
        }
        proof {
            self.lemma_consistent(*network, *definitions);
            self.lemma_room();
            lemma_before_pruning(*self, *network, *definitions, device.value(), *prepared);
        }
        let islands = &prepared.affected_islands;
        let mut left: usize = islands.len();
        let mut total: u128 = self.islands.slot_count() as u128;
        proof {
            assert(islands@.skip(islands@.len() as int) =~= Seq::empty());
        }
        while left > 0
            invariant
                left <= islands@.len(),
                self.islands.wf(),
                islands@ == prepared.spec_islands(),
                islands@.len() <= usize::MAX,
                forall|i: u32| #[trigger] islands@.contains(i) ==> self.islands@.contains_key(i),
                total == self.islands.spec_slot_count() + component_sum(
                    *self,
                    islands@.skip(left as int),
                ),
                total <= u64::MAX + (islands@.len() - left) * u64::MAX,
            decreases left,
        {
            let island: u32 = islands.get(left - 1);
            assert(islands@.contains(islands@[left - 1]));
            proof {
                let rest = islands@.skip(left - 1);
                assert(rest.drop_first() =~= islands@.skip(left as int));
                assert(rest[0] == island);
                let done = islands@.len() - left;
                assert((done + 1) * u64::MAX == done * u64::MAX + u64::MAX) by (nonlinear_arith);
                assert(done * u64::MAX <= u64::MAX * u64::MAX) by (nonlinear_arith)
                    requires
                        done <= u64::MAX,
                ;
            }
            total = total + self.islands.get(island).unwrap().components.len() as u128;
            left = left - 1;
        }
        assert(islands@.skip(0) =~= islands@);
        total <= u32::MAX as u128
    }

    /// Whether an island was split off one of those listed in another topology: all its components
    /// come from that one, which is left and takes at least as much to rewrite.
    pub closed spec fn split_off(self, from: Self, affected: Seq<u32>, island: u32) -> bool {
        exists|kept: u32| #[trigger]
            affected.contains(kept) && self.islands@.contains_key(kept) && self.island_cost(island)
                <= self.island_cost(kept) && within(
                self.islands@[island].components@,
                from.islands@[kept].components@,
            )
    }

    /// Whether `after` has the same nets, and the same islands but for those listed, each of which
    /// was split where it had fallen apart, or retired. Of each of them, what takes the most to
    /// rewrite keeps the identifier.
    pub closed spec fn islands_resplit(self, after: Self, affected: Seq<u32>) -> bool {
        &&& after.wire_net_map == self.wire_net_map
        &&& after.nets@.dom() == self.nets@.dom()
        &&& after.islands.spec_slot_count() >= self.islands.spec_slot_count()
        &&& forall|i: u32|
            #![trigger after.islands@[i]]
            #![trigger after.islands@.contains_key(i)]
            self.islands@.contains_key(i) && !affected.contains(i) ==> after.islands@.contains_key(i)
                && after.islands@[i] == self.islands@[i]
        &&& forall|i: u32| #[trigger]
            after.islands@.contains_key(i) && affected.contains(i) ==> after.islands@[i].revision
                == self.islands@[i].revision + 1 && within(
                after.islands@[i].components@,
                self.islands@[i].components@,
            )
        &&& forall|i: u32| #[trigger]
            after.islands@.contains_key(i) && !self.islands@.contains_key(i) ==> i
                > self.islands.spec_slot_count() && after.islands@[i].revision == 0
                && after.split_off(self, affected, i)
        &&& forall|n: u32|
            !affected.contains(self.net_label(n)) ==> #[trigger] after.net_label(n)
                == self.net_label(n)
        &&& self.invalidation.marked_more(
            after.invalidation,
            after.live_among(affected).union(
                ids_between(self.islands.spec_slot_count(), after.islands.spec_slot_count()),
            ),
            after.gone_among(affected),
        )
    }

    /// Those of some islands that exist.
    pub closed spec fn live_among(self, islands: Seq<u32>) -> Set<u32> {
        Set::new(|i: u32| islands.contains(i) && self.islands@.contains_key(i))
    }

    /// Those of some islands that do not exist.
    pub closed spec fn gone_among(self, islands: Seq<u32>) -> Set<u32> {
        Set::new(|i: u32| islands.contains(i) && !self.islands@.contains_key(i))
    }

    /// Takes the terminals of a device off the lists of some nets.
    fn prune_nets(&mut self, nets: &Vec<NetId>, device: u32)
        requires
            old(self).nets.wf(),
            forall|i: int|
                0 <= i < nets@.len() ==> old(self).nets@.contains_key(
                    (#[trigger] nets@[i]).value(),
                ),
            forall|n: u32| #[trigger]
                old(self).nets@.contains_key(n) ==> net_paired(old(self).nets@[n]),
        ensures
            final(self).nets.wf(),
            final(self).nets.spec_slot_count() == old(self).nets.spec_slot_count(),
            final(self).nets@.dom() == old(self).nets@.dom(),
            forall|n: u32| #[trigger]
                old(self).nets@.contains_key(n) ==> if exists|i: int|
                    0 <= i < nets@.len() && (#[trigger] nets@[i]).value() == n {
                    net_pruned(old(self).nets@[n], final(self).nets@[n], device)
                } else {
                    final(self).nets@[n] == old(self).nets@[n]
                },
            final(self).wire_net_map == old(self).wire_net_map,
            final(self).islands == old(self).islands,
            final(self).net_island_map == old(self).net_island_map,
            final(self).device_chunks == old(self).device_chunks,
            final(self).invalidation == old(self).invalidation,
    {
        let mut index: usize = 0;
        while index < nets.len()
            invariant
                index <= nets@.len(),
                forall|i: int|
                    0 <= i < nets@.len() ==> old(self).nets@.contains_key(
                        (#[trigger] nets@[i]).value(),
                    ),
                forall|n: u32| #[trigger]
                    old(self).nets@.contains_key(n) ==> net_paired(old(self).nets@[n]),
                self.nets.wf(),
                self.nets.spec_slot_count() == old(self).nets.spec_slot_count(),
                self.nets@.dom() == old(self).nets@.dom(),
                forall|n: u32| #[trigger]
                    old(self).nets@.contains_key(n) ==> if exists|i: int|
                        0 <= i < index && (#[trigger] nets@[i]).value() == n {
                        net_pruned(old(self).nets@[n], self.nets@[n], device)
                    } else {
                        self.nets@[n] == old(self).nets@[n]
                    },
                self.wire_net_map == old(self).wire_net_map,
                self.islands == old(self).islands,
                self.net_island_map == old(self).net_island_map,
                self.device_chunks == old(self).device_chunks,
                self.invalidation == old(self).invalidation,
            decreases nets@.len() - index,
        {
            let ghost before = *self;
            let net: u32 = nets[index].get();
            proof {
                assert(nets@[index as int].value() == net);
                assert(old(self).nets@.contains_key(net));
                assert(self.nets@.dom().contains(net));
                assert(net_paired(self.nets@[net]));
            }
            self.nets.get_mut(net).remove_device(device);
            proof {
                assert(self.nets@.dom() =~= old(self).nets@.dom());
                assert(net_pruned(old(self).nets@[net], self.nets@[net], device)) by {
                    let first = old(self).nets@[net];
                    let mid = before.nets@[net];
                    let last = self.nets@[net];
                    if net_pruned(first, mid, device) {
                        let components = mid.terminal_components@;
                        assert forall|i: int| 0 <= i < components.len() implies component_device(
                            #[trigger] components[i],
                        ) != device by {
                            assert(mid.terminals@.contains(mid.terminals@[i]));
                        }
                        lemma_first_of_device(components, device, 0, components.len() as int);
                        assert forall|i: int| 0 <= i < last.terminals@.len() implies has_entry(
                            first,
                            #[trigger] last.terminals@[i],
                            last.terminal_components@[i],
                        ) by {
                            assert(has_entry(
                                mid,
                                last.terminals@[i],
                                last.terminal_components@[i],
                            ));
                            let j = choose|j: int|
                                0 <= j < mid.terminals@.len() && #[trigger] mid.terminals@[j]
                                    == last.terminals@[i] && mid.terminal_components@[j]
                                    == last.terminal_components@[i];
                            assert(has_entry(
                                first,
                                mid.terminals@[j],
                                mid.terminal_components@[j],
                            ));
                        }
                    }
                }
                assert forall|n: u32| #[trigger] old(self).nets@.contains_key(n) implies if exists|
                    i: int,
                |
                    0 <= i < index + 1 && (#[trigger] nets@[i]).value() == n {
                    net_pruned(old(self).nets@[n], self.nets@[n], device)
                } else {
                    self.nets@[n] == old(self).nets@[n]
                } by {
                    if n == net {
                        assert(nets@[index as int].value() == n);
                    } else if exists|i: int|
                        0 <= i < index + 1 && (#[trigger] nets@[i]).value() == n {
                        let i = choose|i: int|
                            0 <= i < index + 1 && (#[trigger] nets@[i]).value() == n;
                        assert(0 <= i < index);
                        assert(self.nets@[n] == before.nets@[n]);
                    } else {
                        assert(!(exists|i: int| 0 <= i < index && (#[trigger] nets@[i]).value()
                            == n));
                        assert(self.nets@[n] == before.nets@[n]);
                    }
                }
            }
            index = index + 1;
        }
    }

    /// Takes the components of a device off the lists of some islands.
    fn prune_islands(&mut self, islands: &IdList, device: u32)
        requires
            old(self).islands.wf(),
            islands@.no_duplicates(),
            forall|i: u32| #[trigger]
                islands@.contains(i) ==> old(self).islands@.contains_key(i) && forall|k: int|
                    0 <= k < old(self).islands@[i].components@.len() ==> is_component_word(
                        #[trigger] old(self).islands@[i].components@[k],
                    ),
        ensures
            final(self).islands.wf(),
            final(self).islands.spec_slot_count() == old(self).islands.spec_slot_count(),
            final(self).islands.dense_order() == old(self).islands.dense_order(),
            final(self).islands@.dom() == old(self).islands@.dom(),
            forall|i: u32| #[trigger]
                old(self).islands@.contains_key(i) ==> if islands@.contains(i) {
                    island_pruned(old(self).islands@[i], final(self).islands@[i], device)
                } else {
                    final(self).islands@[i] == old(self).islands@[i]
                },
            final(self).nets == old(self).nets,
            final(self).wire_net_map == old(self).wire_net_map,
            final(self).net_island_map == old(self).net_island_map,
            final(self).device_chunks == old(self).device_chunks,
            final(self).invalidation == old(self).invalidation,
    {
        let mut index: usize = 0;
        while index < islands.len()
            invariant
                index <= islands@.len(),
                islands@.no_duplicates(),
                forall|i: u32| #[trigger]
                    islands@.contains(i) ==> old(self).islands@.contains_key(i) && forall|k: int|
                        0 <= k < old(self).islands@[i].components@.len() ==> is_component_word(
                            #[trigger] old(self).islands@[i].components@[k],
                        ),
                self.islands.wf(),
                self.islands.spec_slot_count() == old(self).islands.spec_slot_count(),
                self.islands.dense_order() == old(self).islands.dense_order(),
                self.islands@.dom() == old(self).islands@.dom(),
                forall|i: u32| #[trigger]
                    old(self).islands@.contains_key(i) ==> if islands@.take(
                        index as int,
                    ).contains(i) {
                        island_pruned(old(self).islands@[i], self.islands@[i], device)
                    } else {
                        self.islands@[i] == old(self).islands@[i]
                    },
                self.nets == old(self).nets,
                self.wire_net_map == old(self).wire_net_map,
                self.net_island_map == old(self).net_island_map,
                self.device_chunks == old(self).device_chunks,
                self.invalidation == old(self).invalidation,
            decreases islands@.len() - index,
        {
            let ghost before = *self;
            let island: u32 = islands.get(index);
            let ghost taken = islands@.take(index as int);
            proof {
                assert(islands@.contains(island));
                assert(self.islands@.dom().contains(island));
                assert(!taken.contains(island)) by {
                    if taken.contains(island) {
                        let i = choose|i: int| 0 <= i < taken.len() && taken[i] == island;
                        assert(islands@[i] == islands@[index as int]);
                    }
                }
            }
            self.islands.get_mut(island).remove_device(device);
            proof {
                assert(islands@.take(index + 1) =~= taken.push(island));
                crate::traversal::lemma_push_contains(taken, island);
                assert(self.islands@.dom() =~= old(self).islands@.dom());
                assert forall|i: u32| #[trigger] old(self).islands@.contains_key(
                    i,
                ) implies if islands@.take(index + 1).contains(i) {
                    island_pruned(old(self).islands@[i], self.islands@[i], device)
                } else {
                    self.islands@[i] == old(self).islands@[i]
                } by {
                    if i != island {
                        assert(self.islands@[i] == before.islands@[i]);
                    }
                }
            }
            index = index + 1;
        }
        assert(islands@.take(islands@.len() as int) =~= islands@);
    }
}

/// One more of the listed islands has been repaired.
#[verifier::spinoff_prover]
#[verifier::rlimit(40)]
proof fn lemma_resplit_step(
    t1: DerivedTopology,
    before: DerivedTopology,
    after: DerivedTopology,
    network: Network,
    definitions: DefinitionRegistry,
    broken: Set<u32>,
    taken: Seq<u32>,
    island: u32,
)
    requires
        t1.islands.wf(),
        before.islands.wf(),
        after.islands.wf(),
        t1.islands_resplit(before, taken),
        before.repaired_elsewhere(after, network, definitions, island),
        before.island_repaired(after, island),
        before.components_ok(network, definitions, broken),
        after.components_ok(network, definitions, broken.remove(island)),
        t1.islands@.contains_key(island),
        before.islands@.contains_key(island),
        before.islands@[island].revision == t1.islands@[island].revision,
        !taken.contains(island),
        forall|i: u32| #[trigger] taken.contains(i) ==> t1.islands@.contains_key(i),
    ensures
        t1.islands_resplit(after, taken.push(island)),
{
    broadcast use DenseIdStore::lemma_live;

    let more = taken.push(island);
    crate::traversal::lemma_push_contains(taken, island);
    let base = t1.islands.spec_slot_count();
    assert forall|i: u32| #[trigger] after.islands@.contains_key(i) && i != island && i
        <= before.islands.spec_slot_count() implies before.islands@.contains_key(i) by {
        if !before.islands@.contains_key(i) {
            assert(i > before.islands.spec_slot_count());
        }
    }
    assert forall|i: u32|
        #![trigger after.islands@[i]]
        #![trigger after.islands@.contains_key(i)]
        t1.islands@.contains_key(i) && !more.contains(i) implies after.islands@.contains_key(i)
        && after.islands@[i] == t1.islands@[i] by {
        assert(before.islands@.contains_key(i));
        assert(before.islands@[i] == t1.islands@[i]);
    }
    assert(before.islands@[island] == t1.islands@[island]);
    assert forall|i: u32| #[trigger]
        after.islands@.contains_key(i) && (i == island || !before.islands@.contains_key(
            i,
        )) implies within(after.islands@[i].components@, t1.islands@[island].components@) by {
        assert forall|c: u64| #[trigger] after.islands@[i].components@.contains(c) implies
            before.islands@[island].components@.contains(c) by {
            assert(is_component(network, definitions, c));
            assert(after.component_label(network, c) == i);
            assert(before.islands@.contains_key(before.component_label(network, c)));
        }
    }
    assert forall|i: u32| #[trigger] after.islands@.contains_key(i) && more.contains(i) implies
        after.islands@[i].revision == t1.islands@[i].revision + 1 && within(
        after.islands@[i].components@,
        t1.islands@[i].components@,
    ) by {
        if i != island {
            assert(t1.islands@.contains_key(i));
            assert(i <= base);
            assert(before.islands@.contains_key(i));
            assert(after.islands@[i] == before.islands@[i]);
        }
    }
    assert forall|i: u32| #[trigger]
        after.islands@.contains_key(i) && !t1.islands@.contains_key(i) implies i > base
        && after.islands@[i].revision == 0 && after.split_off(t1, more, i) by {
        if before.islands@.contains_key(i) {
            assert(after.islands@[i] == before.islands@[i]);
            assert(before.split_off(t1, taken, i));
            let kept = choose|kept: u32| #[trigger]
                taken.contains(kept) && before.islands@.contains_key(kept) && before.island_cost(i)
                    <= before.island_cost(kept) && within(
                    before.islands@[i].components@,
                    t1.islands@[kept].components@,
                );
            assert(after.nets_labelled(i) =~= before.nets_labelled(i)) by {
                assert forall|n: u32| #[trigger] after.net_label(n) == i <==> before.net_label(n)
                    == i by {}
            }
            assert(after.nets_labelled(kept) =~= before.nets_labelled(kept)) by {
                assert forall|n: u32| #[trigger]
                    after.net_label(n) == kept <==> before.net_label(n) == kept by {}
            }
            assert(after.islands@[kept] == before.islands@[kept]);
            assert(more.contains(kept));
        } else {
            assert(more.contains(island));
            assert(after.island_cost(i) <= after.island_cost(island));
        }
    }
    assert forall|n: u32| !more.contains(t1.net_label(n)) implies #[trigger] after.net_label(n)
        == t1.net_label(n) by {
        assert(before.net_label(n) == t1.net_label(n));
    }
    let live = after.islands@.contains_key(island);
    let d1 = before.live_among(taken).union(ids_between(base, before.islands.spec_slot_count()));
    let r1 = before.gone_among(taken);
    let d2 = if live {
        ids_between(
            before.islands.spec_slot_count(),
            after.islands.spec_slot_count(),
        ).insert(island)
    } else {
        Set::empty()
    };
    let r2 = if live {
        Set::empty()
    } else {
        set![island]
    };
    assert(r1.disjoint(d2)) by {
        assert forall|i: u32| r1.contains(i) implies !d2.contains(i) by {
            assert(taken.contains(i));
            assert(t1.islands@.contains_key(i));
        }
    }
    t1.invalidation.lemma_marked_more(
        before.invalidation,
        after.invalidation,
        d1,
        r1,
        d2,
        r2,
    );
    assert forall|i: u32| taken.contains(i) implies #[trigger] after.islands@.contains_key(i)
        == before.islands@.contains_key(i) by {
        assert(t1.islands@.contains_key(i));
        assert(i <= base);
    }
    assert(d1.union(d2) =~= after.live_among(more).union(
        ids_between(base, after.islands.spec_slot_count()),
    ));
    assert(r1.union(r2) =~= after.gone_among(more));
}

impl DerivedTopology {
    /// Repairs the islands that a device was in.
    #[verifier::spinoff_prover]
    #[verifier::rlimit(60)]
    fn repair_islands(
        &mut self,
        definitions: &DefinitionRegistry,
        network: &Network,
        scratch: &mut TraversalScratch,
        nets: &Vec<NetId>,
        islands: &IdList,
        Ghost(t0): Ghost<DerivedTopology>,
    )
        requires
            network_ok(*network, *definitions),
            old(self).consistent_except(*network, *definitions, islands@.to_set()),
            islands@.no_duplicates(),
            forall|i: u32| #[trigger]
                islands@.contains(i) ==> {
                    &&& old(self).islands@.contains_key(i)
                    &&& old(self).islands@[i].revision < u64::MAX
                    &&& old(self).islands@[i].components@.len() <= t0.islands@[i].components@.len()
                },
            old(self).islands.spec_slot_count() + component_sum(t0, islands@) <= u32::MAX,
            forall|i: int|
                0 <= i < nets@.len() ==> old(self).nets@.contains_key(
                    (#[trigger] nets@[i]).value(),
                ),
            forall|n: u32| #[trigger]
                old(self).nets@.contains_key(n) && old(self).nets@[n].terminals@.len() == 0
                    && islands@.contains(old(self).net_label(n)) ==> exists|i: int|
                    0 <= i < nets@.len() && (#[trigger] nets@[i]).value() == n,
            old(scratch).wf(),
        ensures
            final(scratch).wf(),
            final(self).consistent_except(*network, *definitions, Set::empty()),
            old(self).islands_resplit(*final(self), islands@),
            old(self).islands_split_in_turn(*final(self), islands@),
    {
        broadcast use DenseIdStore::lemma_live;

        let mut index: usize = 0;
        let ghost t1 = *self;
        proof {
            assert(islands@.skip(0) =~= islands@);
            assert(islands@.take(0) =~= Seq::empty());
            assert(self.live_among(Seq::empty()).union(
                ids_between(self.islands.spec_slot_count(), self.islands.spec_slot_count()),
            ) =~= Set::empty());
            assert(self.gone_among(Seq::empty()) =~= Set::empty());
        }
        while index < islands.len()
            invariant
                index <= islands@.len(),
                network_ok(*network, *definitions),
                self.consistent_except(
                    *network,
                    *definitions,
                    islands@.skip(index as int).to_set(),
                ),
                t1 == *old(self),
                t1.islands.wf(),
                islands@.no_duplicates(),
                forall|i: u32| #[trigger]
                    islands@.contains(i) ==> {
                        &&& t1.islands@.contains_key(i)
                        &&& t1.islands@[i].revision < u64::MAX
                        &&& t1.islands@[i].components@.len() <= t0.islands@[i].components@.len()
                    },
                self.islands.spec_slot_count() + component_sum(t0, islands@.skip(index as int))
                    <= u32::MAX,
                self.nets == t1.nets,
                forall|i: int|
                    0 <= i < nets@.len() ==> t1.nets@.contains_key((#[trigger] nets@[i]).value()),
                forall|n: u32| #[trigger]
                    self.nets@.contains_key(n) && self.nets@[n].terminals@.len() == 0
                        && islands@.skip(index as int).contains(self.net_label(n)) ==> exists|
                        i: int,
                    |
                        0 <= i < nets@.len() && (#[trigger] nets@[i]).value() == n,
                t1.islands_resplit(*self, islands@.take(index as int)),
                t1.islands_split_in_turn(*self, islands@.take(index as int)),
                scratch.wf(),
            decreases islands@.len() - index,
        {
            broadcast use DenseIdStore::lemma_live;

            let ghost before = *self;
            let ghost left = islands@.skip(index as int);
            let ghost next = islands@.skip(index + 1);
            let ghost taken = islands@.take(index as int);
            let ghost broken = left.to_set();
            let island_id: u32 = islands.get(index);
            proof {
                assert(left.drop_first() =~= next);
                assert(left[0] == island_id);
                assert(islands@.contains(island_id));
                assert forall|i: u32| #[trigger] left.contains(i) implies islands@.contains(i)
                    && !taken.contains(i) by {
                    let k = choose|k: int| 0 <= k < left.len() && left[k] == i;
                    assert(islands@[index + k] == i);
                    if taken.contains(i) {
                        let j = choose|j: int| 0 <= j < taken.len() && taken[j] == i;
                        assert(islands@[j] == islands@[index + k]);
                    }
                }
                assert(left.contains(island_id));
                assert(self.islands@.contains_key(island_id));
                assert(self.islands@[island_id] == t1.islands@[island_id]);
                assert forall|i: int| 0 <= i < nets@.len() implies 1 <= (
                #[trigger] nets@[i]).value() <= self.net_island_map@.len() by {
                    assert(self.nets@.contains_key(nets@[i].value()));
                }
            }
            let island_nets = nets_in_island(self, nets, island_id);
            proof {
                assert forall|n: u32| #[trigger]
                    island_nets@.contains(n) implies self.nets@.contains_key(n) by {
                    let i = choose|i: int| 0 <= i < nets@.len() && (#[trigger] nets@[i]).value()
                        == n;
                    assert(t1.nets@.contains_key(nets@[i].value()));
                }
                assert(covers_bare_nets(*self, island_id, island_nets@));
                assert forall|i: u32| #[trigger] broken.contains(i) implies i
                    <= self.islands.spec_slot_count() by {
                    assert(left.contains(i));
                    assert(t1.islands@.contains_key(i));
                }
            }
            self.repair_island(
                definitions,
                network,
                scratch,
                island_id,
                &island_nets,
                Ghost(broken),
            );
            proof {
                assert(islands@.take(index + 1) =~= taken.push(island_id));
                assert(islands@.take(index + 1).drop_last() =~= taken);
                assert forall|i: u32| #[trigger] taken.contains(i) implies t1.islands@.contains_key(
                    i,
                ) by {
                    let j = choose|j: int| 0 <= j < taken.len() && taken[j] == i;
                    assert(islands@.contains(islands@[j]));
                }
                lemma_resplit_step(
                    t1,
                    before,
                    *self,
                    *network,
                    *definitions,
                    broken,
                    taken,
                    island_id,
                );
                before.lemma_island_split(before, *self, island_id);
                before.lemma_nets_split(*self, *network, *definitions, island_id);
                t1.lemma_one_more_split(before, *self, islands@.take(index + 1));
                assert forall|i: u32| #[trigger] next.contains(i) == (left.contains(i) && i
                    != island_id) by {
                    if next.contains(i) {
                        let k = choose|k: int| 0 <= k < next.len() && next[k] == i;
                        assert(left[k + 1] == i);
                        assert(islands@[index + 1 + k] == i);
                        assert(islands@[index as int] == island_id);
                    }
                    if left.contains(i) && i != island_id {
                        let k = choose|k: int| 0 <= k < left.len() && left[k] == i;
                        assert(next[k - 1] == i);
                    }
                }
                assert(broken.remove(island_id) =~= next.to_set());
                assert forall|n: u32| #[trigger]
                    self.nets@.contains_key(n) && self.nets@[n].terminals@.len() == 0
                        && next.contains(self.net_label(n)) implies exists|i: int|
                    0 <= i < nets@.len() && (#[trigger] nets@[i]).value() == n by {
                    let label = self.net_label(n);
                    assert(left.contains(label));
                    assert(islands@.contains(label));
                    assert(t1.islands@.contains_key(label));
                    assert(before.net_label(n) == label);
                }
            }
            index = index + 1;
        }
        proof {
            assert(islands@.take(islands@.len() as int) =~= islands@);
            assert(islands@.skip(islands@.len() as int) =~= Seq::empty());
            assert(Seq::<u32>::empty().to_set() =~= Set::empty());
        }
    }

    /// Follows the network when a device has been taken out.
    #[verifier::spinoff_prover]
    #[verifier::rlimit(60)]
    pub fn remove_device(
        &mut self,
        definitions: &DefinitionRegistry,
        network: &Network,
        scratch: &mut TraversalScratch,
        device: DeviceId,
        prepared: PreparedDeviceTopologyRemoval,
        removal: DeviceRemoveResult,
    )
        requires
            network_ok(*network, *definitions),
            old(self).behind(
                *network,
                *definitions,
                |before: Network, after: Network|
                    before.device_removed(after, device.value(), removal) && old(
                        self,
                    ).removal_prepared(before, *definitions, device.value(), prepared),
            ),
            old(self).has_room_without(prepared),
            old(scratch).wf(),
        ensures
            final(scratch).wf(),
            final(self).consistent(*network, *definitions),
            old(self).islands_resplit(*final(self), prepared.spec_islands()),
            old(self).device_cut(*final(self), device.value(), prepared.spec_islands()),
    {
        broadcast use {group_words, lemma_component_word, DenseIdStore::lemma_live};

        let ghost t0 = *self;
        let ghost d = device.value();
        let ghost before = choose|before: Network| #[trigger]
            self.consistent(before, *definitions) && network_ok(before, *definitions)
                && before.device_removed(*network, d, removal) && t0.removal_prepared(
                before,
                *definitions,
                d,
                prepared,
            );
        let number: u32 = device.get();
        let nets = prepared.affected_nets;
        let islands = prepared.affected_islands;
        proof {
            self.lemma_consistent(before, *definitions);
            self.lemma_room();
            before.arena().lemma_wf();
            assert(before.device_live(d));
            lemma_before_pruning(t0, before, *definitions, d, prepared);
            t0.lemma_removal_prepared(before, *definitions, d, prepared);
        }
        self.prune_nets(&nets, number);
        let ghost pruned = *self;
        self.prune_islands(&islands, number);
        let ghost t2 = *self;
        proof {
            let k = before.arena().chunk_of(d);
            assert(before.arena().resident(d));
            assert(t0.device_chunks@[k].wf());
        }
        self.remove_device_row(removal);
        let ghost t1 = *self;
        proof {
            lemma_row_removed(t0, t1, before, *network, *definitions, d, removal);
            assert forall|n: u32| #[trigger] t0.nets@.contains_key(n) implies net_pruned(
                t0.nets@[n],
                t1.nets@[n],
                d,
            ) by {
                if !(exists|i: int| 0 <= i < nets@.len() && (#[trigger] nets@[i]).value() == n) {
                    lemma_unattached(t0, before, *definitions, d, prepared, n);
                }
            }
            lemma_device_cut(
                t0,
                t1,
                before,
                *network,
                *definitions,
                d,
                removal,
                islands@,
            );
            assert forall|n: u32| #[trigger]
                t1.nets@.contains_key(n) && t1.nets@[n].terminals@.len() == 0 && islands@.contains(
                    t1.net_label(n),
                ) implies exists|i: int|
                0 <= i < nets@.len() && (#[trigger] nets@[i]).value() == n by {
                if !(exists|i: int| 0 <= i < nets@.len() && (#[trigger] nets@[i]).value() == n) {
                    assert(t1.nets@.dom().contains(n));
                    assert(t0.nets@.contains_key(n));
                    assert(t1.nets@[n] == t0.nets@[n]);
                    assert(t0.net_label(n) == t1.net_label(n));
                    assert(t0.islands@.contains_key(t0.net_label(n)));
                }
            }
            assert forall|i: u32| #[trigger] islands@.contains(i) implies {
                &&& t1.islands@.contains_key(i)
                &&& t1.islands@[i].revision < u64::MAX
                &&& t1.islands@[i].components@.len() <= t0.islands@[i].components@.len()
            } by {
                assert(t0.islands@.contains_key(i));
                assert(t1.islands@.dom().contains(i));
            }
            assert forall|i: int| 0 <= i < nets@.len() implies t1.nets@.contains_key(
                (#[trigger] nets@[i]).value(),
            ) by {
                assert(t0.nets@.contains_key(nets@[i].value()));
                assert(t1.nets@.dom().contains(nets@[i].value()));
            }
        }
        self.repair_islands(definitions, network, scratch, &nets, &islands, Ghost(t0));
        proof {
            self.lemma_consistent(*network, *definitions);
            let list = prepared.spec_islands();
            assert forall|n: u32| #[trigger] t1.net_label(n) == t0.net_label(n) by {}
            lemma_device_dropped(t0, t1, d, list);
            assert forall|i: u32| #[trigger] list.contains(i) implies within(
                t1.islands@[i].components@,
                t0.islands@[i].components@,
            ) by {
                assert(t0.islands@.contains_key(i));
            }
            assert(t0.islands_resplit(*self, list)) by {
                assert forall|i: u32|
                    #![trigger self.islands@[i]]
                    #![trigger self.islands@.contains_key(i)]
                    t0.islands@.contains_key(i) && !list.contains(i) implies
                    self.islands@.contains_key(i) && self.islands@[i] == t0.islands@[i] by {
                    assert(t1.islands@.dom().contains(i));
                    assert(t1.islands@[i] == t0.islands@[i]);
                }
                assert forall|i: u32| #[trigger]
                    self.islands@.contains_key(i) && list.contains(i) implies
                    self.islands@[i].revision == t0.islands@[i].revision + 1 && within(
                    self.islands@[i].components@,
                    t0.islands@[i].components@,
                ) by {
                    assert(t0.islands@.contains_key(i));
                    assert(within(t1.islands@[i].components@, t0.islands@[i].components@));
                }
                assert forall|i: u32| #[trigger]
                    self.islands@.contains_key(i) && !t0.islands@.contains_key(i) implies i
                    > t0.islands.spec_slot_count() && self.islands@[i].revision == 0
                    && self.split_off(t0, list, i) by {
                    assert(!t1.islands@.dom().contains(i));
                    assert(self.split_off(t1, list, i));
                    let kept = choose|kept: u32| #[trigger]
                        list.contains(kept) && self.islands@.contains_key(kept) && self.island_cost(
                            i,
                        ) <= self.island_cost(kept) && within(
                            self.islands@[i].components@,
                            t1.islands@[kept].components@,
                        );
                    assert(list.contains(kept));
                    assert(within(t1.islands@[kept].components@, t0.islands@[kept].components@));
                }
                assert forall|n: u32| !list.contains(t0.net_label(n)) implies #[trigger]
                    self.net_label(n) == t0.net_label(n) by {
                    assert(t1.net_label(n) == t0.net_label(n));
                }
            }
        }
    }
}

/// Once its components are off the lists of its islands, a device is dropped.
proof fn lemma_device_dropped(
    t0: DerivedTopology,
    t1: DerivedTopology,
    device: u32,
    affected: Seq<u32>,
)
    requires
        t1.nets@.dom() == t0.nets@.dom(),
        forall|n: u32| #[trigger]
            t0.nets@.contains_key(n) ==> net_pruned(t0.nets@[n], t1.nets@[n], device),
        t1.wire_net_map == t0.wire_net_map,
        t1.net_island_map == t0.net_island_map,
        t1.islands@.dom() == t0.islands@.dom(),
        t1.islands.spec_slot_count() == t0.islands.spec_slot_count(),
        t1.islands.dense_order() == t0.islands.dense_order(),
        t1.invalidation == t0.invalidation,
        forall|i: u32| #[trigger]
            t0.islands@.contains_key(i) ==> if affected.contains(i) {
                island_pruned(t0.islands@[i], t1.islands@[i], device)
            } else {
                t1.islands@[i] == t0.islands@[i]
            },
    ensures
        t0.device_dropped(t1, device, affected),
{
    t0.lemma_model();
    t1.lemma_model();
    t0.lemma_island_slots();
    t1.lemma_island_slots();
    assert forall|w: u32| #[trigger] t1.wire_net_spec(w) == t0.wire_net_spec(w) by {
        t0.lemma_wire_net(w);
        t1.lemma_wire_net(w);
    }
    assert forall|n: u32| #[trigger] t1.has_net(n) == t0.has_net(n) by {
        assert(t1.nets@.dom().contains(n) == t0.nets@.dom().contains(n));
    }
    assert forall|n: u32| t0.has_net(n) implies {
        let new = #[trigger] t1.net_at(n);
        let old = t0.net_at(n);
        &&& new.spec_wires() == old.spec_wires()
        &&& new.spec_components() == pruned(old.spec_components(), device)
    } by {
        assert(t0.nets@.contains_key(n));
        t0.nets@[n].lemma_lists();
        t1.nets@[n].lemma_lists();
    }
    assert forall|n: u32| #[trigger] t1.net_island_spec(n) == t0.net_island_spec(n) by {
        assert(t1.net_label(n) == t0.net_label(n));
    }
    assert forall|i: u32| #[trigger] t1.has_island(i) == t0.has_island(i) by {
        assert(t1.islands@.dom().contains(i) == t0.islands@.dom().contains(i));
    }
    assert forall|i: u32| t0.has_island(i) implies {
        let new = #[trigger] t1.island_at(i);
        let old = t0.island_at(i);
        &&& new.spec_revision() == old.spec_revision()
        &&& new.spec_components() == if affected.contains(i) {
            without_device(old.spec_components(), device)
        } else {
            old.spec_components()
        }
    } by {
        assert(t0.islands@.contains_key(i));
        t0.islands@[i].lemma_list();
        t1.islands@[i].lemma_list();
    }
}

/// What can be taken from the notes on the removal of a device.
proof fn lemma_before_pruning(
    t0: DerivedTopology,
    before: Network,
    definitions: DefinitionRegistry,
    device: u32,
    prepared: PreparedDeviceTopologyRemoval,
)
    requires
        network_ok(before, definitions),
        t0.consistent_except(before, definitions, Set::empty()),
        before.device_live(device),
        t0.removal_prepared(before, definitions, device, prepared),
    ensures
        forall|i: int|
            0 <= i < prepared.affected_nets@.len() ==> t0.nets@.contains_key(
                (#[trigger] prepared.affected_nets@[i]).value(),
            ),
        forall|n: u32| #[trigger] t0.nets@.contains_key(n) ==> net_paired(t0.nets@[n]),
        forall|i: u32| #[trigger]
            prepared.affected_islands@.contains(i) ==> t0.islands@.contains_key(i) && forall|k: int|
                0 <= k < t0.islands@[i].components@.len() ==> is_component_word(
                    #[trigger] t0.islands@[i].components@[k],
                ),
        forall|c: u64| #[trigger]
            is_component(before, definitions, c) && component_device(c) == device
                ==> prepared.affected_islands@.contains(t0.component_label(before, c)),
{
    broadcast use {group_words, lemma_component_word, DenseIdStore::lemma_live};

    let terminals = before.device_model(device).terminals;
    before.arena().lemma_wf();
    t0.lemma_removal_prepared(before, definitions, device, prepared);
    assert forall|i: int| 0 <= i < prepared.affected_nets@.len() implies t0.nets@.contains_key(
        (#[trigger] prepared.affected_nets@[i]).value(),
    ) by {
        let net = prepared.affected_nets@[i].value();
        assert(prepared.spec_nets()[i] == net);
        assert(nets_at(t0, terminals)[i] == net);
        assert(nets_at(t0, terminals).contains(net));
        lemma_nets_at_source(t0, terminals, net);
        let j = choose|j: int|
            0 <= j < terminals.len() && #[trigger] terminals[j] is Some && !is_terminal_word(
                terminals[j]->Some_0.word(),
            ) && t0.net_of(word_id(terminals[j]->Some_0.word())) == net && net != 0;
        let w = word_id(terminals[j]->Some_0.word());
        assert(before.wire_live(w)) by {
            if !before.wire_live(w) {
                assert(t0.net_of(w) == 0);
            }
        }
    }
    assert forall|n: u32| #[trigger] t0.nets@.contains_key(n) implies net_paired(t0.nets@[n]) by {
        assert(t0.net_lists(before, definitions, n));
        let net = t0.nets@[n];
        assert forall|i: int| 0 <= i < net.terminals@.len() implies is_component_word(
            #[trigger] net.terminal_components@[i],
        ) && component_device(net.terminal_components@[i]) == word_id(net.terminals@[i])
            && is_terminal_word(net.terminals@[i]) by {
            let x = net.terminals@[i];
            assert(net.terminals@.contains(x));
            assert(t0.attached(before, x, n));
            let y = choose|y: u64| #[trigger]
                before.linked(x, y) && !is_terminal_word(y) && t0.net_of(word_id(y)) == n;
            lemma_linked_live(before, definitions, x, y);
        }
    }
    assert forall|c: u64| #[trigger]
        is_component(before, definitions, c) && component_device(c)
            == device implies prepared.affected_islands@.contains(
        t0.component_label(before, c),
    ) by {
        let p = component_partition(c) as int;
        assert(t0.device_chunks@[before.arena().chunk_of(device)].island(
            before.arena().row_of(device),
            p,
        ) == t0.component_label(before, c));
        assert(prepared.spec_islands().contains(t0.component_label(before, c)));
    }
    assert forall|i: u32| #[trigger] prepared.affected_islands@.contains(i) implies
        t0.islands@.contains_key(i) && forall|k: int|
        0 <= k < t0.islands@[i].components@.len() ==> is_component_word(
            #[trigger] t0.islands@[i].components@[k],
        ) by {
        assert(prepared.spec_islands().contains(i));
        let p = choose|p: int|
            0 <= p < partition_count(before, definitions, device) && #[trigger]
            t0.device_chunks@[before.arena().chunk_of(device)].island(
                before.arena().row_of(device),
                p,
            ) == i;
        before.arena().lemma_fits(definitions, device);
        let id = before.device_model(device).definition.value();
        assert(definitions.spec_definitions()[id - 1].wf());
        assert(p <= u16::MAX);
        let c = component_word(device, p as u16);
        assert(device != 0) by {
            assert(before.arena().resident(device));
        }
        assert(is_component(before, definitions, c));
        assert(t0.component_label(before, c) == i);
        assert forall|k: int| 0 <= k < t0.islands@[i].components@.len() implies is_component_word(
            #[trigger] t0.islands@[i].components@[k],
        ) by {
            assert(t0.islands@[i].components@.contains(t0.islands@[i].components@[k]));
        }
    }
}

/// A net that the notes do not name has no terminal of the device.
proof fn lemma_unattached(
    t0: DerivedTopology,
    before: Network,
    definitions: DefinitionRegistry,
    device: u32,
    prepared: PreparedDeviceTopologyRemoval,
    net: u32,
)
    requires
        network_ok(before, definitions),
        t0.consistent_except(before, definitions, Set::empty()),
        before.device_live(device),
        t0.removal_prepared(before, definitions, device, prepared),
        t0.nets@.contains_key(net),
        net_paired(t0.nets@[net]),
        !(exists|i: int|
            0 <= i < prepared.affected_nets@.len() && (
            #[trigger] prepared.affected_nets@[i]).value() == net),
    ensures
        net_pruned(t0.nets@[net], t0.nets@[net], device),
{
    broadcast use {group_words, DenseIdStore::lemma_live};

    let terminals = before.device_model(device).terminals;
    let model = t0.nets@[net];
    assert(t0.net_lists(before, definitions, net));
    assert forall|i: int| 0 <= i < model.terminals@.len() implies has_entry(
        model,
        #[trigger] model.terminals@[i],
        model.terminal_components@[i],
    ) by {}
    assert forall|i: int| 0 <= i < model.terminal_components@.len() implies component_device(
        #[trigger] model.terminal_components@[i],
    ) != device by {
        let x = model.terminals@[i];
        assert(model.terminals@.contains(x));
        assert(t0.attached(before, x, net));
        if word_id(x) == device {
            let y = choose|y: u64| #[trigger]
                before.linked(x, y) && !is_terminal_word(y) && t0.net_of(word_id(y)) == net;
            let t = word_terminal(x) as int;
            assert(terminals[t] is Some && terminals[t]->Some_0.word() == y);
            lemma_nets_at(t0, terminals, t);
            let all = nets_at(t0, terminals);
            let k = choose|k: int| 0 <= k < all.len() && all[k] == net;
            assert(prepared.spec_nets()[k] == net);
            assert(prepared.affected_nets@[k].value() == net);
        }
    }
    lemma_nothing_to_prune(model, model, device);
}

/// Taking a device out leaves all wires in their nets, and all islands that the device was not in as
/// they are. New islands get identifiers that no island had before.
pub proof fn law_removing_a_device_leaves_the_rest_alone(
    topology: DerivedTopology,
    after: DerivedTopology,
    affected: Seq<u32>,
)
    requires
        topology.islands_resplit(after, affected),
    ensures
        forall|w: u32| #[trigger] after.wire_net_spec(w) == topology.wire_net_spec(w),
        forall|n: u32| #[trigger] after.has_net(n) == topology.has_net(n),
        forall|i: u32|
            topology.has_island(i) && !affected.contains(i) ==> #[trigger] after.has_island(i)
                && after.island_at(i) == topology.island_at(i),
        forall|i: u32| #[trigger]
            after.has_island(i) && affected.contains(i) ==> after.island_at(i).spec_revision()
                == topology.island_at(i).spec_revision() + 1,
        forall|i: u32| #[trigger]
            after.has_island(i) && !topology.has_island(i) ==> i > topology.spec_island_slots()
                && after.island_at(i).spec_revision() == 0,
{
    topology.lemma_model();
    after.lemma_model();
    topology.lemma_island_slots();
    assert forall|w: u32| #[trigger] after.wire_net_spec(w) == topology.wire_net_spec(w) by {
        topology.lemma_wire_net(w);
        after.lemma_wire_net(w);
    }
    assert forall|n: u32| #[trigger] after.has_net(n) == topology.has_net(n) by {
        assert(after.nets@.dom().contains(n) == topology.nets@.dom().contains(n));
    }
    assert forall|i: u32|
        topology.has_island(i) && !affected.contains(i) implies #[trigger] after.has_island(i)
        && after.island_at(i) == topology.island_at(i) by {
        assert(after.islands@.contains_key(i));
    }
    assert forall|i: u32| #[trigger] after.has_island(i) && affected.contains(i) implies after.island_at(
        i,
    ).spec_revision() == topology.island_at(i).spec_revision() + 1 by {
        after.islands@[i].lemma_list();
        topology.islands@[i].lemma_list();
        assert(after.islands@.contains_key(i));
    }
    assert forall|i: u32| #[trigger] after.has_island(i) && !topology.has_island(i) implies i
        > topology.spec_island_slots() && after.island_at(i).spec_revision() == 0 by {
        after.islands@[i].lemma_list();
        assert(after.islands@.contains_key(i));
    }
}

/// Which islands survive when a device is taken out, and what is marked. The components of an island
/// stay in it or go to new islands, which hold nothing else; of these parts, the one that would take
/// the most to rewrite keeps the identifier. What is left of the islands of the device is marked,
/// and so are the new islands; those that are gone are marked as gone.
pub proof fn law_removing_a_device_splits_islands(
    topology: DerivedTopology,
    after: DerivedTopology,
    affected: Seq<u32>,
)
    requires
        topology.islands_resplit(after, affected),
    ensures
        forall|i: u32| #[trigger]
            after.has_island(i) && affected.contains(i) ==> within(
                after.island_at(i).spec_components(),
                topology.island_at(i).spec_components(),
            ),
        forall|i: u32| #[trigger]
            after.has_island(i) && !topology.has_island(i) ==> exists|kept: u32| #[trigger]
                affected.contains(kept) && after.has_island(kept) && after.rewrite_cost(i)
                    <= after.rewrite_cost(kept) && within(
                    after.island_at(i).spec_components(),
                    topology.island_at(kept).spec_components(),
                ),
        topology.spec_invalidation().marked_more(
            after.spec_invalidation(),
            Set::new(|i: u32| affected.contains(i) && after.has_island(i)).union(
                ids_between(topology.spec_island_slots(), after.spec_island_slots()),
            ),
            Set::new(|i: u32| affected.contains(i) && !after.has_island(i)),
        ),
{
    topology.lemma_model();
    after.lemma_model();
    topology.lemma_island_slots();
    after.lemma_island_slots();
    assert forall|i: u32| #[trigger] after.has_island(i) && affected.contains(i) implies within(
        after.island_at(i).spec_components(),
        topology.island_at(i).spec_components(),
    ) by {
        assert(after.islands@.contains_key(i));
        after.islands@[i].lemma_list();
        topology.islands@[i].lemma_list();
    }
    assert forall|i: u32| #[trigger]
        after.has_island(i) && !topology.has_island(i) implies exists|kept: u32| #[trigger]
        affected.contains(kept) && after.has_island(kept) && after.rewrite_cost(i)
            <= after.rewrite_cost(kept) && within(
            after.island_at(i).spec_components(),
            topology.island_at(kept).spec_components(),
        ) by {
        assert(after.islands@.contains_key(i));
        assert(after.split_off(topology, affected, i));
        let kept = choose|kept: u32| #[trigger]
            affected.contains(kept) && after.islands@.contains_key(kept) && after.island_cost(i)
                <= after.island_cost(kept) && within(
                after.islands@[i].components@,
                topology.islands@[kept].components@,
            );
        after.lemma_rewrite_cost(i);
        after.lemma_rewrite_cost(kept);
        after.islands@[i].lemma_list();
        topology.islands@[kept].lemma_list();
        assert(affected.contains(kept) && after.has_island(kept));
    }
    assert(Set::new(|i: u32| affected.contains(i) && after.has_island(i)) =~= after.live_among(
        affected,
    ));
    assert(Set::new(|i: u32| affected.contains(i) && !after.has_island(i)) =~= after.gone_among(
        affected,
    ));
}

} // verus!
