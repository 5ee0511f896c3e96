//! A simulator of electrical networks by modified nodal analysis: the verified part.
//!
//! - Definitions of devices: [`parameter`], [`circuit`], [`definition`], [`builder`], [`registry`],
//!   and their binary form in [`protocol`].
//! - Networks of wires and devices: [`network`] on [`device_arena`], with packed references from
//!   [`connection`].
//! - The nets and islands of a network, kept up to date while it changes: [`topology`] and the
//!   modules named after it.
//! - Systems of equations: [`pattern`], [`mna_system`], [`matrix_program`].
//! - Solving an island tick by tick: [`island_tick`] on [`bindings`], [`island_runtime`],
//!   [`solve_control`] and [`discrete`].
//! - What callers in other languages are answered: [`abi`] and [`mna_abi`].
//! - What can be relied on, told by inputs and results alone: definitions in [`primitive_laws`],
//!   [`number_laws`] and [`builder_laws`]; their binary form in [`protocol_laws`] and
//!   [`buffer_laws`]; networks in [`network_laws`] and [`topology_laws`]; equations in
//!   [`matrix_laws`]; ticks in [`binding_laws`], [`runtime_laws`], [`solve_laws`], [`step_laws`]
//!   and [`tick_laws`]; answers in [`abi_laws`].
//!
//! Numbers are kept as bit patterns; their order is defined in [`float_bits`]. Arithmetic on them
//! happens outside of this crate, between steps that the crate decides on.

use vstd::prelude::*;

pub mod abi;
pub mod abi_laws;
pub mod binding_laws;
pub mod bindings;
pub mod buffer_laws;
pub mod builder;
pub mod builder_laws;
pub mod circuit;
pub mod connection;
pub mod decoder;
pub mod definition;
pub mod dense_store;
pub mod device_arena;
pub mod device_chunk;
pub mod device_topology;
pub mod discrete;
pub mod float_bits;
pub mod graph;
pub mod ids;
pub mod invalidation;
pub mod island_repair;
pub mod island_runtime;
pub mod island_tick;
pub mod island_traversal;
pub mod matrix_laws;
pub mod matrix_program;
pub mod mna_abi;
pub mod mna_system;
pub mod net_repair;
pub mod network;
pub mod network_error;
pub mod network_laws;
pub mod number_laws;
pub mod parameter;
pub mod pattern;
pub mod primitive_laws;
pub mod protocol;
pub mod protocol_laws;
pub mod registry;
pub mod runtime_laws;
pub mod scratch;
pub mod small_list;
pub mod solve_control;
pub mod solve_laws;
pub mod step_laws;
pub mod stride;
pub mod tick_laws;
pub mod topology;
pub mod topology_attach;
pub mod topology_cuts;
pub mod topology_device_cuts;
pub mod topology_devices;
pub mod topology_growth;
pub mod topology_joins;
pub mod topology_laws;
pub mod topology_links;
pub mod topology_queries;
pub mod topology_rebuild;
pub mod topology_steps;
pub mod topology_wire_cuts;
pub mod topology_wiring;
pub mod traversal;
mod union_find;
pub mod workspace;

verus! {

} // verus!
