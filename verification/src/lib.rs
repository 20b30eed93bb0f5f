//! A digital-logic circuit evaluator.
//!
//! A circuit is an arbitrary, possibly cyclic, directed graph of boolean
//! gates.  Gate nodes own fixed-arity input and output connections (ports),
//! and wires (nets) carry a two-valued signal from one producing connection
//! to any number of consuming connections.  The whole graph is re-evaluated
//! once per discrete simulation tick in two strict phases: a compute phase,
//! in which every node reads the values its input wires settled on during
//! the previous tick and stages new values on its output wires, and a
//! commit phase, in which every wire makes its staged value visible.  The
//! global barrier between the phases gives cyclic networks (feedback loops)
//! a deterministic, order-independent semantics: a cycle takes one tick per
//! traversed hop, like a synchronous digital system with a one-unit delay.
//!
//! The editor or renderer embedding this crate mutates the graph between
//! ticks through the lifecycle operations (`create_node`, `create_wire`,
//! `attach`, `detach`, `delete_entity`, `sweep_dangling`) and reads wire,
//! connection and node state back through the accessors.

use vstd::prelude::*;

pub mod graph;
pub mod laws;
pub mod nodes;
pub mod resources;
pub mod sim;

verus! {

} // verus!
