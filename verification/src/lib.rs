//! Per-node engine of a distributed discrete-event Petri-net simulator.
//!
//! The global net is partitioned over a fixed cohort of peer nodes; each node
//! owns a disjoint set of transitions and advances its local clock under the
//! conservative (Chandy-Misra-Bryant) rule: never past a time at which a peer
//! could still send an event.  Null messages ("passive events") keep the
//! cohort live.

pub mod bootstrap;
pub mod codec;
pub mod engine;
pub mod error;
pub mod json;
pub mod model;
