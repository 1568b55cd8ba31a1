//! A verified Kademlia-style distributed hash table engine.
//!
//! The crate holds the pure core of a DHT node: the XOR key space, the
//! bucketed routing table, the local record/provider store, the iterative
//! query state machine, and the node facade that ties them together.
//! Network transport and clocks are collaborators: callers perform the
//! sends and probes this core asks for and feed the results back in.

pub mod keyspace;
pub mod routing;
pub mod store;
pub mod query;
pub mod commands;
pub mod node;
