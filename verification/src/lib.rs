//! Analysis of a network topology of block-producing and relay nodes, and
//! the vote records that nodes sign.
//!
//! The topology is held as an indexed graph: node `i` of [`graph::Topology`]
//! lists, in order, the nodes it fetches blocks from (its producers).

pub mod graph;
pub mod bfs;
pub mod network;
pub mod hops;
pub mod bls;
pub mod vote;
