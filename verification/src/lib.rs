//! A partitioned, iteration-bounded PageRank engine.
//!
//! Edges arrive tagged with an epoch and are routed to the partition that
//! owns their source. A partition stashes what arrives until the barrier of
//! its epoch holds, then takes the edges into its graph store and seeds the
//! propagation, or adds up the contributions that reached each of its nodes,
//! gives every node its new rank and sends the new ranks on. What a round
//! sends out is fed back as the input of the next epoch, for a fixed number
//! of rounds.
//!
//! Ranks are fixed-point numbers: a `u64` counts billionths of a unit of
//! rank, so every step of the update rule is exact integer arithmetic with a
//! stated rounding direction.

pub mod barrier;
pub mod contribution;
pub mod controller;
pub mod edge_list;
pub mod graph;
pub mod name_set;
pub mod partition;
pub mod passes;
pub mod rank;
pub mod router;
pub mod stash;
pub mod timestamp;
