//! A simulated recommendation ecosystem: a weighted graph of tags, items and
//! sheep that grows epoch by epoch, a response model driven by graph
//! distance, and the bookkeeping of the shepherds that recommend items.

pub mod ids;
pub mod feed;
mod rng;
pub mod sheep;
pub mod graph;
pub mod shepherd;
pub mod simulation;
