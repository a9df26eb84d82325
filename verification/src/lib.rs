//! Coordination core of a timely-dataflow style runtime: the antichain and
//! frontier machinery that progress tracking uses to maintain minimal sets
//! of partially ordered timestamps, and the pure decision logic of worker
//! bootstrap and channel allocation.

pub mod order;
pub mod frontier;
pub mod mutable;
pub mod config;
pub mod bootstrap;
