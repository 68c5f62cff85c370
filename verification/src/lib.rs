//! Discrete-time simulation of classic operating-system resource managers:
//! CPU scheduling (first come first serve, round robin) and page replacement
//! (first in first out, least frequently used), with the workloads that feed
//! them and the metrics that come out.
pub mod custom_gen;
pub mod frequency_table;
pub mod horizon;
pub mod json;
pub mod pager_gen;
pub mod paging;
mod random;
pub mod scheduler;
pub mod scheduler_gen;
pub mod simulation;
pub mod sorting;
pub mod text;
pub mod theorems;
