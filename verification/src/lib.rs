//! Two-way partitioning of weighted items by the largest differencing method
//! of Karmarkar and Karp, with machine-checked contracts.
//!
//! `ldm` holds the partitioner and its result type, `differencing` says as
//! mathematics what the method computes and proves what holds of every
//! result, and `heap` is the priority queue that the partitioner runs on.
pub mod differencing;
mod heap;
pub mod ldm;
mod order;
