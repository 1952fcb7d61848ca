//! Tracking core of a memory profiler: live allocations attributed to call
//! stacks, with a snapshot of the allocations present at peak memory usage,
//! and a map of address ranges that supports partial removal.

pub mod addresses;
pub mod allocations;
pub mod memorytracking;
pub mod model;
pub mod rangemap;
pub mod text;
