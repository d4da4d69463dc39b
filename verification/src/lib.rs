//! A least-frequently-used cache with least-recently-used tie-breaking.

pub mod helper;
pub mod laws;
pub mod lfu;
mod links;
pub mod model;
