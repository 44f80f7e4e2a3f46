//! A segmented, append-only message log: size-bounded segments with offset
//! and time indexes, partitions that chain segments, and the containers
//! that aggregate byte and message counters above them.

pub mod chain;
mod clock;
pub mod configs;
pub mod connection;
pub mod counters;
pub mod error;
pub mod index;
pub mod log;
pub mod lookup;
pub mod message;
pub mod partition;
pub mod segment;
pub mod stream;
pub mod system;
pub mod topic;
pub mod wire;
