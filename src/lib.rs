//! A struct-of-arrays container: each field of a record lives in its own
//! buffer, and all buffers are kept in lock-step.
mod buffer;
pub mod laws;
pub mod permutation;
pub mod range;
pub mod soa;
pub mod sorting;
