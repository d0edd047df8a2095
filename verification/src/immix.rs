//! The heap of a process.
pub mod block;
