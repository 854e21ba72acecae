//! Synchronization primitives.

pub mod spsc;
