//! Single-producer, single-consumer communication.

pub mod oneshot;
