//! Memory-management core of an embedded real-time runtime.
//!
//! The crate revolves around [`heap`], a deterministic allocator built from
//! an array of fixed-block-size pools. Allocation picks the smallest pool
//! whose blocks fit the request and falls back to larger pools when that one
//! is exhausted; deallocation finds the owning pool from the address alone.
//! Free blocks are chained through their own first machine word, so the
//! allocator keeps no record of individual allocations.
//!
//! Around it stand the interfaces of what runs on top of the heap: [`fib`]
//! declares what a fiber is, and [`sync`] holds the sending half of a
//! one-shot channel between fibers.
//!
//! Every function of the crate is verified against a contract stated over a
//! mathematical view of the data it works on.

pub mod fib;
pub mod heap;
pub mod sync;
