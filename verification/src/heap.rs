//! Dynamic memory allocation.
//!
//! The allocator is an array of fixed-size memory pools laid out back to back
//! in one region. It gives constant-time allocation and deallocation without
//! per-allocation metadata, at the price of having to be tuned for the
//! application.
//!
//! # Configuration
//!
//! A [`HeapConfig`] declares the size of the region and the pools that share
//! it, smallest blocks first. The pools must fill the region exactly:
//!
//! ```text
//! size  = 0x40000
//! pools = [0x4; 0x4000], [0x20; 0x800], [0x100; 0x100], [0x800; 0x20]
//! ```
//!
//! # Initialization
//!
//! [`Allocator::new`] fixes the geometry; [`Allocator::init`] binds it to the
//! address where the region starts and threads every block onto the free list
//! of its pool. Until then no block is free.
//!
//! # Operation
//!
//! Allocation steps:
//!
//! 1. Given the size to allocate, binary search for the pool with the
//!    smallest blocks that fit it: *O(log N)* for *N* pools.
//!
//! 2. Take a free block from the pool: *O(1)*. If the pool is exhausted,
//!    retry with the next bigger pool.
//!
//! Deallocation steps:
//!
//! 1. Given the address to release, binary search for the pool whose address
//!    range holds it: *O(log N)*.
//!
//! 2. Put the block back on the free list of that pool: *O(1)*.
//!
//! # Memory and sharing
//!
//! The allocator deals in addresses as numbers. It never reads or writes the
//! memory behind them; of each block it keeps the one word that a free block
//! lends to the free list, and nothing of a block that is handed out.
//!
//! Every operation moves the head of a free list by a single
//! compare-and-exchange and takes the allocator by exclusive reference, so
//! operations are indivisible with respect to each other. What is proved of
//! them holds of every order in which complete operations of several
//! contexts may follow one another.

pub mod allocator;
pub mod config;
pub mod head;
pub mod pool;
pub mod theorems;

pub use self::allocator::{AllocError, Allocator, AllocatorView, ContractViolation};
pub use self::config::{ConfigError, HeapConfig, PoolConfig};
pub use self::head::{BlockAddress, EMPTY};
pub use self::pool::{Pool, PoolView};
