//! Virtual memory: Sv32 and Sv39 page tables over a pool of physical frames.
//!
//! - `arch`: the two translation schemes and their geometry.
//! - `entry`: page-table entries, the per-level index of an address, the
//!   translation-root register.
//! - `pool`: the frames in which tables live, and their contents.
//! - `tree`: which table an address reaches at each depth, and what it
//!   means for the tables under a root to form a tree.
//! - `ptable`: the handle to one table.
//! - `walk`: from a root to the leaf entry of an address.
//! - `map`: mapping a range of pages.
//! - `kernel`: the kernel's identity-mapped address space.
//! - `shared`: several trees in one pool.

pub mod arch;
pub mod entry;
pub mod kernel;
pub mod map;
pub mod pool;
pub mod ptable;
pub mod shared;
pub mod tree;
pub mod walk;
