//! A pool that hands out unique non-negative indices and takes them back,
//! always reusing the lowest free index first. Freed indices below the
//! frontier are kept as maximally coalesced ranges.

pub mod free_list;
pub mod iter;
pub mod pool;

pub use pool::{AlreadyInUse, AlreadyReturned, IndexPool};
