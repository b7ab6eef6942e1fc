//! A cache-aside layer in front of a process executor.
//!
//! Given a description of a process to run, the library computes a
//! deterministic content address for it, looks that address up in a
//! content-addressed store, and only executes the process when no usable
//! entry is found.  A hit reconstructs the complete execution outcome from
//! the stored bytes; a miss executes, then stores the encoded outcome.

use vstd::prelude::*;

pub mod canon;
pub mod codec;
pub mod digest;
pub mod hash;
pub mod result;
pub mod runner;
pub mod store;
pub mod wire;

verus! {

/// Number of bytes in a content hash.
pub const FINGERPRINT_LEN: usize = 32;

} // verus!
