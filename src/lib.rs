//! Core library of a peer-to-peer file-distribution engine: content metadata,
//! the wire protocol, the piece storage engine and the piece scheduler.
//!
//! Everything here is plain computation with contracts. Reading and writing
//! files, sockets and the resume database is left to the caller, which hands
//! this library plain values and performs the actions it returns.

use vstd::prelude::*;

pub mod error;
pub mod crypto;
pub mod bitfield;
pub mod be_bytes;
pub mod protocol;
pub mod metadata;
pub mod canonical;
pub mod order;
pub mod storage;
pub mod scheduler;
pub mod peer;
pub mod client;

verus! {

/// Version of this library, as carried in the `created_by` field of new metadata.
pub const VERSION: &'static str = "0.1.0";

/// Name of the client.
pub const NAME: &'static str = "BitSwapTorrent";

} // verus!
