//! A key-value store with XOR range hashing and a set-reconciliation
//! protocol built on top of it.
//!
//! The container keeps, next to every entry, a 64-bit digest of the
//! key/value pair; the XOR of the digests over any key range can be
//! queried efficiently and is independent of insertion order.  Two
//! instances compare such range hashes to narrow their disagreement
//! down to the individual entries that differ.

pub mod diff;
pub mod gen_ip;
pub mod hash;
pub mod hvec;
pub mod map;
pub mod range_compare;
pub mod reconcilable;
pub mod service;
pub mod timeout_wheel;
