//! An ownership-gated content-identifier (CID) registry.
//!
//! Each registered account tracks the latest content identifier published by
//! its owner together with a monotonically increasing publication counter.
//! Accounts are created exactly once, writes are authenticated against the
//! owner credential, and the whole store can be serialized to a byte snapshot
//! and restored from it, exactly.

pub mod codec;
pub mod pubkey;
pub mod store;
