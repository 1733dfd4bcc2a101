//! A flexible memory-store abstraction.
//!
//! Instead of returning raw addresses, a store hands out opaque handles whose
//! resolution may change over time. The contract of every operation states
//! exactly which handles stay valid and which block contents are preserved,
//! so that data structures can be written once against the abstraction.

pub mod collection;
pub mod extension;
pub mod interface;
pub mod order;
pub mod storage;
pub mod store;

pub use interface::{AllocError, Handle, Layout};
