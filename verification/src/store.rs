//! Concrete store backends.

pub mod allocator_store;
pub mod inline_bump_store;
pub mod inline_single_store;

pub use allocator_store::{AllocatorStore, NonAllocator};
pub use inline_bump_store::InlineBumpStore;
pub use inline_single_store::InlineSingleStore;
