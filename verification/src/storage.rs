//! Store backends under the shared-access contract.

pub mod allocator_storage;
pub mod inline_single_storage;

pub use allocator_storage::AllocatorStorage;
pub use inline_single_storage::InlineSingleStorage;
