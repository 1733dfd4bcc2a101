//! Collections implemented in terms of the store traits.

pub mod concurrent_vec;
pub mod linked_list;
pub mod storage_box;
pub mod store_box;
pub mod store_vec;
pub mod skip_list;

pub use concurrent_vec::ConcurrentVec;
pub use linked_list::LinkedList;
pub use storage_box::StorageBox;
pub use store_box::StoreBox;
pub use store_vec::StoreVec;
pub use skip_list::SkipList;
