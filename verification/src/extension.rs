//! Thin typed wrappers over raw handles.

pub mod sized;
pub mod typed;
pub mod typed_metadata;
pub mod typed_single;
pub mod unique;
pub mod unique_single;

pub use sized::SizedHandle;
pub use typed::TypedHandle;
pub use typed_metadata::TypedMetadata;
pub use typed_single::TypedSingleHandle;
pub use unique::UniqueHandle;
pub use unique_single::UniqueSingleHandle;
