//! The metadata carried by a typed handle: the number of slots of its block.

use core::marker::PhantomData;

use vstd::prelude::*;

verus! {

/// The metadata of a typed block: how many slots of `T` it holds.
#[derive(Clone, Copy, Debug)]
pub struct TypedMetadata<T> {
    len: usize,
    _marker: PhantomData<T>,
}

impl<T> TypedMetadata<T> {
    /// The slot count the metadata records.
    pub closed spec fn spec_len(&self) -> int {
        self.len as int
    }

    /// The metadata of a single-value block.
    pub fn new() -> (r: Self)
        ensures
            r.spec_len() == 1,
    {
        TypedMetadata { len: 1, _marker: PhantomData }
    }

    /// Builds the metadata recording `len` slots.
    pub fn from_metadata(len: usize) -> (r: Self)
        ensures
            r.spec_len() == len,
    {
        TypedMetadata { len, _marker: PhantomData }
    }

    /// Returns the recorded slot count.
    pub fn get(&self) -> (r: usize)
        ensures
            r == self.spec_len(),
    {
        self.len
    }
}

impl<T> Default for TypedMetadata<T> {
    /// The metadata of a single-value block.
    fn default() -> (r: Self)
        ensures
            r.spec_len() == 1,
    {
        TypedMetadata::new()
    }
}

} // verus!
