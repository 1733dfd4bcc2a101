//! An owning handle over a general store.
//!
//! A unique handle is the only handle to its block; dropping it without
//! deallocating leaks the block, as with any handle.

use vstd::prelude::*;

use crate::extension::typed::TypedHandle;
use crate::extension::typed_metadata::TypedMetadata;
use crate::interface::{AllocError, Handle, Layout, Store, Zeroable};

verus! {

/// An owning typed handle: its holder is the sole owner of the block.
pub struct UniqueHandle<T> {
    inner: TypedHandle<T>,
}

impl<T> UniqueHandle<T> {
    /// The underlying raw handle.
    pub closed spec fn spec_handle(&self) -> Handle {
        self.inner.spec_handle()
    }

    /// The number of slots the handle claims.
    pub closed spec fn spec_len(&self) -> int {
        self.inner.spec_len()
    }

    /// Creates a dangling handle; never fails.
    pub fn dangling<S: Store<T>>(store: &S) -> (r: Self)
        requires
            store.wf(),
        ensures
            r.spec_len() == 1,
    {
        UniqueHandle { inner: TypedHandle::dangling(store) }
    }

    /// Creates a handle to a block holding `value`; the store must have room.
    pub fn new<S: Store<T>>(value: T, store: &mut S) -> (r: Self)
        requires
            old(store).wf(),
            old(store).unbounded() || old(store).can_allocate((Layout { size: 1, align: 1 })),
        ensures
            final(store).wf(),
            final(store).valid(r.spec_handle()),
            r.spec_len() == 1,
            final(store).contents(r.spec_handle()).len() >= 1,
            final(store).contents(r.spec_handle())[0] == Some(value),
            forall|g: Handle|
                old(store).valid(g) ==> final(store).valid(g) && final(store).contents(g) == old(
                    store,
                ).contents(g),
    {
        let allocated = TypedHandle::allocate(store);
        match allocated {
            Ok(inner) => {
                let (handle, metadata) = inner.to_raw_parts();
                store.write(handle, 0, value);
                UniqueHandle { inner: TypedHandle::from_raw_parts(handle, metadata) }
            },
            Err(_) => unreached(),
        }
    }

    /// Attempts to allocate an uninitialized one-value block.
    pub fn allocate<S: Store<T>>(store: &mut S) -> (r: Result<Self, AllocError>)
        requires
            old(store).wf(),
        ensures
            final(store).wf(),
            r is Ok <==> old(store).can_allocate((Layout { size: 1, align: 1 })),
            old(store).unbounded() ==> r is Ok,
            r matches Ok(t) ==> final(store).valid(t.spec_handle()) && t.spec_len() == 1
                && final(store).contents(t.spec_handle()).len() >= 1,
            forall|g: Handle|
                old(store).valid(g) ==> final(store).valid(g) && final(store).contents(g) == old(
                    store,
                ).contents(g),
            r is Err ==> *final(store) == *old(store),
    {
        let allocated = TypedHandle::allocate(store);
        match allocated {
            Ok(inner) => Ok(UniqueHandle { inner }),
            Err(_) => Err(AllocError),
        }
    }

    /// Attempts to allocate a zeroed one-value block.
    pub fn allocate_zeroed<S: Store<T>>(store: &mut S) -> (r: Result<Self, AllocError>) where
        T: Zeroable

        requires
            old(store).wf(),
        ensures
            final(store).wf(),
            r is Ok <==> old(store).can_allocate((Layout { size: 1, align: 1 })),
            old(store).unbounded() ==> r is Ok,
            r matches Ok(t) ==> final(store).valid(t.spec_handle()) && t.spec_len() == 1
                && final(store).contents(t.spec_handle()).len() >= 1
                && final(store).contents(t.spec_handle())[0] == Some(T::zero_spec()),
            r is Err ==> *final(store) == *old(store),
    {
        let allocated = TypedHandle::allocate_zeroed(store);
        match allocated {
            Ok(inner) => Ok(UniqueHandle { inner }),
            Err(_) => Err(AllocError),
        }
    }

    /// Splits the handle into its raw parts, giving up uniqueness.
    pub fn to_raw_parts(self) -> (r: (Handle, TypedMetadata<T>))
        ensures
            r.0 == self.spec_handle(),
            r.1.spec_len() == self.spec_len(),
    {
        self.inner.to_raw_parts()
    }

    /// Returns whether the handle claims zero slots.
    pub fn is_empty(&self) -> (r: bool)
        ensures
            r == (self.spec_len() == 0),
    {
        self.inner.is_empty()
    }

    /// Returns the number of slots the handle claims.
    pub fn len(&self) -> (r: usize)
        ensures
            r == self.spec_len(),
    {
        self.inner.len()
    }
}

} // verus!
