//! An owning handle over a single-allocation store.
//!
//! A unique handle is the only handle to its block; its holder alone decides
//! when the block is deallocated.

use vstd::prelude::*;

use crate::extension::typed_metadata::TypedMetadata;
use crate::extension::typed_single::TypedSingleHandle;
use crate::interface::{AllocError, Handle, Layout, StoreSingle, Zeroable};

verus! {

/// An owning typed handle for single-allocation stores.
pub struct UniqueSingleHandle<T> {
    inner: TypedSingleHandle<T>,
}

impl<T> UniqueSingleHandle<T> {
    /// The underlying raw handle.
    pub closed spec fn spec_handle(&self) -> Handle {
        self.inner.spec_handle()
    }

    /// The number of slots the handle claims.
    pub closed spec fn spec_len(&self) -> int {
        self.inner.spec_len()
    }

    /// Creates a dangling handle; never fails.
    pub fn dangling<S: StoreSingle<T>>(store: &S) -> (r: Self)
        requires
            store.wf(),
        ensures
            r.spec_len() == 1,
    {
        UniqueSingleHandle { inner: TypedSingleHandle::dangling(store) }
    }

    /// Attempts to create a dangling handle.
    pub fn try_dangling<S: StoreSingle<T>>(store: &S) -> (r: Result<Self, AllocError>)
        requires
            store.wf(),
        ensures
            r is Ok,
            r matches Ok(t) ==> t.spec_len() == 1,
    {
        let attempt = TypedSingleHandle::try_dangling(store);
        match attempt {
            Ok(inner) => Ok(UniqueSingleHandle { inner }),
            Err(_) => Err(AllocError),
        }
    }

    /// Creates a handle to a block holding `value`; the store must have room.
    pub fn new<S: StoreSingle<T>>(value: T, store: &mut S) -> (r: Self)
        requires
            old(store).wf(),
            old(store).unbounded() || old(store).can_allocate_single(
                (Layout { size: 1, align: 1 }),
            ),
        ensures
            final(store).wf(),
            final(store).valid(r.spec_handle()),
            r.spec_len() == 1,
            final(store).contents(r.spec_handle()).len() >= 1,
            final(store).contents(r.spec_handle())[0] == Some(value),
    {
        UniqueSingleHandle { inner: TypedSingleHandle::new(value, store) }
    }

    /// Attempts to create a handle to a block holding `value`.
    pub fn try_new<S: StoreSingle<T>>(value: T, store: &mut S) -> (r: Result<Self, AllocError>)
        requires
            old(store).wf(),
        ensures
            final(store).wf(),
            r is Ok <==> old(store).can_allocate_single((Layout { size: 1, align: 1 })),
            old(store).unbounded() ==> r is Ok,
            r matches Ok(t) ==> {
                &&& final(store).valid(t.spec_handle())
                &&& t.spec_len() == 1
                &&& final(store).contents(t.spec_handle()).len() >= 1
                &&& final(store).contents(t.spec_handle())[0] == Some(value)
            },
            r is Err ==> *final(store) == *old(store),
    {
        let attempt = TypedSingleHandle::try_new(value, store);
        match attempt {
            Ok(inner) => Ok(UniqueSingleHandle { inner }),
            Err(_) => Err(AllocError),
        }
    }

    /// Allocates an uninitialized one-value block; the store must have room.
    pub fn allocate<S: StoreSingle<T>>(store: &mut S) -> (r: Self)
        requires
            old(store).wf(),
            old(store).unbounded() || old(store).can_allocate_single(
                (Layout { size: 1, align: 1 }),
            ),
        ensures
            final(store).wf(),
            final(store).valid(r.spec_handle()),
            r.spec_len() == 1,
            final(store).contents(r.spec_handle()).len() >= 1,
    {
        UniqueSingleHandle { inner: TypedSingleHandle::allocate(store) }
    }

    /// Attempts to allocate an uninitialized one-value block.
    pub fn try_allocate<S: StoreSingle<T>>(store: &mut S) -> (r: Result<Self, AllocError>)
        requires
            old(store).wf(),
        ensures
            final(store).wf(),
            r is Ok <==> old(store).can_allocate_single((Layout { size: 1, align: 1 })),
            old(store).unbounded() ==> r is Ok,
            r matches Ok(t) ==> {
                &&& final(store).valid(t.spec_handle())
                &&& t.spec_len() == 1
                &&& final(store).contents(t.spec_handle()).len() >= 1
            },
            r is Err ==> *final(store) == *old(store),
    {
        let attempt = TypedSingleHandle::try_allocate(store);
        match attempt {
            Ok(inner) => Ok(UniqueSingleHandle { inner }),
            Err(_) => Err(AllocError),
        }
    }

    /// Allocates a zeroed one-value block; the store must have room.
    pub fn allocate_zeroed<S: StoreSingle<T>>(store: &mut S) -> (r: Self) where T: Zeroable
        requires
            old(store).wf(),
            old(store).unbounded() || old(store).can_allocate_single(
                (Layout { size: 1, align: 1 }),
            ),
        ensures
            final(store).wf(),
            final(store).valid(r.spec_handle()),
            r.spec_len() == 1,
            final(store).contents(r.spec_handle()).len() >= 1,
            final(store).contents(r.spec_handle())[0] == Some(T::zero_spec()),
    {
        UniqueSingleHandle { inner: TypedSingleHandle::allocate_zeroed(store) }
    }

    /// Attempts to allocate a zeroed one-value block.
    pub fn try_allocate_zeroed<S: StoreSingle<T>>(store: &mut S) -> (r: Result<
        Self,
        AllocError,
    >) where T: Zeroable
        requires
            old(store).wf(),
        ensures
            final(store).wf(),
            r is Ok <==> old(store).can_allocate_single((Layout { size: 1, align: 1 })),
            old(store).unbounded() ==> r is Ok,
            r matches Ok(t) ==> {
                &&& final(store).valid(t.spec_handle())
                &&& t.spec_len() == 1
                &&& final(store).contents(t.spec_handle()).len() >= 1
                &&& final(store).contents(t.spec_handle())[0] == Some(T::zero_spec())
            },
            r is Err ==> *final(store) == *old(store),
    {
        let attempt = TypedSingleHandle::try_allocate_zeroed(store);
        match attempt {
            Ok(inner) => Ok(UniqueSingleHandle { inner }),
            Err(_) => Err(AllocError),
        }
    }

    /// Creates a dangling handle claiming zero slots; never fails.
    pub fn dangling_slice<S: StoreSingle<T>>(store: &S) -> (r: Self)
        requires
            store.wf(),
        ensures
            r.spec_len() == 0,
    {
        UniqueSingleHandle { inner: TypedSingleHandle::dangling_slice(store) }
    }

    /// Attempts to create a dangling handle claiming zero slots.
    pub fn try_dangling_slice<S: StoreSingle<T>>(store: &S) -> (r: Result<Self, AllocError>)
        requires
            store.wf(),
        ensures
            r is Ok,
            r matches Ok(t) ==> t.spec_len() == 0,
    {
        let attempt = TypedSingleHandle::try_dangling_slice(store);
        match attempt {
            Ok(inner) => Ok(UniqueSingleHandle { inner }),
            Err(_) => Err(AllocError),
        }
    }

    /// Allocates an uninitialized block of `len` slots; the store must have
    /// room for them.
    pub fn allocate_slice<S: StoreSingle<T>>(len: usize, store: &mut S) -> (r: Self)
        requires
            old(store).wf(),
            old(store).unbounded() || old(store).can_allocate_single(
                (Layout { size: len, align: 1 }),
            ),
        ensures
            final(store).wf(),
            final(store).valid(r.spec_handle()),
            r.spec_len() == len,
            final(store).contents(r.spec_handle()).len() >= len,
    {
        UniqueSingleHandle { inner: TypedSingleHandle::allocate_slice(len, store) }
    }

    /// Attempts to allocate an uninitialized block of `len` slots.
    pub fn try_allocate_slice<S: StoreSingle<T>>(len: usize, store: &mut S) -> (r: Result<
        Self,
        AllocError,
    >)
        requires
            old(store).wf(),
        ensures
            final(store).wf(),
            r is Ok <==> old(store).can_allocate_single((Layout { size: len, align: 1 })),
            old(store).unbounded() ==> r is Ok,
            r matches Ok(t) ==> {
                &&& final(store).valid(t.spec_handle())
                &&& t.spec_len() == len
                &&& final(store).contents(t.spec_handle()).len() >= len
            },
            r is Err ==> *final(store) == *old(store),
    {
        let attempt = TypedSingleHandle::try_allocate_slice(len, store);
        match attempt {
            Ok(inner) => Ok(UniqueSingleHandle { inner }),
            Err(_) => Err(AllocError),
        }
    }

    /// Allocates a zeroed block of `len` slots; the store must have room.
    pub fn allocate_zeroed_slice<S: StoreSingle<T>>(len: usize, store: &mut S) -> (r: Self) where
        T: Zeroable

        requires
            old(store).wf(),
            old(store).unbounded() || old(store).can_allocate_single(
                (Layout { size: len, align: 1 }),
            ),
        ensures
            final(store).wf(),
            final(store).valid(r.spec_handle()),
            r.spec_len() == len,
            final(store).contents(r.spec_handle()).len() >= len,
            forall|i: int|
                0 <= i < len ==> final(store).contents(r.spec_handle())[i] == Some(
                    T::zero_spec(),
                ),
    {
        UniqueSingleHandle { inner: TypedSingleHandle::allocate_zeroed_slice(len, store) }
    }

    /// Attempts to allocate a zeroed block of `len` slots.
    pub fn try_allocate_zeroed_slice<S: StoreSingle<T>>(len: usize, store: &mut S) -> (r: Result<
        Self,
        AllocError,
    >) where T: Zeroable
        requires
            old(store).wf(),
        ensures
            final(store).wf(),
            r is Ok <==> old(store).can_allocate_single((Layout { size: len, align: 1 })),
            old(store).unbounded() ==> r is Ok,
            r matches Ok(t) ==> {
                &&& final(store).valid(t.spec_handle())
                &&& t.spec_len() == len
                &&& final(store).contents(t.spec_handle()).len() >= len
                &&& forall|i: int|
                    0 <= i < len ==> final(store).contents(t.spec_handle())[i] == Some(
                        T::zero_spec(),
                    )
            },
            r is Err ==> *final(store) == *old(store),
    {
        let attempt = TypedSingleHandle::try_allocate_zeroed_slice(len, store);
        match attempt {
            Ok(inner) => Ok(UniqueSingleHandle { inner }),
            Err(_) => Err(AllocError),
        }
    }

    /// Splits the handle into its raw parts, giving up uniqueness.
    pub fn to_raw_parts(self) -> (r: (Handle, TypedMetadata<T>))
        ensures
            r.0 == self.spec_handle(),
            r.1.spec_len() == self.spec_len(),
    {
        self.inner.to_raw_parts()
    }

    /// Returns whether the handle claims zero slots.
    pub fn is_empty(&self) -> (r: bool)
        ensures
            r == (self.spec_len() == 0),
    {
        self.inner.is_empty()
    }

    /// Returns the number of slots the handle claims.
    pub fn len(&self) -> (r: usize)
        ensures
            r == self.spec_len(),
    {
        self.inner.len()
    }
}

} // verus!
