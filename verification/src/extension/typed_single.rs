//! A typed handle over a single-allocation store.

use vstd::prelude::*;

use crate::extension::typed_metadata::TypedMetadata;
use crate::interface::{
    lemma_align_one, AllocError, Handle, Layout, StoreSingle, Zeroable,
};

verus! {

/// A raw handle paired with typed metadata, for single-allocation stores.
#[derive(Clone, Copy)]
pub struct TypedSingleHandle<T> {
    handle: Handle,
    metadata: TypedMetadata<T>,
}

impl<T> TypedSingleHandle<T> {
    /// The underlying raw handle.
    pub closed spec fn spec_handle(&self) -> Handle {
        self.handle
    }

    /// The number of slots the handle claims.
    pub closed spec fn spec_len(&self) -> int {
        self.metadata.spec_len()
    }

    /// Creates a dangling handle; never fails.
    pub fn dangling<S: StoreSingle<T>>(store: &S) -> (r: Self)
        requires
            store.wf(),
        ensures
            r.spec_len() == 1,
    {
        let attempt = Self::try_dangling(store);
        match attempt {
            Ok(h) => h,
            Err(_) => unreached(),
        }
    }

    /// Attempts to create a dangling handle.
    pub fn try_dangling<S: StoreSingle<T>>(store: &S) -> (r: Result<Self, AllocError>)
        requires
            store.wf(),
        ensures
            r is Ok,
            r matches Ok(t) ==> t.spec_len() == 1,
    {
        proof {
            lemma_align_one();
        }
        let dangling = store.dangling(1);
        match dangling {
            Ok(handle) => Ok(TypedSingleHandle { handle, metadata: TypedMetadata::new() }),
            Err(_) => unreached(),
        }
    }

    /// Creates a handle to a block holding `value`; the store must have room.
    pub fn new<S: StoreSingle<T>>(value: T, store: &mut S) -> (r: Self)
        requires
            old(store).wf(),
            old(store).unbounded() || old(store).can_allocate_single(
                (Layout { size: 1, align: 1 }),
            ),
        ensures
            final(store).wf(),
            final(store).valid(r.spec_handle()),
            r.spec_len() == 1,
            final(store).contents(r.spec_handle()).len() >= 1,
            final(store).contents(r.spec_handle())[0] == Some(value),
    {
        let attempt = Self::try_new(value, store);
        match attempt {
            Ok(t) => t,
            Err(_) => unreached(),
        }
    }

    /// Attempts to create a handle to a block holding `value`.
    pub fn try_new<S: StoreSingle<T>>(value: T, store: &mut S) -> (r: Result<Self, AllocError>)
        requires
            old(store).wf(),
        ensures
            final(store).wf(),
            r is Ok <==> old(store).can_allocate_single((Layout { size: 1, align: 1 })),
            old(store).unbounded() ==> r is Ok,
            r matches Ok(t) ==> {
                &&& final(store).valid(t.spec_handle())
                &&& t.spec_len() == 1
                &&& final(store).contents(t.spec_handle()).len() >= 1
                &&& final(store).contents(t.spec_handle())[0] == Some(value)
            },
            r is Err ==> *final(store) == *old(store),
    {
        proof {
            lemma_align_one();
        }
        let layout = Layout::new(1, 1);
        let allocated = store.allocate_single(layout);
        match allocated {
            Ok((handle, _)) => {
                store.write_single(handle, 0, value);
                Ok(TypedSingleHandle { handle, metadata: TypedMetadata::new() })
            },
            Err(_) => Err(AllocError),
        }
    }

    /// Allocates an uninitialized one-value block; the store must have room.
    pub fn allocate<S: StoreSingle<T>>(store: &mut S) -> (r: Self)
        requires
            old(store).wf(),
            old(store).unbounded() || old(store).can_allocate_single(
                (Layout { size: 1, align: 1 }),
            ),
        ensures
            final(store).wf(),
            final(store).valid(r.spec_handle()),
            r.spec_len() == 1,
            final(store).contents(r.spec_handle()).len() >= 1,
    {
        let attempt = Self::try_allocate(store);
        match attempt {
            Ok(t) => t,
            Err(_) => unreached(),
        }
    }

    /// Attempts to allocate an uninitialized one-value block.
    pub fn try_allocate<S: StoreSingle<T>>(store: &mut S) -> (r: Result<Self, AllocError>)
        requires
            old(store).wf(),
        ensures
            final(store).wf(),
            r is Ok <==> old(store).can_allocate_single((Layout { size: 1, align: 1 })),
            old(store).unbounded() ==> r is Ok,
            r matches Ok(t) ==> {
                &&& final(store).valid(t.spec_handle())
                &&& t.spec_len() == 1
                &&& final(store).contents(t.spec_handle()).len() >= 1
            },
            r is Err ==> *final(store) == *old(store),
    {
        proof {
            lemma_align_one();
        }
        let layout = Layout::new(1, 1);
        let allocated = store.allocate_single(layout);
        match allocated {
            Ok((handle, _)) => Ok(
                TypedSingleHandle { handle, metadata: TypedMetadata::new() },
            ),
            Err(_) => Err(AllocError),
        }
    }

    /// Allocates a zeroed one-value block; the store must have room.
    pub fn allocate_zeroed<S: StoreSingle<T>>(store: &mut S) -> (r: Self) where T: Zeroable
        requires
            old(store).wf(),
            old(store).unbounded() || old(store).can_allocate_single(
                (Layout { size: 1, align: 1 }),
            ),
        ensures
            final(store).wf(),
            final(store).valid(r.spec_handle()),
            r.spec_len() == 1,
            final(store).contents(r.spec_handle()).len() >= 1,
            final(store).contents(r.spec_handle())[0] == Some(T::zero_spec()),
    {
        let attempt = Self::try_allocate_zeroed(store);
        match attempt {
            Ok(t) => t,
            Err(_) => unreached(),
        }
    }

    /// Attempts to allocate a zeroed one-value block.
    pub fn try_allocate_zeroed<S: StoreSingle<T>>(store: &mut S) -> (r: Result<
        Self,
        AllocError,
    >) where T: Zeroable
        requires
            old(store).wf(),
        ensures
            final(store).wf(),
            r is Ok <==> old(store).can_allocate_single((Layout { size: 1, align: 1 })),
            old(store).unbounded() ==> r is Ok,
            r matches Ok(t) ==> {
                &&& final(store).valid(t.spec_handle())
                &&& t.spec_len() == 1
                &&& final(store).contents(t.spec_handle()).len() >= 1
                &&& final(store).contents(t.spec_handle())[0] == Some(T::zero_spec())
            },
            r is Err ==> *final(store) == *old(store),
    {
        let attempt = Self::try_allocate(store);
        match attempt {
            Ok(t) => {
                store.write_single(t.handle, 0, T::zeroed());
                Ok(t)
            },
            Err(_) => Err(AllocError),
        }
    }

    /// Creates a dangling handle claiming zero slots; never fails.
    pub fn dangling_slice<S: StoreSingle<T>>(store: &S) -> (r: Self)
        requires
            store.wf(),
        ensures
            r.spec_len() == 0,
    {
        let attempt = Self::try_dangling_slice(store);
        match attempt {
            Ok(t) => t,
            Err(_) => unreached(),
        }
    }

    /// Attempts to create a dangling handle claiming zero slots.
    pub fn try_dangling_slice<S: StoreSingle<T>>(store: &S) -> (r: Result<Self, AllocError>)
        requires
            store.wf(),
        ensures
            r is Ok,
            r matches Ok(t) ==> t.spec_len() == 0,
    {
        proof {
            lemma_align_one();
        }
        let dangling = store.dangling(1);
        match dangling {
            Ok(handle) => Ok(
                TypedSingleHandle { handle, metadata: TypedMetadata::from_metadata(0) },
            ),
            Err(_) => unreached(),
        }
    }

    /// Allocates an uninitialized block of `len` slots; the store must have
    /// room for them.
    pub fn allocate_slice<S: StoreSingle<T>>(len: usize, store: &mut S) -> (r: Self)
        requires
            old(store).wf(),
            old(store).unbounded() || old(store).can_allocate_single(
                (Layout { size: len, align: 1 }),
            ),
        ensures
            final(store).wf(),
            final(store).valid(r.spec_handle()),
            r.spec_len() == len,
            final(store).contents(r.spec_handle()).len() >= len,
    {
        let attempt = Self::try_allocate_slice(len, store);
        match attempt {
            Ok(t) => t,
            Err(_) => unreached(),
        }
    }

    /// Attempts to allocate an uninitialized block of `len` slots.
    pub fn try_allocate_slice<S: StoreSingle<T>>(len: usize, store: &mut S) -> (r: Result<
        Self,
        AllocError,
    >)
        requires
            old(store).wf(),
        ensures
            final(store).wf(),
            r is Ok <==> old(store).can_allocate_single((Layout { size: len, align: 1 })),
            old(store).unbounded() ==> r is Ok,
            r matches Ok(t) ==> {
                &&& final(store).valid(t.spec_handle())
                &&& t.spec_len() == len
                &&& final(store).contents(t.spec_handle()).len() >= len
            },
            r is Err ==> *final(store) == *old(store),
    {
        proof {
            lemma_align_one();
        }
        let layout = Layout::new(len, 1);
        let allocated = store.allocate_single(layout);
        match allocated {
            Ok((handle, _)) => Ok(
                TypedSingleHandle { handle, metadata: TypedMetadata::from_metadata(len) },
            ),
            Err(_) => Err(AllocError),
        }
    }

    /// Allocates a zeroed block of `len` slots; the store must have room.
    pub fn allocate_zeroed_slice<S: StoreSingle<T>>(len: usize, store: &mut S) -> (r: Self) where
        T: Zeroable

        requires
            old(store).wf(),
            old(store).unbounded() || old(store).can_allocate_single(
                (Layout { size: len, align: 1 }),
            ),
        ensures
            final(store).wf(),
            final(store).valid(r.spec_handle()),
            r.spec_len() == len,
            final(store).contents(r.spec_handle()).len() >= len,
            forall|i: int|
                0 <= i < len ==> final(store).contents(r.spec_handle())[i] == Some(
                    T::zero_spec(),
                ),
    {
        let attempt = Self::try_allocate_zeroed_slice(len, store);
        match attempt {
            Ok(t) => t,
            Err(_) => unreached(),
        }
    }

    /// Attempts to allocate a zeroed block of `len` slots: the generic
    /// zero-fill pass over a fresh allocation.
    pub fn try_allocate_zeroed_slice<S: StoreSingle<T>>(len: usize, store: &mut S) -> (r: Result<
        Self,
        AllocError,
    >) where T: Zeroable
        requires
            old(store).wf(),
        ensures
            final(store).wf(),
            r is Ok <==> old(store).can_allocate_single((Layout { size: len, align: 1 })),
            old(store).unbounded() ==> r is Ok,
            r matches Ok(t) ==> {
                &&& final(store).valid(t.spec_handle())
                &&& t.spec_len() == len
                &&& final(store).contents(t.spec_handle()).len() >= len
                &&& forall|i: int|
                    0 <= i < len ==> final(store).contents(t.spec_handle())[i] == Some(
                        T::zero_spec(),
                    )
            },
            r is Err ==> *final(store) == *old(store),
    {
        let attempt = Self::try_allocate_slice(len, store);
        match attempt {
            Ok(t) => {
                let mut i: usize = 0;
                while i < len
                    invariant
                        i <= len,
                        store.wf(),
                        store.valid(t.spec_handle()),
                        t.spec_len() == len,
                        store.contents(t.spec_handle()).len() >= len,
                        forall|j: int|
                            0 <= j < i ==> store.contents(t.spec_handle())[j] == Some(
                                T::zero_spec(),
                            ),
                    decreases len - i,
                {
                    store.write_single(t.handle, i, T::zeroed());
                    i += 1;
                }
                Ok(t)
            },
            Err(_) => Err(AllocError),
        }
    }

    /// Attempts to extend the block to `new_len` slots; the prior slots are
    /// preserved and the handle is replaced by the one of the grown block.
    /// On failure the handle and the store are unchanged.
    pub fn try_grow<S: StoreSingle<T>>(&mut self, new_len: usize, store: &mut S) -> (r: Result<
        (),
        AllocError,
    >)
        requires
            old(store).wf(),
            old(store).valid(old(self).spec_handle()),
            old(self).spec_len() <= old(store).contents(old(self).spec_handle()).len(),
            old(self).spec_len() <= new_len,
        ensures
            final(store).wf(),
            r is Ok ==> {
                &&& final(store).valid(final(self).spec_handle())
                &&& final(self).spec_len() == new_len
                &&& final(store).contents(final(self).spec_handle()).len() >= new_len
                &&& final(store).contents(final(self).spec_handle()).subrange(
                    0,
                    old(self).spec_len(),
                ) == old(store).contents(old(self).spec_handle()).subrange(
                    0,
                    old(self).spec_len(),
                )
                &&& forall|i: int|
                    old(self).spec_len() <= i < final(store).contents(
                        final(self).spec_handle(),
                    ).len() ==> final(store).contents(final(self).spec_handle())[i] is None
            },
            r is Err ==> *final(store) == *old(store) && *final(self) == *old(self),
    {
        proof {
            lemma_align_one();
        }
        let old_layout = Layout::new(self.metadata.get(), 1);
        let new_layout = Layout::new(new_len, 1);
        let grown = store.grow_single(self.handle, old_layout, new_layout);
        match grown {
            Ok((handle, _)) => {
                self.handle = handle;
                self.metadata = TypedMetadata::from_metadata(new_len);
                Ok(())
            },
            Err(_) => Err(AllocError),
        }
    }

    /// Attempts to extend the block to `new_len` slots, zero-filling every
    /// slot added past the previous length. On failure the handle and the
    /// store are unchanged.
    pub fn try_grow_zeroed<S: StoreSingle<T>>(&mut self, new_len: usize, store: &mut S) -> (r:
        Result<(), AllocError>) where T: Zeroable
        requires
            old(store).wf(),
            old(store).valid(old(self).spec_handle()),
            old(self).spec_len() <= old(store).contents(old(self).spec_handle()).len(),
            old(self).spec_len() <= new_len,
        ensures
            final(store).wf(),
            r is Ok ==> {
                &&& final(store).valid(final(self).spec_handle())
                &&& final(self).spec_len() == new_len
                &&& final(store).contents(final(self).spec_handle()).len() >= new_len
                &&& final(store).contents(final(self).spec_handle()).subrange(
                    0,
                    old(self).spec_len(),
                ) == old(store).contents(old(self).spec_handle()).subrange(
                    0,
                    old(self).spec_len(),
                )
                &&& forall|i: int|
                    old(self).spec_len() <= i < new_len ==> final(store).contents(
                        final(self).spec_handle(),
                    )[i] == Some(T::zero_spec())
            },
            r is Err ==> *final(store) == *old(store) && *final(self) == *old(self),
    {
        let ghost pre = *self;
        let ghost pre_store = *store;
        let old_len = self.metadata.get();
        let grown = self.try_grow(new_len, store);
        match grown {
            Ok(()) => {
                let mut i: usize = old_len;
                while i < new_len
                    invariant
                        old_len <= i <= new_len,
                        store.wf(),
                        store.valid(self.spec_handle()),
                        self.spec_len() == new_len,
                        store.contents(self.spec_handle()).len() >= new_len,
                        old_len as int == pre.spec_len(),
                        store.contents(self.spec_handle()).subrange(0, pre.spec_len())
                            == pre_store.contents(pre.spec_handle()).subrange(
                            0,
                            pre.spec_len(),
                        ),
                        forall|j: int|
                            old_len <= j < i ==> store.contents(self.spec_handle())[j] == Some(
                                T::zero_spec(),
                            ),
                    decreases new_len - i,
                {
                    let ghost before = store.contents(self.spec_handle());
                    store.write_single(self.handle, i, T::zeroed());
                    proof {
                        assert(store.contents(self.spec_handle()).subrange(
                            0,
                            pre.spec_len(),
                        ) =~= before.subrange(0, pre.spec_len()));
                    }
                    i += 1;
                }
                Ok(())
            },
            Err(_) => Err(AllocError),
        }
    }

    /// Attempts to shrink the block to `new_len` slots; the slots below the
    /// new length are preserved. On failure the handle and the store are
    /// unchanged.
    pub fn try_shrink<S: StoreSingle<T>>(&mut self, new_len: usize, store: &mut S) -> (r: Result<
        (),
        AllocError,
    >)
        requires
            old(store).wf(),
            old(store).valid(old(self).spec_handle()),
            old(self).spec_len() <= old(store).contents(old(self).spec_handle()).len(),
            new_len <= old(self).spec_len(),
        ensures
            final(store).wf(),
            r is Ok ==> {
                &&& final(store).valid(final(self).spec_handle())
                &&& final(self).spec_len() == new_len
                &&& final(store).contents(final(self).spec_handle()).len() >= new_len
                &&& final(store).contents(final(self).spec_handle()).subrange(0, new_len as int)
                    == old(store).contents(old(self).spec_handle()).subrange(0, new_len as int)
            },
            r is Err ==> *final(store) == *old(store) && *final(self) == *old(self),
    {
        proof {
            lemma_align_one();
        }
        let old_layout = Layout::new(self.metadata.get(), 1);
        let new_layout = Layout::new(new_len, 1);
        let shrunk = store.shrink_single(self.handle, old_layout, new_layout);
        match shrunk {
            Ok((handle, _)) => {
                self.handle = handle;
                self.metadata = TypedMetadata::from_metadata(new_len);
                Ok(())
            },
            Err(_) => Err(AllocError),
        }
    }

    /// Splits the typed handle into its raw parts.
    pub fn to_raw_parts(self) -> (r: (Handle, TypedMetadata<T>))
        ensures
            r.0 == self.spec_handle(),
            r.1.spec_len() == self.spec_len(),
    {
        (self.handle, self.metadata)
    }

    /// Reassembles a typed handle from its raw parts.
    pub fn from_raw_parts(handle: Handle, metadata: TypedMetadata<T>) -> (r: Self)
        ensures
            r.spec_handle() == handle,
            r.spec_len() == metadata.spec_len(),
    {
        TypedSingleHandle { handle, metadata }
    }

    /// Returns whether the handle claims zero slots.
    pub fn is_empty(&self) -> (r: bool)
        ensures
            r == (self.spec_len() == 0),
    {
        self.metadata.get() == 0
    }

    /// Returns the number of slots the handle claims.
    pub fn len(&self) -> (r: usize)
        ensures
            r == self.spec_len(),
    {
        self.metadata.get()
    }
}

} // verus!
