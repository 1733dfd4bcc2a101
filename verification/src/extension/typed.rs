//! A handle that knows the element type and slot count of its block.

use vstd::prelude::*;

use crate::extension::typed_metadata::TypedMetadata;
use crate::interface::{
    lemma_align_one, AllocError, Handle, Layout, Store, Zeroable,
};

verus! {

/// A raw handle paired with the metadata of its typed block.
#[derive(Clone, Copy)]
pub struct TypedHandle<T> {
    handle: Handle,
    metadata: TypedMetadata<T>,
}

impl<T> TypedHandle<T> {
    /// The underlying raw handle.
    pub closed spec fn spec_handle(&self) -> Handle {
        self.handle
    }

    /// The number of slots the handle claims.
    pub closed spec fn spec_len(&self) -> int {
        self.metadata.spec_len()
    }

    /// Creates a dangling handle; never fails.
    pub fn dangling<S: Store<T>>(store: &S) -> (r: Self)
        requires
            store.wf(),
        ensures
            store.address(r.spec_handle()) % 1 == 0,
            r.spec_len() == 1,
    {
        let attempt = Self::try_dangling(store);
        match attempt {
            Ok(h) => h,
            Err(_) => unreached(),
        }
    }

    /// Attempts to create a dangling handle.
    pub fn try_dangling<S: Store<T>>(store: &S) -> (r: Result<Self, AllocError>)
        requires
            store.wf(),
        ensures
            r matches Ok(t) ==> store.address(t.spec_handle()) % 1 == 0 && t.spec_len() == 1,
            r is Ok,
    {
        proof {
            lemma_align_one();
        }
        let dangling = store.dangling(1);
        match dangling {
            Ok(handle) => Ok(TypedHandle { handle, metadata: TypedMetadata::new() }),
            Err(_) => unreached(),
        }
    }

    /// Attempts to allocate a block able to hold one value of `T`.
    pub fn allocate<S: Store<T>>(store: &mut S) -> (r: Result<Self, AllocError>)
        requires
            old(store).wf(),
        ensures
            final(store).wf(),
            r is Ok <==> old(store).can_allocate((Layout { size: 1, align: 1 })),
            old(store).unbounded() ==> r is Ok,
            r matches Ok(t) ==> {
                &&& final(store).valid(t.spec_handle())
                &&& !old(store).valid(t.spec_handle())
                &&& t.spec_len() == 1
                &&& final(store).contents(t.spec_handle()).len() >= 1
            },
            forall|g: Handle|
                old(store).valid(g) ==> final(store).valid(g) && final(store).contents(g) == old(
                    store,
                ).contents(g),
            r is Err ==> *final(store) == *old(store),
    {
        proof {
            lemma_align_one();
        }
        let layout = Layout::new(1, 1);
        let allocated = store.allocate(layout);
        match allocated {
            Ok((handle, _)) => Ok(TypedHandle { handle, metadata: TypedMetadata::new() }),
            Err(_) => Err(AllocError),
        }
    }

    /// Attempts to allocate a block holding one zeroed value of `T`.
    pub fn allocate_zeroed<S: Store<T>>(store: &mut S) -> (r: Result<Self, AllocError>) where
        T: Zeroable

        requires
            old(store).wf(),
        ensures
            final(store).wf(),
            r is Ok <==> old(store).can_allocate((Layout { size: 1, align: 1 })),
            old(store).unbounded() ==> r is Ok,
            r matches Ok(t) ==> {
                &&& final(store).valid(t.spec_handle())
                &&& t.spec_len() == 1
                &&& final(store).contents(t.spec_handle()).len() >= 1
                &&& final(store).contents(t.spec_handle())[0] == Some(T::zero_spec())
            },
            r is Err ==> *final(store) == *old(store),
    {
        let allocated = Self::allocate(store);
        match allocated {
            Ok(t) => {
                store.write(t.handle, 0, T::zeroed());
                Ok(t)
            },
            Err(_) => Err(AllocError),
        }
    }

    /// Reassembles a typed handle from its raw parts.
    pub fn from_raw_parts(handle: Handle, metadata: TypedMetadata<T>) -> (r: Self)
        ensures
            r.spec_handle() == handle,
            r.spec_len() == metadata.spec_len(),
    {
        TypedHandle { handle, metadata }
    }

    /// Splits the typed handle into its raw parts.
    pub fn to_raw_parts(self) -> (r: (Handle, TypedMetadata<T>))
        ensures
            r.0 == self.spec_handle(),
            r.1.spec_len() == self.spec_len(),
    {
        (self.handle, self.metadata)
    }

    /// Returns whether the handle claims zero slots.
    pub fn is_empty(&self) -> (r: bool)
        ensures
            r == (self.spec_len() == 0),
    {
        self.metadata.get() == 0
    }

    /// Returns the number of slots the handle claims.
    pub fn len(&self) -> (r: usize)
        ensures
            r == self.spec_len(),
    {
        self.metadata.get()
    }
}

} // verus!
