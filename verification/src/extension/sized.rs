//! A minimal handle for blocks of statically known, single-value shape.

use core::marker::PhantomData;

use vstd::prelude::*;

use crate::interface::{
    lemma_align_one, AllocError, Handle, Layout, Store, Zeroable,
};

verus! {

/// A raw handle to a one-value block; the shape is carried by the type.
#[derive(Clone, Copy)]
pub struct SizedHandle<T> {
    handle: Handle,
    _marker: PhantomData<T>,
}

impl<T> SizedHandle<T> {
    /// The underlying raw handle.
    pub closed spec fn spec_handle(&self) -> Handle {
        self.handle
    }

    /// Attempts to create a dangling handle.
    pub fn dangling<S: Store<T>>(store: &S) -> (r: Result<Self, AllocError>)
        requires
            store.wf(),
        ensures
            r is Ok,
    {
        proof {
            lemma_align_one();
        }
        let dangling = store.dangling(1);
        match dangling {
            Ok(handle) => Ok(SizedHandle { handle, _marker: PhantomData }),
            Err(_) => unreached(),
        }
    }

    /// Attempts to allocate an uninitialized one-value block.
    pub fn allocate<S: Store<T>>(store: &mut S) -> (r: Result<Self, AllocError>)
        requires
            old(store).wf(),
        ensures
            final(store).wf(),
            r is Ok <==> old(store).can_allocate((Layout { size: 1, align: 1 })),
            old(store).unbounded() ==> r is Ok,
            r matches Ok(t) ==> final(store).valid(t.spec_handle()) && final(store).contents(
                t.spec_handle(),
            ).len() >= 1,
            forall|g: Handle|
                old(store).valid(g) ==> final(store).valid(g) && final(store).contents(g) == old(
                    store,
                ).contents(g),
            r is Err ==> *final(store) == *old(store),
    {
        proof {
            lemma_align_one();
        }
        let layout = Layout::new(1, 1);
        let allocated = store.allocate(layout);
        match allocated {
            Ok((handle, _)) => Ok(SizedHandle { handle, _marker: PhantomData }),
            Err(_) => Err(AllocError),
        }
    }

    /// Attempts to allocate a zeroed one-value block.
    pub fn allocate_zeroed<S: Store<T>>(store: &mut S) -> (r: Result<Self, AllocError>) where
        T: Zeroable

        requires
            old(store).wf(),
        ensures
            final(store).wf(),
            r is Ok <==> old(store).can_allocate((Layout { size: 1, align: 1 })),
            old(store).unbounded() ==> r is Ok,
            r matches Ok(t) ==> final(store).valid(t.spec_handle()) && final(store).contents(
                t.spec_handle(),
            ).len() >= 1 && final(store).contents(t.spec_handle())[0] == Some(T::zero_spec()),
            r is Err ==> *final(store) == *old(store),
    {
        let allocated = Self::allocate(store);
        match allocated {
            Ok(t) => {
                store.write(t.handle, 0, T::zeroed());
                Ok(t)
            },
            Err(_) => Err(AllocError),
        }
    }
}

} // verus!
