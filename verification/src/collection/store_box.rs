//! A box over a single-allocation store.

use core::marker::PhantomData;

use vstd::prelude::*;

use crate::interface::{
    lemma_align_one, AllocError, Handle, Layout, StoreDefault, StoreSingle,
};

verus! {

/// A box holding one value of `T` in the single block of a `StoreSingle`.
#[derive(Clone)]
pub struct StoreBox<T, S: StoreSingle<T>> {
    store: S,
    handle: Handle,
    _marker: PhantomData<T>,
}

impl<T, S: StoreSingle<T>> View for StoreBox<T, S> {
    type V = T;

    /// The boxed value.
    closed spec fn view(&self) -> T {
        self.store.contents(self.handle)[0]->Some_0
    }
}

impl<T, S: StoreSingle<T>> StoreBox<T, S> {
    /// The internal invariant: the store holds the boxed value in its block.
    pub closed spec fn well_formed(&self) -> bool {
        &&& self.store.wf()
        &&& self.store.valid(self.handle)
        &&& self.store.contents(self.handle).len() >= 1
        &&& self.store.contents(self.handle)[0] is Some
    }

    /// Creates a new instance over a default store.
    pub fn new(value: T) -> (r: Self) where S: StoreDefault<T> + StoreSingle<T>
        ensures
            r.well_formed(),
            r@ == value,
    {
        let store = S::default_store();
        let boxed = Self::try_new_in(value, store);
        match boxed {
            Ok(b) => b,
            Err(_) => unreached(),
        }
    }

    /// Creates a new instance in the given store, which must have room.
    pub fn new_in(value: T, store: S) -> (r: Self)
        requires
            store.wf(),
            store.unbounded() || store.can_allocate_single((Layout { size: 1, align: 1 })),
        ensures
            r.well_formed(),
            r@ == value,
    {
        let boxed = Self::try_new_in(value, store);
        match boxed {
            Ok(b) => b,
            Err(_) => unreached(),
        }
    }

    /// Attempts to create a new instance in the given store; fails exactly
    /// when the store cannot satisfy the one-slot request.
    pub fn try_new_in(value: T, store: S) -> (r: Result<Self, AllocError>)
        requires
            store.wf(),
        ensures
            r is Ok <==> (store.unbounded() || store.can_allocate_single(
                (Layout { size: 1, align: 1 }),
            )),
            r matches Ok(b) ==> b.well_formed() && b@ == value,
    {
        let mut store = store;
        proof {
            lemma_align_one();
        }
        let layout = Layout::new(1, 1);
        let allocated = store.allocate_single(layout);
        match allocated {
            Ok((handle, _)) => {
                store.write_single(handle, 0, value);
                Ok(StoreBox { store, handle, _marker: PhantomData })
            },
            Err(_) => Err(AllocError),
        }
    }

    /// Returns a reference to the boxed value.
    pub fn get(&self) -> (r: &T)
        requires
            self.well_formed(),
        ensures
            *r == self@,
    {
        self.store.read_single(self.handle, 0)
    }

    /// Borrows the boxed value mutably.
    pub fn get_mut(&mut self) -> (r: &mut T)
        requires
            old(self).well_formed(),
        ensures
            *r == old(self)@,
            final(self).well_formed(),
            final(self)@ == *final(r),
    {
        self.store.read_mut_single(self.handle, 0)
    }

    /// Replaces the boxed value.
    pub fn set(&mut self, value: T)
        requires
            old(self).well_formed(),
        ensures
            final(self).well_formed(),
            final(self)@ == value,
    {
        let dropped = self.store.take_single(self.handle, 0);
        self.store.write_single(self.handle, 0, value);
    }

    /// Swaps the boxed value, returning the previous one.
    pub fn replace(&mut self, value: T) -> (r: T)
        requires
            old(self).well_formed(),
        ensures
            final(self).well_formed(),
            final(self)@ == value,
            r == old(self)@,
    {
        let previous = self.store.take_single(self.handle, 0);
        self.store.write_single(self.handle, 0, value);
        previous
    }
}

} // verus!
