//! A box over a general store.

use core::marker::PhantomData;

use vstd::prelude::*;

use crate::interface::{lemma_align_one, Handle, Layout, Store};

verus! {

/// A box holding one value of `T` in a block of a `Store`.
pub struct StorageBox<T, S: Store<T>> {
    storage: S,
    handle: Handle,
    _marker: PhantomData<T>,
}

impl<T, S: Store<T>> View for StorageBox<T, S> {
    type V = T;

    /// The boxed value.
    closed spec fn view(&self) -> T {
        self.storage.contents(self.handle)[0]->Some_0
    }
}

impl<T, S: Store<T>> StorageBox<T, S> {
    /// The internal invariant: the storage holds the boxed value.
    pub closed spec fn well_formed(&self) -> bool {
        &&& self.storage.wf()
        &&& self.storage.valid(self.handle)
        &&& self.storage.contents(self.handle).len() >= 1
        &&& self.storage.contents(self.handle)[0] is Some
    }

    /// Creates a new instance; on allocation failure the value and the
    /// storage are handed back.
    pub fn new(value: T, storage: S) -> (r: Result<Self, (T, S)>)
        requires
            storage.wf(),
        ensures
            r is Ok <==> (storage.unbounded() || storage.can_allocate(
                (Layout { size: 1, align: 1 }),
            )),
            r matches Ok(b) ==> b.well_formed() && b@ == value,
            r matches Err(pair) ==> pair.0 == value && pair.1 == storage,
    {
        let mut storage = storage;
        proof {
            lemma_align_one();
        }
        let layout = Layout::new(1, 1);
        let allocated = storage.allocate(layout);
        match allocated {
            Ok((handle, _)) => {
                storage.write(handle, 0, value);
                Ok(StorageBox { storage, handle, _marker: PhantomData })
            },
            Err(_) => Err((value, storage)),
        }
    }

    /// Returns a reference to the boxed value.
    pub fn get(&self) -> (r: &T)
        requires
            self.well_formed(),
        ensures
            *r == self@,
    {
        self.storage.read(self.handle, 0)
    }

    /// Borrows the boxed value mutably.
    pub fn get_mut(&mut self) -> (r: &mut T)
        requires
            old(self).well_formed(),
        ensures
            *r == old(self)@,
            final(self).well_formed(),
            final(self)@ == *final(r),
    {
        self.storage.read_mut(self.handle, 0)
    }

    /// Replaces the boxed value.
    pub fn set(&mut self, value: T)
        requires
            old(self).well_formed(),
        ensures
            final(self).well_formed(),
            final(self)@ == value,
    {
        let dropped = self.storage.take(self.handle, 0);
        self.storage.write(self.handle, 0, value);
    }
}

} // verus!
