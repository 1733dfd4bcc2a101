//! A fixed-capacity append-only vector over any store.
//!
//! The capacity is fixed at creation and elements cannot be removed. The
//! length field keeps the concurrent-append encoding, one more than the
//! element count, with a negative value standing for a writer holding the
//! tail slot; the verified operations take exclusive access, so the writer
//! state is never observable at rest and the field stays positive. Readers
//! only ever see the initialized prefix.

use core::marker::PhantomData;

use vstd::prelude::*;

use crate::interface::{lemma_align_one, Handle, Layout, Store, StoreDefault};

verus! {

/// A fixed-capacity vector of `T` whose backing block is one allocation of a
/// store. A failed push returns the rejected element, so it is never lost.
pub struct ConcurrentVec<T, S: Store<T>> {
    // one more than the number of initialized elements
    length: isize,
    capacity: usize,
    handle: Handle,
    store: S,
    _marker: PhantomData<T>,
}

impl<T, S: Store<T>> View for ConcurrentVec<T, S> {
    type V = Seq<T>;

    /// The initialized elements, in insertion order.
    closed spec fn view(&self) -> Seq<T> {
        Seq::new(
            (self.length - 1) as nat,
            |i: int| self.store.contents(self.handle)[i]->Some_0,
        )
    }
}

impl<T, S: Store<T>> ConcurrentVec<T, S> {
    /// The fixed capacity chosen at creation.
    pub closed spec fn spec_capacity(&self) -> int {
        self.capacity as int
    }

    /// The internal invariant: the store holds the backing block, and the
    /// prefix below the encoded length is initialized. Constructors establish
    /// it and every method preserves it.
    pub closed spec fn well_formed(&self) -> bool {
        &&& self.store.wf()
        &&& self.store.valid(self.handle)
        &&& self.capacity <= self.store.contents(self.handle).len()
        &&& self.capacity + 1 <= isize::MAX
        &&& 1 <= self.length <= self.capacity + 1
        &&& forall|i: int|
            0 <= i < self.length - 1 ==> self.store.contents(self.handle)[i] is Some
    }

    /// Creates a vector with the given capacity and a default store.
    ///
    /// Since the vector cannot be resized later, pick well!
    pub fn new(capacity: usize) -> (r: Self) where S: StoreDefault<T>
        requires
            capacity + 1 <= isize::MAX,
        ensures
            r.well_formed(),
            r@ == Seq::<T>::empty(),
            r.spec_capacity() == capacity,
    {
        Self::with_store(capacity, S::default_store())
    }

    /// Creates a vector with the given capacity and store.
    ///
    /// Since the vector cannot be resized later, pick well!
    pub fn with_store(capacity: usize, store: S) -> (r: Self)
        requires
            capacity + 1 <= isize::MAX,
            store.wf(),
            store.unbounded() || store.can_allocate((Layout { size: capacity, align: 1 })),
        ensures
            r.well_formed(),
            r@ == Seq::<T>::empty(),
            r.spec_capacity() == capacity,
    {
        let mut store = store;
        proof {
            lemma_align_one();
        }
        let layout = Layout::new(capacity, 1);
        let allocated = store.allocate(layout);
        match allocated {
            Ok((handle, _)) => {
                let r = ConcurrentVec { length: 1, capacity, handle, store, _marker: PhantomData };
                proof {
                    assert(r@ =~= Seq::<T>::empty());
                }
                r
            },
            Err(_) => unreached(),
        }
    }

    /// Returns whether the vector is empty.
    pub fn is_empty(&self) -> (r: bool)
        requires
            self.well_formed(),
        ensures
            r == (self@.len() == 0),
    {
        self.length == 1
    }

    /// Returns the length of the vector.
    pub fn len(&self) -> (r: usize)
        requires
            self.well_formed(),
        ensures
            r == self@.len(),
    {
        (self.length - 1) as usize
    }

    /// Returns the capacity of the vector.
    pub fn capacity(&self) -> (r: usize)
        requires
            self.well_formed(),
        ensures
            r == self.spec_capacity(),
    {
        self.capacity
    }

    /// Attempts to push a new element into the vector.
    ///
    /// Fails, returning the element unconsumed, exactly when the vector is
    /// full, that is, when `self.len() == self.capacity()`; the length is
    /// then unchanged.
    pub fn push(&mut self, element: T) -> (r: Result<(), T>)
        requires
            old(self).well_formed(),
        ensures
            final(self).well_formed(),
            final(self).spec_capacity() == old(self).spec_capacity(),
            old(self)@.len() < old(self).spec_capacity() ==> r is Ok
                && final(self)@ == old(self)@.push(element),
            old(self)@.len() >= old(self).spec_capacity() ==> r == Err::<(), T>(element)
                && final(self)@ == old(self)@,
    {
        let index = (self.length - 1) as usize;
        if index >= self.capacity {
            return Err(element);
        }
        self.store.write(self.handle, index, element);
        self.length = self.length + 1;
        proof {
            assert(self@ =~= old(self)@.push(element));
        }
        Ok(())
    }

    /// Returns references to the initialized elements, in order.
    pub fn as_slice(&self) -> (r: Vec<&T>)
        requires
            self.well_formed(),
        ensures
            r@.len() == self@.len(),
            forall|i: int| 0 <= i < r@.len() ==> *r@[i] == self@[i],
    {
        let mut r: Vec<&T> = Vec::new();
        let count = (self.length - 1) as usize;
        let mut i: usize = 0;
        while i < count
            invariant
                self.well_formed(),
                i <= count,
                count == self@.len(),
                r@.len() == i,
                forall|j: int| 0 <= j < i ==> *r@[j] == self@[j],
            decreases count - i,
        {
            r.push(self.store.read(self.handle, i));
            i += 1;
        }
        r
    }
}

} // verus!
