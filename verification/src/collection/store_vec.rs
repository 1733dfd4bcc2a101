//! A dynamic array over any store.

use core::marker::PhantomData;

use vstd::prelude::*;

use crate::interface::{lemma_align_one, Handle, Layout, Store, StoreDefault};

verus! {

/// A growable vector of `T` whose backing block lives in a store; the block
/// is grown by doubling, through the store's resize operation.
pub struct StoreVec<T, S: Store<T>> {
    length: usize,
    capacity: usize,
    handle: Handle,
    store: S,
    _marker: PhantomData<T>,
}

impl<T, S: Store<T>> View for StoreVec<T, S> {
    type V = Seq<T>;

    /// The elements of the vector, in order.
    closed spec fn view(&self) -> Seq<T> {
        Seq::new(
            self.length as nat,
            |i: int| self.store.contents(self.handle)[i]->Some_0,
        )
    }
}

impl<T, S: Store<T>> StoreVec<T, S> {
    /// The capacity the backing block guarantees.
    pub closed spec fn spec_capacity(&self) -> int {
        self.capacity as int
    }

    /// Whether the store behind the vector never exhausts.
    pub closed spec fn boundless(&self) -> bool {
        self.store.unbounded()
    }

    /// The internal invariant: the initialized prefix sits in the block.
    pub closed spec fn well_formed(&self) -> bool {
        &&& self.store.wf()
        &&& self.length <= self.capacity
        &&& self.capacity > 0 ==> self.store.valid(self.handle) && self.capacity
            <= self.store.contents(self.handle).len()
        &&& forall|i: int|
            0 <= i < self.length ==> self.store.contents(self.handle)[i] is Some
    }

    /// Creates a new, empty, vector with a default store.
    pub fn new() -> (r: Self) where S: StoreDefault<T>
        ensures
            r.well_formed(),
            r@ == Seq::<T>::empty(),
            r.boundless(),
    {
        Self::new_in(S::default_store())
    }

    /// Creates a new, empty, vector of at least the given capacity, with a
    /// default store.
    pub fn with_capacity(capacity: usize) -> (r: Self) where S: StoreDefault<T>
        ensures
            r.well_formed(),
            r@ == Seq::<T>::empty(),
            r.spec_capacity() >= capacity,
            r.boundless(),
    {
        Self::with_capacity_in(capacity, S::default_store())
    }

    /// Creates a new, empty, vector with the given store.
    pub fn new_in(store: S) -> (r: Self)
        requires
            store.wf(),
        ensures
            r.well_formed(),
            r@ == Seq::<T>::empty(),
            r.boundless() == store.unbounded(),
    {
        proof {
            lemma_align_one();
        }
        let dangling = store.dangling(1);
        let handle = match dangling {
            Ok(h) => h,
            Err(_) => unreached(),
        };
        let r = StoreVec { length: 0, capacity: 0, handle, store, _marker: PhantomData };
        proof {
            assert(r@ =~= Seq::<T>::empty());
        }
        r
    }

    /// Creates a new, empty, vector of at least the given capacity, with the
    /// given store.
    pub fn with_capacity_in(capacity: usize, store: S) -> (r: Self)
        requires
            store.wf(),
            store.unbounded() || store.can_allocate((Layout { size: capacity, align: 1 })),
        ensures
            r.well_formed(),
            r@ == Seq::<T>::empty(),
            r.spec_capacity() >= capacity,
            r.boundless() == store.unbounded(),
    {
        let mut store = store;
        proof {
            lemma_align_one();
        }
        let layout = Layout::new(capacity, 1);
        let allocated = store.allocate(layout);
        match allocated {
            Ok((handle, n)) => {
                let r = StoreVec {
                    length: 0,
                    capacity,
                    handle,
                    store,
                    _marker: PhantomData,
                };
                proof {
                    assert(r@ =~= Seq::<T>::empty());
                }
                r
            },
            Err(_) => unreached(),
        }
    }

    /// Returns whether the vector is empty.
    pub fn is_empty(&self) -> (r: bool)
        requires
            self.well_formed(),
        ensures
            r == (self@.len() == 0),
    {
        self.length == 0
    }

    /// Returns the number of elements in the vector.
    pub fn len(&self) -> (r: usize)
        requires
            self.well_formed(),
        ensures
            r == self@.len(),
    {
        self.length
    }

    /// Returns the capacity of the vector.
    pub fn capacity(&self) -> (r: usize)
        requires
            self.well_formed(),
        ensures
            r == self.spec_capacity(),
    {
        self.capacity
    }

    /// Returns a reference to the element at index `n`, if any.
    pub fn get(&self, n: usize) -> (r: Option<&T>)
        requires
            self.well_formed(),
        ensures
            n < self@.len() ==> (r matches Some(e) && *e == self@[n as int]),
            n >= self@.len() ==> r is None,
    {
        if n >= self.length {
            return None;
        }
        Some(self.store.read(self.handle, n))
    }

    /// The smallest power of two no smaller than `min_capacity` (or the
    /// value itself when it is already trivial).
    fn round_up_capacity(min_capacity: usize) -> (r: usize)
        requires
            min_capacity <= usize::MAX / 2 + 1,
        ensures
            r >= min_capacity,
    {
        if min_capacity <= 1 {
            return min_capacity;
        }
        let mut cap: usize = 1;
        while cap < min_capacity
            invariant
                1 <= cap,
                min_capacity <= usize::MAX / 2 + 1,
            decreases usize::MAX - cap,
        {
            proof {
                assert(cap <= usize::MAX / 2);
            }
            cap = cap * 2;
        }
        cap
    }

    /// Grows the backing block so that at least `additional` more elements
    /// fit, keeping every element in place.
    fn grow_for(&mut self, additional: usize)
        requires
            old(self).well_formed(),
            old(self).boundless(),
            old(self)@.len() + additional <= usize::MAX / 2 + 1,
        ensures
            final(self).well_formed(),
            final(self).boundless(),
            final(self)@ == old(self)@,
            final(self).spec_capacity() >= old(self)@.len() + additional,
    {
        let ghost pre = *old(self);
        let target = self.length + additional;
        if target <= self.capacity {
            proof {
                assert(self@ =~= pre@);
            }
            return;
        }
        let target = Self::round_up_capacity(target);
        proof {
            lemma_align_one();
        }
        if self.capacity == 0 {
            let layout = Layout::new(target, 1);
            let allocated = self.store.allocate(layout);
            match allocated {
                Ok((handle, _)) => {
                    self.handle = handle;
                    self.capacity = target;
                },
                Err(_) => unreached(),
            }
            proof {
                assert(self@ =~= pre@);
            }
        } else {
            let old_layout = Layout::new(self.capacity, 1);
            let new_layout = Layout::new(target, 1);
            let grown = self.store.grow(self.handle, old_layout, new_layout);
            match grown {
                Ok((handle, n)) => {
                    proof {
                        assert forall|i: int| 0 <= i < pre.length implies self.store.contents(
                            handle,
                        )[i] == pre.store.contents(pre.handle)[i] by {
                            assert(self.store.contents(handle).subrange(
                                0,
                                pre.capacity as int,
                            )[i] == pre.store.contents(pre.handle).subrange(
                                0,
                                pre.capacity as int,
                            )[i]);
                        }
                    }
                    self.handle = handle;
                    self.capacity = target;
                },
                Err(_) => unreached(),
            }
            proof {
                assert(self@ =~= pre@);
            }
        }
    }

    /// Reserves room for at least `additional` more elements.
    pub fn reserve(&mut self, additional: usize)
        requires
            old(self).well_formed(),
            old(self).boundless(),
            old(self)@.len() + additional <= usize::MAX / 2 + 1,
        ensures
            final(self).well_formed(),
            final(self).boundless(),
            final(self)@ == old(self)@,
            final(self).spec_capacity() >= old(self)@.len() + additional,
    {
        self.grow_for(additional)
    }

    /// Appends an element at the back of the vector, growing it as needed.
    pub fn push(&mut self, value: T)
        requires
            old(self).well_formed(),
            old(self).boundless(),
            old(self)@.len() + 1 <= usize::MAX / 2 + 1,
        ensures
            final(self).well_formed(),
            final(self).boundless(),
            final(self)@ == old(self)@.push(value),
    {
        let ghost pre = *old(self);
        if self.length == self.capacity {
            self.grow_for(1);
        }
        let ghost mid = *self;
        self.store.write(self.handle, self.length, value);
        self.length = self.length + 1;
        proof {
            assert(self@ =~= mid@.push(value));
        }
    }

    /// Borrows the element at index `n` mutably, if any; what the caller
    /// writes through the reference is what the vector then holds there.
    pub fn get_mut(&mut self, n: usize) -> (r: Option<&mut T>)
        requires
            old(self).well_formed(),
        ensures
            n >= old(self)@.len() ==> r is None && *final(self) == *old(self),
            n < old(self)@.len() ==> (r matches Some(e) && *e == old(self)@[n as int]
                && final(self).well_formed()
                && final(self)@ == old(self)@.update(n as int, *final(e))
                && final(self).boundless() == old(self).boundless()
                && final(self).spec_capacity() == old(self).spec_capacity()),
    {
        if n >= self.length {
            return None;
        }
        let ghost pre = *self;
        proof {
            assert forall|v: T|
                Seq::new(
                    pre.length as nat,
                    |i: int|
                        pre.store.contents(pre.handle).update(n as int, Some(v))[i]->Some_0,
                ) =~= pre@.update(n as int, v) by {
            }
        }
        let value = self.store.read_mut(self.handle, n);
        Some(value)
    }

    /// Removes and returns the last element, if any.
    pub fn pop(&mut self) -> (r: Option<T>)
        requires
            old(self).well_formed(),
        ensures
            final(self).well_formed(),
            final(self).boundless() == old(self).boundless(),
            old(self)@.len() == 0 ==> r is None && *final(self) == *old(self),
            old(self)@.len() > 0 ==> (r matches Some(e) && e == old(self)@[old(self)@.len() - 1]
                && final(self)@ == old(self)@.subrange(0, old(self)@.len() - 1)),
    {
        if self.length == 0 {
            return None;
        }
        let ghost pre = *old(self);
        let value = self.store.take(self.handle, self.length - 1);
        self.length = self.length - 1;
        proof {
            assert(self@ =~= pre@.subrange(0, pre@.len() - 1));
        }
        Some(value)
    }
}

impl<T, S: Store<T> + StoreDefault<T>> Default for StoreVec<T, S> {
    /// An empty vector over a default store.
    fn default() -> (r: Self)
        ensures
            r.well_formed(),
            r@ == Seq::<T>::empty(),
            r.boundless(),
    {
        StoreVec::new()
    }
}

} // verus!
