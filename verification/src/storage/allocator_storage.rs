//! An adapter presenting the arena-backed allocator as a shared storage.

use vstd::prelude::*;

use crate::interface::{AllocError, Handle, Layout, Store, StoreDangling, StoreDefault};
use crate::store::allocator_store::AllocatorStore;

verus! {

/// A storage delegating every operation to an arena-backed allocator store.
#[derive(Debug)]
pub struct AllocatorStorage<T> {
    inner: AllocatorStore<T>,
}

impl<T> AllocatorStorage<T> {
    /// Creates an empty storage over a fresh arena.
    pub fn new() -> (s: Self)
        ensures
            s.wf(),
            s.unbounded(),
            forall|h: Handle| !s.valid(h),
    {
        AllocatorStorage { inner: AllocatorStore::new() }
    }
}

impl<T> Default for AllocatorStorage<T> {
    /// An empty storage, equal to `AllocatorStorage::new()`.
    fn default() -> (s: Self)
        ensures
            s.wf(),
            s.unbounded(),
            forall|h: Handle| !s.valid(h),
    {
        AllocatorStorage::new()
    }
}

impl<T> StoreDangling<T> for AllocatorStorage<T> {
    closed spec fn wf(&self) -> bool {
        self.inner.wf()
    }

    closed spec fn valid(&self, h: Handle) -> bool {
        self.inner.valid(h)
    }

    closed spec fn contents(&self, h: Handle) -> Seq<Option<T>> {
        self.inner.contents(h)
    }

    closed spec fn address(&self, h: Handle) -> int {
        self.inner.address(h)
    }

    closed spec fn unbounded(&self) -> bool {
        self.inner.unbounded()
    }

    fn dangling(&self, alignment: usize) -> (r: Result<Handle, AllocError>) {
        StoreDangling::dangling(&self.inner, alignment)
    }
}

impl<T> StoreDefault<T> for AllocatorStorage<T> {
    fn default_store() -> (s: Self) {
        AllocatorStorage::new()
    }
}

impl<T> Store<T> for AllocatorStorage<T> {
    closed spec fn can_allocate(&self, layout: Layout) -> bool {
        self.inner.can_allocate(layout)
    }

    fn allocate(&mut self, layout: Layout) -> (r: Result<(Handle, usize), AllocError>) {
        Store::allocate(&mut self.inner, layout)
    }

    fn deallocate(&mut self, h: Handle, layout: Layout) {
        Store::deallocate(&mut self.inner, h, layout)
    }

    fn resolve(&self, h: Handle) -> (r: usize) {
        Store::resolve(&self.inner, h)
    }

    fn grow(&mut self, h: Handle, old_layout: Layout, new_layout: Layout) -> (r: Result<
        (Handle, usize),
        AllocError,
    >) {
        Store::grow(&mut self.inner, h, old_layout, new_layout)
    }

    fn shrink(&mut self, h: Handle, old_layout: Layout, new_layout: Layout) -> (r: Result<
        (Handle, usize),
        AllocError,
    >) {
        Store::shrink(&mut self.inner, h, old_layout, new_layout)
    }

    fn read(&self, h: Handle, index: usize) -> (r: &T) {
        Store::read(&self.inner, h, index)
    }

    fn write(&mut self, h: Handle, index: usize, value: T) {
        Store::write(&mut self.inner, h, index, value)
    }

    fn take(&mut self, h: Handle, index: usize) -> (r: T) {
        Store::take(&mut self.inner, h, index)
    }

    fn read_mut(&mut self, h: Handle, index: usize) -> (r: &mut T) {
        Store::read_mut(&mut self.inner, h, index)
    }
}

} // verus!
