//! A store backed by a growable arena of blocks, the analogue of adapting a
//! general-purpose allocator: any number of live blocks, never exhausted.

use vstd::prelude::*;

use crate::interface::{
    AllocError, Handle, Layout, Store, StoreDangling, StoreDefault, StoreMultiple, StorePinning,
    StoreSharing, StoreSingle, StoreStable,
};

verus! {

/// A store holding each block as an entry of an arena; a handle is the index
/// of its block. Blocks live until deallocated, so the store offers handle
/// multiplicity, and allocation never fails.
#[derive(Clone, Debug)]
pub struct AllocatorStore<T> {
    blocks: Vec<Option<Vec<Option<T>>>>,
}

impl<T> AllocatorStore<T> {
    /// Creates an empty store.
    pub fn new() -> (s: Self)
        ensures
            s.wf(),
            s.unbounded(),
            forall|h: Handle| !s.valid(h),
    {
        AllocatorStore { blocks: Vec::new() }
    }

    /// Builds a block of `n` uninitialized slots.
    fn fresh_block(n: usize) -> (r: Vec<Option<T>>)
        ensures
            r@ == Seq::new(n as nat, |i: int| Option::<T>::None),
    {
        let mut block: Vec<Option<T>> = Vec::new();
        let mut i: usize = 0;
        while i < n
            invariant
                i <= n,
                block@ == Seq::new(i as nat, |j: int| Option::<T>::None),
            decreases n - i,
        {
            block.push(None);
            i += 1;
            proof {
                assert(block@ =~= Seq::new(i as nat, |j: int| Option::<T>::None));
            }
        }
        block
    }
}

impl<T> Default for AllocatorStore<T> {
    /// An empty store, equal to `AllocatorStore::new()`.
    fn default() -> (s: Self)
        ensures
            s.wf(),
            s.unbounded(),
            forall|h: Handle| !s.valid(h),
    {
        AllocatorStore::new()
    }
}

impl<T> StoreDangling<T> for AllocatorStore<T> {
    closed spec fn wf(&self) -> bool {
        true
    }

    closed spec fn valid(&self, h: Handle) -> bool {
        h.id < self.blocks@.len() && self.blocks@[h.id as int] is Some
    }

    closed spec fn contents(&self, h: Handle) -> Seq<Option<T>> {
        self.blocks@[h.id as int]->Some_0@
    }

    closed spec fn address(&self, h: Handle) -> int {
        if self.valid(h) {
            0
        } else {
            h.id as int
        }
    }

    closed spec fn unbounded(&self) -> bool {
        true
    }

    fn dangling(&self, alignment: usize) -> (r: Result<Handle, AllocError>) {
        proof {
            assert(alignment as int % alignment as int == 0) by (nonlinear_arith)
                requires
                    alignment >= 1,
            ;
            assert(0int % alignment as int == 0) by (nonlinear_arith)
                requires
                    alignment >= 1,
            ;
        }
        Ok(Handle { id: alignment })
    }
}

impl<T> StoreDefault<T> for AllocatorStore<T> {
    fn default_store() -> (s: Self) {
        AllocatorStore::new()
    }
}

impl<T> Store<T> for AllocatorStore<T> {
    closed spec fn can_allocate(&self, layout: Layout) -> bool {
        true
    }

    fn allocate(&mut self, layout: Layout) -> (r: Result<(Handle, usize), AllocError>) {
        let id = self.blocks.len();
        let block = Self::fresh_block(layout.size);
        self.blocks.push(Some(block));
        Ok((Handle { id }, layout.size))
    }

    fn deallocate(&mut self, h: Handle, layout: Layout) {
        self.blocks[h.id] = None;
    }

    fn resolve(&self, h: Handle) -> (r: usize) {
        if h.id < self.blocks.len() && self.blocks[h.id].is_some() {
            0
        } else {
            h.id
        }
    }

    fn grow(&mut self, h: Handle, old_layout: Layout, new_layout: Layout) -> (r: Result<
        (Handle, usize),
        AllocError,
    >) {
        let taken = self.blocks[h.id].take();
        let mut block = match taken {
            Some(b) => b,
            None => unreached(),
        };
        block.truncate(old_layout.size);
        while block.len() < new_layout.size
            invariant
                old_layout.size <= block@.len() <= new_layout.size,
                block@.subrange(0, old_layout.size as int) == old(self).contents(h).subrange(
                    0,
                    old_layout.size as int,
                ),
                forall|i: int| old_layout.size <= i < block@.len() ==> block@[i] is None,
            decreases new_layout.size - block@.len(),
        {
            block.push(None);
            proof {
                assert(block@.subrange(0, old_layout.size as int) =~= old(self).contents(
                    h,
                ).subrange(0, old_layout.size as int));
            }
        }
        self.blocks[h.id] = Some(block);
        Ok((h, new_layout.size))
    }

    fn shrink(&mut self, h: Handle, old_layout: Layout, new_layout: Layout) -> (r: Result<
        (Handle, usize),
        AllocError,
    >) {
        let taken = self.blocks[h.id].take();
        let mut block = match taken {
            Some(b) => b,
            None => unreached(),
        };
        block.truncate(new_layout.size);
        self.blocks[h.id] = Some(block);
        Ok((h, new_layout.size))
    }

    fn read(&self, h: Handle, index: usize) -> (r: &T) {
        match &self.blocks[h.id] {
            Some(block) => match &block[index] {
                Some(value) => value,
                None => unreached(),
            },
            None => unreached(),
        }
    }

    fn write(&mut self, h: Handle, index: usize, value: T) {
        let taken = self.blocks[h.id].take();
        let mut block = match taken {
            Some(b) => b,
            None => unreached(),
        };
        block[index] = Some(value);
        self.blocks[h.id] = Some(block);
    }

    fn take(&mut self, h: Handle, index: usize) -> (r: T) {
        let taken = self.blocks[h.id].take();
        let mut block = match taken {
            Some(b) => b,
            None => unreached(),
        };
        let slot = block[index].take();
        let value = match slot {
            Some(v) => v,
            None => unreached(),
        };
        self.blocks[h.id] = Some(block);
        value
    }

    fn read_mut(&mut self, h: Handle, index: usize) -> (r: &mut T) {
        let entry = &mut self.blocks[h.id];
        match entry {
            Some(block) => {
                let slot = &mut block[index];
                match slot {
                    Some(value) => value,
                    None => unreached(),
                }
            },
            None => unreached(),
        }
    }
}

impl<T> StoreSingle<T> for AllocatorStore<T> {
    closed spec fn can_allocate_single(&self, layout: Layout) -> bool {
        true
    }

    fn allocate_single(&mut self, layout: Layout) -> (r: Result<(Handle, usize), AllocError>) {
        Store::allocate(self, layout)
    }

    fn deallocate_single(&mut self, h: Handle, layout: Layout) {
        Store::deallocate(self, h, layout)
    }

    fn resolve_single(&self, h: Handle) -> (r: usize) {
        Store::resolve(self, h)
    }

    fn grow_single(&mut self, h: Handle, old_layout: Layout, new_layout: Layout) -> (r: Result<
        (Handle, usize),
        AllocError,
    >) {
        Store::grow(self, h, old_layout, new_layout)
    }

    fn shrink_single(&mut self, h: Handle, old_layout: Layout, new_layout: Layout) -> (r: Result<
        (Handle, usize),
        AllocError,
    >) {
        Store::shrink(self, h, old_layout, new_layout)
    }

    fn read_single(&self, h: Handle, index: usize) -> (r: &T) {
        Store::read(self, h, index)
    }

    fn write_single(&mut self, h: Handle, index: usize, value: T) {
        Store::write(self, h, index, value)
    }

    fn read_mut_single(&mut self, h: Handle, index: usize) -> (r: &mut T) {
        Store::read_mut(self, h, index)
    }

    fn take_single(&mut self, h: Handle, index: usize) -> (r: T) {
        Store::take(self, h, index)
    }
}

impl<T> StoreMultiple<T> for AllocatorStore<T> {

}

impl<T> StoreStable<T> for AllocatorStore<T> {

}

impl<T> StorePinning<T> for AllocatorStore<T> {

}

impl<T> StoreSharing<T> for AllocatorStore<T> {
    type SharingError = AllocError;

    /// Any two arena stores can act as parts of one logical store for
    /// consumers that move values between parts; nothing beyond the stated
    /// contract is promised of a foreign handle.
    fn is_sharing_with(&self, other: &Self) -> bool {
        true
    }

    fn share(&self) -> (r: Result<Self, Self::SharingError>) {
        Ok(AllocatorStore::new())
    }
}

/// A store that refuses every request: allocation always fails and no handle
/// is ever live. Useful to exercise the failure paths of consumers.
#[derive(Debug, Default)]
pub struct NonAllocator;

impl<T> StoreDangling<T> for NonAllocator {
    closed spec fn wf(&self) -> bool {
        true
    }

    closed spec fn valid(&self, h: Handle) -> bool {
        false
    }

    closed spec fn contents(&self, h: Handle) -> Seq<Option<T>> {
        Seq::empty()
    }

    closed spec fn address(&self, h: Handle) -> int {
        h.id as int
    }

    closed spec fn unbounded(&self) -> bool {
        false
    }

    fn dangling(&self, alignment: usize) -> (r: Result<Handle, AllocError>) {
        proof {
            assert(alignment as int % alignment as int == 0) by (nonlinear_arith)
                requires
                    alignment >= 1,
            ;
            assert(0int % alignment as int == 0) by (nonlinear_arith)
                requires
                    alignment >= 1,
            ;
        }
        Ok(Handle { id: alignment })
    }
}

impl<T> Store<T> for NonAllocator {
    closed spec fn can_allocate(&self, layout: Layout) -> bool {
        false
    }

    fn allocate(&mut self, layout: Layout) -> (r: Result<(Handle, usize), AllocError>) {
        Err(AllocError)
    }

    fn deallocate(&mut self, h: Handle, layout: Layout) {
    }

    fn resolve(&self, h: Handle) -> (r: usize) {
        h.id
    }

    fn grow(&mut self, h: Handle, old_layout: Layout, new_layout: Layout) -> (r: Result<
        (Handle, usize),
        AllocError,
    >) {
        Err(AllocError)
    }

    fn shrink(&mut self, h: Handle, old_layout: Layout, new_layout: Layout) -> (r: Result<
        (Handle, usize),
        AllocError,
    >) {
        Err(AllocError)
    }

    fn read(&self, h: Handle, index: usize) -> (r: &T) {
        unreached()
    }

    fn write(&mut self, h: Handle, index: usize, value: T) {
        unreached()
    }

    fn take(&mut self, h: Handle, index: usize) -> (r: T) {
        unreached()
    }

    fn read_mut(&mut self, h: Handle, index: usize) -> (r: &mut T) {
        unreached()
    }
}

impl<T> StoreSingle<T> for NonAllocator {
    closed spec fn can_allocate_single(&self, layout: Layout) -> bool {
        false
    }

    fn allocate_single(&mut self, layout: Layout) -> (r: Result<(Handle, usize), AllocError>) {
        Err(AllocError)
    }

    fn deallocate_single(&mut self, h: Handle, layout: Layout) {
    }

    fn resolve_single(&self, h: Handle) -> (r: usize) {
        h.id
    }

    fn grow_single(&mut self, h: Handle, old_layout: Layout, new_layout: Layout) -> (r: Result<
        (Handle, usize),
        AllocError,
    >) {
        Err(AllocError)
    }

    fn shrink_single(&mut self, h: Handle, old_layout: Layout, new_layout: Layout) -> (r: Result<
        (Handle, usize),
        AllocError,
    >) {
        Err(AllocError)
    }

    fn read_single(&self, h: Handle, index: usize) -> (r: &T) {
        unreached()
    }

    fn write_single(&mut self, h: Handle, index: usize, value: T) {
        unreached()
    }

    fn read_mut_single(&mut self, h: Handle, index: usize) -> (r: &mut T) {
        unreached()
    }

    fn take_single(&mut self, h: Handle, index: usize) -> (r: T) {
        unreached()
    }
}

} // verus!
