//! A shared-contract store providing one inline block of memory.

use vstd::prelude::*;

use crate::interface::{AllocError, Handle, Layout, Store, StoreDangling};

verus! {

/// A store owning one inline buffer of `N` slots of `T`, under the shared
/// `Store` contract: while its block is live, further allocation fails.
#[derive(Debug)]
pub struct InlineSingleStorage<T, const N: usize> {
    block: Option<Vec<Option<T>>>,
    generation: usize,
}

impl<T, const N: usize> InlineSingleStorage<T, N> {
    /// Creates an empty storage.
    pub fn new() -> (s: Self)
        ensures
            s.wf(),
            forall|h: Handle| !s.valid(h),
    {
        InlineSingleStorage { block: None, generation: 0 }
    }

    /// Builds the full buffer of `N` uninitialized slots.
    fn fresh_block() -> (r: Vec<Option<T>>)
        ensures
            r@ == Seq::new(N as nat, |i: int| Option::<T>::None),
    {
        let mut block: Vec<Option<T>> = Vec::new();
        let mut i: usize = 0;
        while i < N
            invariant
                i <= N,
                block@ == Seq::new(i as nat, |j: int| Option::<T>::None),
            decreases N - i,
        {
            block.push(None);
            i += 1;
            proof {
                assert(block@ =~= Seq::new(i as nat, |j: int| Option::<T>::None));
            }
        }
        block
    }
}

impl<T, const N: usize> Default for InlineSingleStorage<T, N> {
    /// An empty storage, equal to `InlineSingleStorage::new()`.
    fn default() -> (s: Self)
        ensures
            s.wf(),
            forall|h: Handle| !s.valid(h),
    {
        InlineSingleStorage::new()
    }
}

impl<T, const N: usize> StoreDangling<T> for InlineSingleStorage<T, N> {
    closed spec fn wf(&self) -> bool {
        self.block is Some ==> self.block->Some_0@.len() <= N
    }

    closed spec fn valid(&self, h: Handle) -> bool {
        self.block is Some && h.id == self.generation
    }

    closed spec fn contents(&self, h: Handle) -> Seq<Option<T>> {
        self.block->Some_0@
    }

    closed spec fn address(&self, h: Handle) -> int {
        if self.valid(h) {
            0
        } else {
            h.id as int
        }
    }

    closed spec fn unbounded(&self) -> bool {
        false
    }

    fn dangling(&self, alignment: usize) -> (r: Result<Handle, AllocError>) {
        proof {
            assert(alignment as int % alignment as int == 0) by (nonlinear_arith)
                requires
                    alignment >= 1,
            ;
            assert(0int % alignment as int == 0) by (nonlinear_arith)
                requires
                    alignment >= 1,
            ;
        }
        Ok(Handle { id: alignment })
    }
}

impl<T, const N: usize> Store<T> for InlineSingleStorage<T, N> {
    closed spec fn can_allocate(&self, layout: Layout) -> bool {
        self.block is None && layout.size <= N && self.generation < usize::MAX
    }

    fn allocate(&mut self, layout: Layout) -> (r: Result<(Handle, usize), AllocError>) {
        if self.block.is_none() && layout.size <= N && self.generation < usize::MAX {
            let block = Self::fresh_block();
            self.block = Some(block);
            self.generation = self.generation + 1;
            Ok((Handle { id: self.generation }, N))
        } else {
            Err(AllocError)
        }
    }

    fn deallocate(&mut self, h: Handle, layout: Layout) {
        self.block = None;
    }

    fn resolve(&self, h: Handle) -> (r: usize) {
        if self.block.is_some() && h.id == self.generation {
            0
        } else {
            h.id
        }
    }

    fn grow(&mut self, h: Handle, old_layout: Layout, new_layout: Layout) -> (r: Result<
        (Handle, usize),
        AllocError,
    >) {
        let n = match &self.block {
            Some(b) => b.len(),
            None => unreached(),
        };
        if new_layout.size <= n {
            let taken = self.block.take();
            let mut block = match taken {
                Some(b) => b,
                None => unreached(),
            };
            let mut i: usize = old_layout.size;
            while i < block.len()
                invariant
                    old_layout.size <= i <= block@.len(),
                    block@.len() == old(self).contents(h).len(),
                    block@.subrange(0, old_layout.size as int) == old(self).contents(h).subrange(
                        0,
                        old_layout.size as int,
                    ),
                    forall|j: int| old_layout.size <= j < i ==> block@[j] is None,
                decreases block@.len() - i,
            {
                block[i] = None;
                i += 1;
                proof {
                    assert(block@.subrange(0, old_layout.size as int) =~= old(self).contents(
                        h,
                    ).subrange(0, old_layout.size as int));
                }
            }
            self.block = Some(block);
            Ok((h, n))
        } else {
            Err(AllocError)
        }
    }

    fn shrink(&mut self, h: Handle, old_layout: Layout, new_layout: Layout) -> (r: Result<
        (Handle, usize),
        AllocError,
    >) {
        let n = match &self.block {
            Some(b) => b.len(),
            None => unreached(),
        };
        Ok((h, n))
    }

    fn read(&self, h: Handle, index: usize) -> (r: &T) {
        match &self.block {
            Some(block) => match &block[index] {
                Some(value) => value,
                None => unreached(),
            },
            None => unreached(),
        }
    }

    fn write(&mut self, h: Handle, index: usize, value: T) {
        let taken = self.block.take();
        let mut block = match taken {
            Some(b) => b,
            None => unreached(),
        };
        block[index] = Some(value);
        self.block = Some(block);
    }

    fn take(&mut self, h: Handle, index: usize) -> (r: T) {
        let taken = self.block.take();
        let mut block = match taken {
            Some(b) => b,
            None => unreached(),
        };
        let slot = block[index].take();
        let value = match slot {
            Some(v) => v,
            None => unreached(),
        };
        self.block = Some(block);
        value
    }

    fn read_mut(&mut self, h: Handle, index: usize) -> (r: &mut T) {
        let entry = &mut self.block;
        match entry {
            Some(block) => {
                let slot = &mut block[index];
                match slot {
                    Some(value) => value,
                    None => unreached(),
                }
            },
            None => unreached(),
        }
    }
}

} // verus!
