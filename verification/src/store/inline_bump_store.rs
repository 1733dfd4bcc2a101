//! A dead simple bump store over one inline block of memory.
//!
//! Allocation moves a watermark forward; deallocation is a no-op, so memory
//! is reclaimed only when the store is dropped. Growing the block allocated
//! last happens in place; any other block is relocated past the watermark.

use vstd::prelude::*;

use crate::interface::{AllocError, Handle, Layout, Store, StoreDangling, StoreMultiple};

verus! {

/// Aligning `off` upwards to a multiple of `a`.
pub open spec fn align_up(off: int, a: int) -> int {
    off + ((a - off % a) % a)
}

/// A store bump-allocating out of one inline buffer of `N` slots of `T`;
/// a handle is the offset of its block.
pub struct InlineBumpStore<T, const N: usize> {
    memory: Vec<Option<T>>,
    watermark: usize,
    // block offset to block extent, for every live block
    extents: Ghost<Map<int, int>>,
}

impl<T, const N: usize> InlineBumpStore<T, N> {
    /// Creates an empty store.
    pub fn new() -> (s: Self)
        ensures
            s.wf(),
            forall|h: Handle| !s.valid(h),
    {
        let mut memory: Vec<Option<T>> = Vec::new();
        let mut i: usize = 0;
        while i < N
            invariant
                i <= N,
                memory@ == Seq::new(i as nat, |j: int| Option::<T>::None),
            decreases N - i,
        {
            memory.push(None);
            i += 1;
            proof {
                assert(memory@ =~= Seq::new(i as nat, |j: int| Option::<T>::None));
            }
        }
        InlineBumpStore { memory, watermark: 0, extents: Ghost(Map::empty()) }
    }

    /// Returns the offset of the next block and the watermark after it, or
    /// fails when the request does not fit under the buffer end.
    fn compute_offset(watermark: usize, layout: Layout) -> (r: Result<(usize, usize), AllocError>)
        requires
            layout.well_formed(),
            watermark <= N,
        ensures
            r is Ok <==> align_up(watermark as int, layout.align as int) + (if layout.size == 0 {
                1int
            } else {
                layout.size as int
            }) <= N,
            r matches Ok((aligned, nw)) ==> {
                &&& aligned == align_up(watermark as int, layout.align as int)
                &&& watermark <= aligned
                &&& nw == aligned + (if layout.size == 0 {
                    1int
                } else {
                    layout.size as int
                })
                &&& nw <= N
            },
    {
        let size = if layout.size == 0 {
            1
        } else {
            layout.size
        };
        let rem = watermark % layout.align;
        let pad = if rem == 0 {
            0
        } else {
            layout.align - rem
        };
        proof {
            assert(0 <= watermark as int % (layout.align as int) < layout.align as int) by (
            nonlinear_arith)
                requires
                    layout.align >= 1,
                    watermark >= 0,
            ;
            if rem == 0 {
                assert((layout.align as int - 0) % (layout.align as int) == 0) by (
                nonlinear_arith)
                    requires
                        layout.align >= 1,
                ;
            } else {
                assert((layout.align as int - rem as int) % (layout.align as int) == layout.align
                    as int - rem as int) by (nonlinear_arith)
                    requires
                        0 < rem < layout.align,
                ;
            }
        }
        if pad > N - watermark {
            return Err(AllocError);
        }
        let aligned = watermark + pad;
        if size > N - aligned {
            return Err(AllocError);
        }
        Ok((aligned, aligned + size))
    }
}

impl<T, const N: usize> Default for InlineBumpStore<T, N> {
    /// An empty store, equal to `InlineBumpStore::new()`.
    fn default() -> (s: Self)
        ensures
            s.wf(),
            forall|h: Handle| !s.valid(h),
    {
        InlineBumpStore::new()
    }
}

impl<T, const N: usize> StoreDangling<T> for InlineBumpStore<T, N> {
    closed spec fn wf(&self) -> bool {
        &&& self.memory@.len() == N
        &&& self.watermark <= N
        &&& (forall|k: int|
            #[trigger] self.extents@.dom().contains(k) ==> 0 <= k && 1 <= self.extents@[k] && k
                + self.extents@[k] <= self.watermark)
        &&& (forall|k1: int, k2: int|
            #![trigger self.extents@.dom().contains(k1), self.extents@.dom().contains(k2)]
            self.extents@.dom().contains(k1) && self.extents@.dom().contains(k2) && k1 != k2
                ==> k1 + self.extents@[k1] <= k2 || k2 + self.extents@[k2] <= k1)
        &&& (forall|i: int| self.watermark <= i < N ==> #[trigger] self.memory@[i] is None)
    }

    closed spec fn valid(&self, h: Handle) -> bool {
        self.extents@.dom().contains(h.id as int)
    }

    closed spec fn contents(&self, h: Handle) -> Seq<Option<T>> {
        self.memory@.subrange(h.id as int, h.id as int + self.extents@[h.id as int])
    }

    closed spec fn address(&self, h: Handle) -> int {
        h.id as int
    }

    closed spec fn unbounded(&self) -> bool {
        false
    }

    fn dangling(&self, alignment: usize) -> (r: Result<Handle, AllocError>) {
        proof {
            assert(alignment as int % alignment as int == 0) by (nonlinear_arith)
                requires
                    alignment >= 1,
            ;
        }
        Ok(Handle { id: alignment })
    }
}

impl<T, const N: usize> Store<T> for InlineBumpStore<T, N> {
    closed spec fn can_allocate(&self, layout: Layout) -> bool {
        align_up(self.watermark as int, layout.align as int) + (if layout.size == 0 {
            1int
        } else {
            layout.size as int
        }) <= N
    }

    fn allocate(&mut self, layout: Layout) -> (r: Result<(Handle, usize), AllocError>) {
        let computed = Self::compute_offset(self.watermark, layout);
        match computed {
            Err(_) => Err(AllocError),
            Ok((aligned, new_watermark)) => {
                let ghost pre = *self;
                let n = new_watermark - aligned;
                self.watermark = new_watermark;
                self.extents = Ghost(
                    self.extents@.insert(aligned as int, n as int),
                );
                proof {
                    let h = Handle { id: aligned };
                    assert(!pre.valid(h)) by {
                        if pre.extents@.dom().contains(aligned as int) {
                            assert(aligned as int + pre.extents@[aligned as int]
                                <= pre.watermark);
                        }
                    }
                    assert(self.contents(h) =~= Seq::new(
                        n as nat,
                        |i: int| Option::<T>::None,
                    ));
                    assert forall|g: Handle| pre.valid(g) implies self.valid(g)
                        && self.contents(g) == pre.contents(g) by {
                        assert(g.id as int + pre.extents@[g.id as int] <= pre.watermark);
                        assert(g.id as int != aligned as int);
                        assert(self.contents(g) =~= pre.contents(g));
                    }
                    assert(n >= layout.size);
                }
                Ok((Handle { id: aligned }, n))
            },
        }
    }

    fn deallocate(&mut self, h: Handle, layout: Layout) {
        let ghost pre = *self;
        self.extents = Ghost(self.extents@.remove(h.id as int));
        proof {
            assert forall|g: Handle| g != h && pre.valid(g) implies self.valid(g)
                && self.contents(g) == pre.contents(g) by {
                assert(self.contents(g) =~= pre.contents(g));
            }
        }
    }

    fn resolve(&self, h: Handle) -> (r: usize) {
        h.id
    }

    fn grow(&mut self, h: Handle, old_layout: Layout, new_layout: Layout) -> (r: Result<
        (Handle, usize),
        AllocError,
    >) {
        let ghost pre = *self;
        proof {
            assert(h.id as int + pre.extents@[h.id as int] <= pre.watermark);
        }
        // growth happens in place when the block was the last one allocated
        if h.id <= self.watermark && old_layout.size == self.watermark - h.id && new_layout.size
            <= N - h.id {
            proof {
                assert(pre.extents@[h.id as int] == old_layout.size as int);
            }
            let n = if new_layout.size == 0 {
                1
            } else {
                new_layout.size
            };
            if n > N - h.id {
                return Err(AllocError);
            }
            self.watermark = h.id + n;
            self.extents = Ghost(self.extents@.insert(h.id as int, n as int));
            proof {
                assert(self.contents(h).subrange(0, old_layout.size as int) =~= pre.contents(
                    h,
                ).subrange(0, old_layout.size as int));
                assert forall|i: int| old_layout.size <= i < n implies self.contents(h)[i]
                    is None by {
                    assert(pre.memory@[h.id as int + i] is None);
                }
                assert forall|g: Handle| g != h && pre.valid(g) implies self.valid(g)
                    && self.contents(g) == pre.contents(g) by {
                    assert(g.id as int + pre.extents@[g.id as int] <= h.id as int
                        || h.id as int + pre.extents@[h.id as int] <= g.id as int);
                    assert(self.contents(g) =~= pre.contents(g));
                }
                assert(self.wf()) by {
                    assert forall|k: int| #[trigger] self.extents@.dom().contains(k) implies 0
                        <= k && 1 <= self.extents@[k] && k + self.extents@[k]
                        <= self.watermark by {
                        if k != h.id as int {
                            assert(pre.extents@.dom().contains(k));
                            assert(k + pre.extents@[k] <= h.id as int || h.id as int
                                + pre.extents@[h.id as int] <= k);
                        }
                    }
                    assert forall|k1: int, k2: int|
                        #![trigger self.extents@.dom().contains(k1), self.extents@.dom().contains(k2)]
                        self.extents@.dom().contains(k1) && self.extents@.dom().contains(k2)
                            && k1 != k2 implies k1 + self.extents@[k1] <= k2 || k2
                        + self.extents@[k2] <= k1 by {
                        if k1 != h.id as int && k2 != h.id as int {
                            assert(pre.extents@.dom().contains(k1));
                            assert(pre.extents@.dom().contains(k2));
                        } else if k1 == h.id as int {
                            assert(pre.extents@.dom().contains(k2));
                            assert(k2 + pre.extents@[k2] <= h.id as int || h.id as int
                                + pre.extents@[h.id as int] <= k2);
                            assert(k2 + pre.extents@[k2] <= pre.watermark);
                        } else {
                            assert(pre.extents@.dom().contains(k1));
                            assert(k1 + pre.extents@[k1] <= h.id as int || h.id as int
                                + pre.extents@[h.id as int] <= k1);
                            assert(k1 + pre.extents@[k1] <= pre.watermark);
                        }
                    }
                }
            }
            return Ok((h, n));
        }
        // otherwise relocate the block past the watermark
        let computed = Self::compute_offset(self.watermark, new_layout);
        match computed {
            Err(_) => Err(AllocError),
            Ok((aligned, new_watermark)) => {
                let n = new_watermark - aligned;
                let ghost mid = *self;
                self.watermark = new_watermark;
                let mut i: usize = 0;
                while i < old_layout.size
                    invariant
                        i <= old_layout.size,
                        self.watermark == new_watermark,
                        self.extents == pre.extents,
                        self.memory@.len() == N,
                        pre.wf(),
                        pre.extents@.dom().contains(h.id as int),
                        old_layout.size as int <= pre.extents@[h.id as int],
                        h.id as int + pre.extents@[h.id as int] <= pre.watermark,
                        pre.watermark as int <= aligned as int,
                        aligned as int + n <= N,
                        old_layout.size <= n,
                        n == new_watermark - aligned,
                        forall|j: int|
                            0 <= j < i ==> #[trigger] self.memory@[aligned as int + j]
                                == pre.memory@[h.id as int + j],
                        forall|j: int|
                            i <= j < old_layout.size ==> #[trigger] self.memory@[h.id as int + j]
                                == pre.memory@[h.id as int + j],
                        forall|j: int|
                            0 <= j < N && !(h.id as int <= j < h.id as int + i) && !(
                            aligned as int <= j < aligned as int + i) ==> #[trigger] self.memory@[j]
                                == pre.memory@[j],
                        forall|j: int|
                            aligned as int + i <= j < N ==> #[trigger] self.memory@[j] is None,
                    decreases old_layout.size - i,
                {
                    let moved = self.memory[h.id + i].take();
                    self.memory[aligned + i] = moved;
                    i += 1;
                }
                self.extents = Ghost(
                    pre.extents@.remove(h.id as int).insert(aligned as int, n as int),
                );
                proof {
                    let g2 = Handle { id: aligned };
                    assert(!pre.valid(g2)) by {
                        if pre.extents@.dom().contains(aligned as int) {
                            assert(aligned as int + pre.extents@[aligned as int]
                                <= pre.watermark);
                        }
                    }
                    assert(g2 != h);
                    assert forall|j: int| 0 <= j < old_layout.size implies self.contents(g2)[j]
                        == pre.contents(h)[j] by {
                        assert(self.memory@[aligned as int + j] == pre.memory@[h.id as int + j]);
                    }
                    assert(self.contents(g2).subrange(0, old_layout.size as int) =~= pre.contents(
                        h,
                    ).subrange(0, old_layout.size as int));
                    assert forall|j: int| old_layout.size <= j < n implies self.contents(g2)[j]
                        is None by {
                        assert(self.memory@[aligned as int + j] is None);
                    }
                    assert(!self.valid(h));
                    assert forall|g: Handle| g != h && pre.valid(g) implies self.valid(g)
                        && self.contents(g) == pre.contents(g) by {
                        assert(g.id as int + pre.extents@[g.id as int] <= h.id as int
                            || h.id as int + pre.extents@[h.id as int] <= g.id as int);
                        assert(g.id as int + pre.extents@[g.id as int] <= pre.watermark);
                        assert(self.contents(g) =~= pre.contents(g));
                    }
                    assert(self.wf()) by {
                        assert forall|k: int| #[trigger] self.extents@.dom().contains(k) implies 0
                            <= k && 0 <= self.extents@[k] && k + self.extents@[k]
                            <= self.watermark by {
                            if k != aligned as int {
                                assert(pre.extents@.dom().contains(k));
                            }
                        }
                        assert forall|k1: int, k2: int|
                            #![trigger self.extents@.dom().contains(k1), self.extents@.dom().contains(k2)]
                            self.extents@.dom().contains(k1) && self.extents@.dom().contains(k2)
                                && k1 != k2 implies k1 + self.extents@[k1] <= k2 || k2
                            + self.extents@[k2] <= k1 by {
                            if k1 != aligned as int && k2 != aligned as int {
                                assert(pre.extents@.dom().contains(k1));
                                assert(pre.extents@.dom().contains(k2));
                            } else if k1 == aligned as int {
                                assert(pre.extents@.dom().contains(k2));
                                assert(k2 + pre.extents@[k2] <= pre.watermark);
                            } else {
                                assert(pre.extents@.dom().contains(k1));
                                assert(k1 + pre.extents@[k1] <= pre.watermark);
                            }
                        }
                    }
                }
                Ok((Handle { id: aligned }, n))
            },
        }
    }

    fn shrink(&mut self, h: Handle, old_layout: Layout, new_layout: Layout) -> (r: Result<
        (Handle, usize),
        AllocError,
    >) {
        let ghost pre = *self;
        let n = if old_layout.size == 0 {
            1
        } else {
            old_layout.size
        };
        proof {
            assert(h.id as int + pre.extents@[h.id as int] <= pre.watermark);
            assert(pre.extents@[h.id as int] >= 1);
        }
        self.extents = Ghost(self.extents@.insert(h.id as int, n as int));
        proof {
            assert(self.contents(h).subrange(0, new_layout.size as int) =~= pre.contents(
                h,
            ).subrange(0, new_layout.size as int));
            assert forall|g: Handle| g != h && pre.valid(g) implies self.valid(g)
                && self.contents(g) == pre.contents(g) by {
                assert(self.contents(g) =~= pre.contents(g));
            }
            assert forall|k1: int, k2: int|
                #![trigger self.extents@.dom().contains(k1), self.extents@.dom().contains(k2)]
                self.extents@.dom().contains(k1) && self.extents@.dom().contains(k2) && k1 != k2
                implies k1 + self.extents@[k1] <= k2 || k2 + self.extents@[k2] <= k1 by {
                assert(pre.extents@.dom().contains(k1));
                assert(pre.extents@.dom().contains(k2));
            }
        }
        Ok((h, n))
    }

    fn read(&self, h: Handle, index: usize) -> (r: &T) {
        proof {
            assert(h.id as int + self.extents@[h.id as int] <= self.watermark);
        }
        match &self.memory[h.id + index] {
            Some(value) => value,
            None => unreached(),
        }
    }

    fn write(&mut self, h: Handle, index: usize, value: T) {
        let ghost pre = *self;
        proof {
            assert(h.id as int + self.extents@[h.id as int] <= self.watermark);
        }
        self.memory[h.id + index] = Some(value);
        proof {
            assert(self.contents(h) =~= pre.contents(h).update(index as int, Some(value)));
            assert forall|g: Handle| g != h && pre.valid(g) implies self.contents(g)
                == pre.contents(g) by {
                assert(g.id as int + pre.extents@[g.id as int] <= h.id as int || h.id as int
                    + pre.extents@[h.id as int] <= g.id as int);
                assert(self.contents(g) =~= pre.contents(g));
            }
        }
    }

    fn read_mut(&mut self, h: Handle, index: usize) -> (r: &mut T) {
        let ghost pre = *self;
        proof {
            assert(h.id as int + self.extents@[h.id as int] <= self.watermark);
            assert forall|v: T, g: Handle|
                g != h && pre.valid(g) implies pre.memory@.update(
                h.id as int + index as int,
                Some(v),
            ).subrange(g.id as int, g.id as int + pre.extents@[g.id as int])
                == pre.contents(g) by {
                assert(g.id as int + pre.extents@[g.id as int] <= h.id as int || h.id as int
                    + pre.extents@[h.id as int] <= g.id as int);
                assert(pre.memory@.update(h.id as int + index as int, Some(v)).subrange(
                    g.id as int,
                    g.id as int + pre.extents@[g.id as int],
                ) =~= pre.contents(g));
            }
            assert forall|v: T|
                pre.memory@.update(h.id as int + index as int, Some(v)).subrange(
                    h.id as int,
                    h.id as int + pre.extents@[h.id as int],
                ) == pre.contents(h).update(index as int, Some(v)) by {
                assert(pre.memory@.update(h.id as int + index as int, Some(v)).subrange(
                    h.id as int,
                    h.id as int + pre.extents@[h.id as int],
                ) =~= pre.contents(h).update(index as int, Some(v)));
            }
        }
        let slot = &mut self.memory[h.id + index];
        match slot {
            Some(value) => value,
            None => unreached(),
        }
    }

    fn take(&mut self, h: Handle, index: usize) -> (r: T) {
        let ghost pre = *self;
        proof {
            assert(h.id as int + self.extents@[h.id as int] <= self.watermark);
        }
        let slot = self.memory[h.id + index].take();
        let value = match slot {
            Some(v) => v,
            None => unreached(),
        };
        proof {
            assert(self.contents(h) =~= pre.contents(h).update(index as int, Option::<T>::None));
            assert forall|g: Handle| g != h && pre.valid(g) implies self.contents(g)
                == pre.contents(g) by {
                assert(g.id as int + pre.extents@[g.id as int] <= h.id as int || h.id as int
                    + pre.extents@[h.id as int] <= g.id as int);
                assert(self.contents(g) =~= pre.contents(g));
            }
        }
        value
    }
}

impl<T, const N: usize> StoreMultiple<T> for InlineBumpStore<T, N> {

}

} // verus!
