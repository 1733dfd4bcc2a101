//! The store traits themselves: the contract every backend must satisfy.

use vstd::prelude::*;

verus! {

/// The sole recoverable error: an allocation request could not be satisfied,
/// whether by exhaustion or by an unmet layout constraint.
#[derive(Clone, Copy, Debug, PartialEq, Eq, Structural)]
pub struct AllocError;

/// An opaque, copyable token identifying a block of memory owned by the store
/// instance that produced it. A handle does not self-report whether it is
/// dangling or live: the consumer tracks that externally.
#[derive(Clone, Copy, Debug, PartialEq, Eq, Structural)]
pub struct Handle {
    pub id: usize,
}

/// The shape of a requested or existing block: a slot count and an address
/// alignment, the alignment always a power of two.
#[derive(Clone, Copy, Debug, PartialEq, Eq, Structural)]
pub struct Layout {
    pub size: usize,
    pub align: usize,
}

/// Whether `align` is a valid alignment: a power of two.
pub open spec fn is_alignment(align: usize) -> bool {
    align >= 1 && (align & (align as usize - 1) as usize) == 0
}

impl Layout {
    /// A layout is well-formed when its alignment is a power of two.
    pub open spec fn well_formed(self) -> bool {
        is_alignment(self.align)
    }

    /// Builds the layout describing `size` slots at alignment `align`.
    pub fn new(size: usize, align: usize) -> (r: Self)
        requires
            is_alignment(align),
        ensures
            r.size == size,
            r.align == align,
            r.well_formed(),
    {
        Layout { size, align }
    }
}

} // verus!
verus! {

/// A value with a distinguished all-zero representation, used by the zeroed
/// allocation variants to state exactly what freshly zeroed slots contain.
pub trait Zeroable: Copy {
    /// The zero value of the type.
    spec fn zero_spec() -> Self;

    /// Produces the zero value.
    fn zeroed() -> (r: Self)
        ensures
            r == Self::zero_spec(),
    ;
}

impl Zeroable for u8 {
    open spec fn zero_spec() -> Self {
        0u8
    }

    fn zeroed() -> (r: Self) {
        0u8
    }
}

impl Zeroable for u32 {
    open spec fn zero_spec() -> Self {
        0u32
    }

    fn zeroed() -> (r: Self) {
        0u32
    }
}

impl Zeroable for u64 {
    open spec fn zero_spec() -> Self {
        0u64
    }

    fn zeroed() -> (r: Self) {
        0u64
    }
}

impl Zeroable for usize {
    open spec fn zero_spec() -> Self {
        0usize
    }

    fn zeroed() -> (r: Self) {
        0usize
    }
}

impl Zeroable for i32 {
    open spec fn zero_spec() -> Self {
        0i32
    }

    fn zeroed() -> (r: Self) {
        0i32
    }
}

/// The base of the store traits: the well-formedness and block model shared by
/// `Store` and `StoreSingle`, and the ability to mint dangling handles.
///
/// A store of element type `T` owns blocks of `T`-slots. Each slot is either
/// uninitialized (`None` in the model) or holds a value. The model exposes,
/// for every handle, whether it is live (`valid`), the slots of its block
/// (`contents`), and the address its block resolves to (`address`).
pub trait StoreDangling<T>: Sized {
    /// Whether the store is in a usable state. Constructors establish this
    /// and every operation preserves it.
    spec fn wf(&self) -> bool;

    /// Whether `h` is a live handle of this store.
    spec fn valid(&self, h: Handle) -> bool;

    /// The slots of the block associated with `h`; meaningful only while
    /// `valid(h)` holds.
    spec fn contents(&self, h: Handle) -> Seq<Option<T>>;

    /// The model address the block of `h` currently resolves to.
    spec fn address(&self, h: Handle) -> int;

    /// Whether allocation requests on this store always succeed.
    spec fn unbounded(&self) -> bool;

    /// Mints a dangling handle: never associated with memory, but resolving
    /// to an address that satisfies `alignment`. Fails only when the store
    /// cannot represent the alignment; alignment 1 always succeeds.
    fn dangling(&self, alignment: usize) -> (r: Result<Handle, AllocError>)
        requires
            self.wf(),
            is_alignment(alignment),
        ensures
            r matches Ok(h) ==> self.address(h) % (alignment as int) == 0,
            alignment == 1 ==> r is Ok,
    ;
}

/// A store that can be created ready for use, the counterpart of a `Default`
/// bound with a contract Verus can rely on.
pub trait StoreDefault<T>: StoreDangling<T> {
    /// A fresh store: well-formed, with no live handle, and never exhausting.
    fn default_store() -> (s: Self)
        ensures
            s.wf(),
            s.unbounded(),
            forall|h: Handle| !s.valid(h),
    ;
}

} // verus!
verus! {

/// A store supporting several live allocations at a time, with handles that
/// survive further allocations (handle multiplicity).
///
/// The contracts below are the invalidation rules of the abstraction:
/// which handles stay valid across each operation, and which block contents
/// are preserved, are stated exactly, so consumers can be verified against
/// any backend.
pub trait Store<T>: StoreDangling<T> {
    /// Whether an allocation request for `layout` would currently succeed.
    spec fn can_allocate(&self, layout: Layout) -> bool;

    /// Attempts to allocate a block of at least `layout.size` uninitialized
    /// slots, returning its handle and its actual slot count.
    ///
    /// Every previously live handle stays live, with its block unchanged.
    fn allocate(&mut self, layout: Layout) -> (r: Result<(Handle, usize), AllocError>)
        requires
            old(self).wf(),
            layout.well_formed(),
        ensures
            final(self).wf(),
            final(self).unbounded() == old(self).unbounded(),
            r is Ok <==> old(self).can_allocate(layout),
            old(self).unbounded() ==> r is Ok,
            r matches Ok((h, n)) ==> {
                &&& n >= layout.size
                &&& !old(self).valid(h)
                &&& final(self).valid(h)
                &&& final(self).contents(h) == Seq::new(n as nat, |i: int| Option::<T>::None)
            },
            r is Err ==> *final(self) == *old(self),
            forall|g: Handle|
                old(self).valid(g) ==> final(self).valid(g) && final(self).contents(g)
                    == old(self).contents(g),
    ;

    /// Releases the block of `h`. The handle and all its copies are invalid
    /// immediately; every other live handle is unaffected.
    fn deallocate(&mut self, h: Handle, layout: Layout)
        requires
            old(self).wf(),
            old(self).valid(h),
            layout.size <= old(self).contents(h).len(),
        ensures
            final(self).wf(),
            final(self).unbounded() == old(self).unbounded(),
            !final(self).valid(h),
            forall|g: Handle|
                g != h && old(self).valid(g) ==> final(self).valid(g) && final(self).contents(g)
                    == old(self).contents(g),
    ;

    /// Resolves `h` to the current address of the first slot of its block.
    /// Dangling handles may be resolved too; the address is then merely
    /// alignment-correct and must never be used for access.
    fn resolve(&self, h: Handle) -> (r: usize)
        requires
            self.wf(),
        ensures
            r as int == self.address(h),
    ;

    /// Attempts to extend the block of `h` to `new_layout`. On success the
    /// returned handle replaces `h` (which, unless returned unchanged, is
    /// invalid), and slots `[0, old_layout.size)` are preserved; the slots
    /// beyond them are uninitialized. On failure nothing changes and `h`
    /// remains valid.
    fn grow(&mut self, h: Handle, old_layout: Layout, new_layout: Layout) -> (r: Result<
        (Handle, usize),
        AllocError,
    >)
        requires
            old(self).wf(),
            old(self).valid(h),
            old_layout.size <= old(self).contents(h).len(),
            old_layout.well_formed(),
            new_layout.well_formed(),
            new_layout.size >= old_layout.size,
        ensures
            final(self).wf(),
            final(self).unbounded() == old(self).unbounded(),
            old(self).unbounded() ==> r is Ok,
            r matches Ok((g, n)) ==> {
                &&& n >= new_layout.size
                &&& final(self).valid(g)
                &&& final(self).contents(g).len() == n
                &&& final(self).contents(g).subrange(0, old_layout.size as int) == old(
                    self,
                ).contents(h).subrange(0, old_layout.size as int)
                &&& forall|i: int|
                    old_layout.size <= i < n ==> final(self).contents(g)[i] is None
                &&& (g == h || !final(self).valid(h))
                &&& (g == h || !old(self).valid(g))
            },
            r is Err ==> *final(self) == *old(self),
            forall|g: Handle|
                g != h && old(self).valid(g) ==> final(self).valid(g) && final(self).contents(g)
                    == old(self).contents(g),
    ;

    /// Attempts to shrink the block of `h` to `new_layout`. On success the
    /// returned handle replaces `h`, and slots `[0, new_layout.size)` are
    /// preserved. On failure nothing changes and `h` remains valid.
    fn shrink(&mut self, h: Handle, old_layout: Layout, new_layout: Layout) -> (r: Result<
        (Handle, usize),
        AllocError,
    >)
        requires
            old(self).wf(),
            old(self).valid(h),
            old_layout.size <= old(self).contents(h).len(),
            old_layout.well_formed(),
            new_layout.well_formed(),
            new_layout.size <= old_layout.size,
        ensures
            final(self).wf(),
            final(self).unbounded() == old(self).unbounded(),
            old(self).unbounded() ==> r is Ok,
            r matches Ok((g, n)) ==> {
                &&& n >= new_layout.size
                &&& final(self).valid(g)
                &&& final(self).contents(g).len() == n
                &&& final(self).contents(g).subrange(0, new_layout.size as int) == old(
                    self,
                ).contents(h).subrange(0, new_layout.size as int)
                &&& (g == h || !final(self).valid(h))
                &&& (g == h || !old(self).valid(g))
            },
            r is Err ==> *final(self) == *old(self),
            forall|g: Handle|
                g != h && old(self).valid(g) ==> final(self).valid(g) && final(self).contents(g)
                    == old(self).contents(g),
    ;

    /// Reads the initialized slot `index` of the block of `h`.
    fn read(&self, h: Handle, index: usize) -> (r: &T)
        requires
            self.wf(),
            self.valid(h),
            index < self.contents(h).len(),
            self.contents(h)[index as int] is Some,
        ensures
            self.contents(h)[index as int] == Some(*r),
    ;

    /// Writes `value` into slot `index` of the block of `h`, discarding
    /// whatever the slot held. Every other block is unaffected.
    fn write(&mut self, h: Handle, index: usize, value: T)
        requires
            old(self).wf(),
            old(self).valid(h),
            index < old(self).contents(h).len(),
        ensures
            final(self).wf(),
            final(self).unbounded() == old(self).unbounded(),
            final(self).contents(h) == old(self).contents(h).update(
                index as int,
                Some(value),
            ),
            forall|g: Handle|
                old(self).valid(g) ==> final(self).valid(g),
            forall|g: Handle|
                g != h && old(self).valid(g) ==> final(self).contents(g) == old(self).contents(g),
            forall|g: Handle| final(self).valid(g) == old(self).valid(g),
    ;

    /// Borrows slot `index` of the block of `h` mutably: what the caller
    /// writes through the reference is what the slot then holds. Every other
    /// block is unaffected.
    fn read_mut(&mut self, h: Handle, index: usize) -> (r: &mut T)
        requires
            old(self).wf(),
            old(self).valid(h),
            index < old(self).contents(h).len(),
            old(self).contents(h)[index as int] is Some,
        ensures
            *r == old(self).contents(h)[index as int]->Some_0,
            final(self).wf(),
            final(self).unbounded() == old(self).unbounded(),
            final(self).contents(h) == old(self).contents(h).update(
                index as int,
                Some(*final(r)),
            ),
            forall|g: Handle| final(self).valid(g) == old(self).valid(g),
            forall|g: Handle|
                g != h && old(self).valid(g) ==> #[trigger] final(self).contents(g) == old(
                    self,
                ).contents(g),
    ;

    /// Moves the value out of slot `index` of the block of `h`, leaving the
    /// slot uninitialized. Every other block is unaffected.
    fn take(&mut self, h: Handle, index: usize) -> (r: T)
        requires
            old(self).wf(),
            old(self).valid(h),
            index < old(self).contents(h).len(),
            old(self).contents(h)[index as int] is Some,
        ensures
            final(self).wf(),
            final(self).unbounded() == old(self).unbounded(),
            old(self).contents(h)[index as int] == Some(r),
            final(self).contents(h) == old(self).contents(h).update(
                index as int,
                Option::<T>::None,
            ),
            forall|g: Handle|
                g != h && old(self).valid(g) ==> final(self).contents(g) == old(self).contents(g),
            forall|g: Handle| final(self).valid(g) == old(self).valid(g),
    ;
}

} // verus!
verus! {

/// A store specialized for a single outstanding allocation.
///
/// Allocating invalidates every previously issued handle: backends such as a
/// one-slot inline buffer cannot keep older blocks alive. Apart from that
/// loosening, the operations mirror `Store`.
pub trait StoreSingle<T>: StoreDangling<T> {
    /// Whether an allocation request for `layout` would currently succeed.
    spec fn can_allocate_single(&self, layout: Layout) -> bool;

    /// Attempts to allocate a block of at least `layout.size` uninitialized
    /// slots. All previously issued handles are invalidated.
    fn allocate_single(&mut self, layout: Layout) -> (r: Result<(Handle, usize), AllocError>)
        requires
            old(self).wf(),
            layout.well_formed(),
        ensures
            final(self).wf(),
            final(self).unbounded() == old(self).unbounded(),
            r is Ok <==> old(self).can_allocate_single(layout),
            old(self).unbounded() ==> r is Ok,
            r matches Ok((h, n)) ==> {
                &&& n >= layout.size
                &&& final(self).valid(h)
                &&& final(self).contents(h) == Seq::new(n as nat, |i: int| Option::<T>::None)
            },
            r is Err ==> *final(self) == *old(self),
    ;

    /// Releases the block of `h`, invalidating it immediately.
    fn deallocate_single(&mut self, h: Handle, layout: Layout)
        requires
            old(self).wf(),
            old(self).valid(h),
            layout.size <= old(self).contents(h).len(),
        ensures
            final(self).wf(),
            final(self).unbounded() == old(self).unbounded(),
            !final(self).valid(h),
    ;

    /// Resolves `h` to the current address of the first slot of its block.
    fn resolve_single(&self, h: Handle) -> (r: usize)
        requires
            self.wf(),
        ensures
            r as int == self.address(h),
    ;

    /// Attempts to extend the block of `h` to `new_layout`, as `Store::grow`
    /// does; on failure nothing changes and `h` remains valid.
    fn grow_single(&mut self, h: Handle, old_layout: Layout, new_layout: Layout) -> (r: Result<
        (Handle, usize),
        AllocError,
    >)
        requires
            old(self).wf(),
            old(self).valid(h),
            old_layout.size <= old(self).contents(h).len(),
            old_layout.well_formed(),
            new_layout.well_formed(),
            new_layout.size >= old_layout.size,
        ensures
            final(self).wf(),
            final(self).unbounded() == old(self).unbounded(),
            old(self).unbounded() ==> r is Ok,
            r matches Ok((g, n)) ==> {
                &&& n >= new_layout.size
                &&& final(self).valid(g)
                &&& final(self).contents(g).len() == n
                &&& final(self).contents(g).subrange(0, old_layout.size as int) == old(
                    self,
                ).contents(h).subrange(0, old_layout.size as int)
                &&& forall|i: int|
                    old_layout.size <= i < n ==> final(self).contents(g)[i] is None
            },
            r is Err ==> *final(self) == *old(self),
    ;

    /// Attempts to shrink the block of `h` to `new_layout`, as `Store::shrink`
    /// does; on failure nothing changes and `h` remains valid.
    fn shrink_single(&mut self, h: Handle, old_layout: Layout, new_layout: Layout) -> (r: Result<
        (Handle, usize),
        AllocError,
    >)
        requires
            old(self).wf(),
            old(self).valid(h),
            old_layout.size <= old(self).contents(h).len(),
            old_layout.well_formed(),
            new_layout.well_formed(),
            new_layout.size <= old_layout.size,
        ensures
            final(self).wf(),
            final(self).unbounded() == old(self).unbounded(),
            old(self).unbounded() ==> r is Ok,
            r matches Ok((g, n)) ==> {
                &&& n >= new_layout.size
                &&& final(self).valid(g)
                &&& final(self).contents(g).len() == n
                &&& final(self).contents(g).subrange(0, new_layout.size as int) == old(
                    self,
                ).contents(h).subrange(0, new_layout.size as int)
            },
            r is Err ==> *final(self) == *old(self),
    ;

    /// Reads the initialized slot `index` of the block of `h`.
    fn read_single(&self, h: Handle, index: usize) -> (r: &T)
        requires
            self.wf(),
            self.valid(h),
            index < self.contents(h).len(),
            self.contents(h)[index as int] is Some,
        ensures
            self.contents(h)[index as int] == Some(*r),
    ;

    /// Writes `value` into slot `index` of the block of `h`.
    fn write_single(&mut self, h: Handle, index: usize, value: T)
        requires
            old(self).wf(),
            old(self).valid(h),
            index < old(self).contents(h).len(),
        ensures
            final(self).wf(),
            final(self).unbounded() == old(self).unbounded(),
            final(self).valid(h),
            final(self).contents(h) == old(self).contents(h).update(
                index as int,
                Some(value),
            ),
    ;

    /// Borrows slot `index` of the block of `h` mutably: what the caller
    /// writes through the reference is what the slot then holds.
    fn read_mut_single(&mut self, h: Handle, index: usize) -> (r: &mut T)
        requires
            old(self).wf(),
            old(self).valid(h),
            index < old(self).contents(h).len(),
            old(self).contents(h)[index as int] is Some,
        ensures
            *r == old(self).contents(h)[index as int]->Some_0,
            final(self).wf(),
            final(self).unbounded() == old(self).unbounded(),
            final(self).valid(h),
            final(self).contents(h) == old(self).contents(h).update(
                index as int,
                Some(*final(r)),
            ),
    ;

    /// Moves the value out of slot `index` of the block of `h`, leaving the
    /// slot uninitialized.
    fn take_single(&mut self, h: Handle, index: usize) -> (r: T)
        requires
            old(self).wf(),
            old(self).valid(h),
            index < old(self).contents(h).len(),
            old(self).contents(h)[index as int] is Some,
        ensures
            final(self).wf(),
            final(self).unbounded() == old(self).unbounded(),
            final(self).valid(h),
            old(self).contents(h)[index as int] == Some(r),
            final(self).contents(h) == old(self).contents(h).update(
                index as int,
                Option::<T>::None,
            ),
    ;
}

/// A marker refinement: handles survive new allocations on the same store.
/// In this crate the promise is carried by the `ensures` of `Store::allocate`;
/// the marker records which backends claim it.
pub trait StoreMultiple<T>: Store<T> {

}

/// A marker refinement: resolved addresses survive further calls on the store.
pub trait StoreStable<T>: StoreDangling<T> {

}

/// A marker refinement: resolved addresses survive the store value being
/// moved as well.
pub trait StorePinning<T>: StoreStable<T> {

}

/// A refinement for stores whose handles are portable across cloned "parts"
/// of one logical store: parts of one sharing set accept each other's
/// handles, and the set survives until its last part is dropped.
pub trait StoreSharing<T>: Store<T> {
    /// The error returned when sharing is not currently possible.
    type SharingError;

    /// Whether the two instances are known to belong to one sharing set; a
    /// backend may conservatively answer `false`.
    fn is_sharing_with(&self, other: &Self) -> bool;

    /// Creates a new part belonging to the same sharing set as `self`.
    fn share(&self) -> (r: Result<Self, Self::SharingError>)
        requires
            self.wf(),
        ensures
            r matches Ok(s) ==> s.wf() && s.unbounded() == self.unbounded(),
            self.unbounded() ==> r is Ok,
    ;
}

} // verus!
verus! {

/// Alignment 1 is always a valid alignment.
pub proof fn lemma_align_one()
    ensures
        is_alignment(1),
{
    assert((1usize & (0usize)) == 0) by (bit_vector);
}

} // verus!
verus! {

/// Relies on `core::marker::PhantomData`'s `Clone`: the type has a single
/// value, so a clone equals its source.
pub assume_specification<T> [ <core::marker::PhantomData<T> as core::clone::Clone>::clone ] (
    this: &core::marker::PhantomData<T>,
) -> (r: core::marker::PhantomData<T>) where T: core::marker::PointeeSized
    ensures
        r == *this,
;

} // verus!
