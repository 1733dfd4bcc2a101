//! A doubly-linked list over any store.
//!
//! Each element lives in one single-slot block holding the element and the
//! handles of its two neighbours.

use core::marker::PhantomData;

use vstd::prelude::*;
use vstd::std_specs::cmp::PartialEqSpec;

use crate::interface::{
    lemma_align_one, AllocError, Handle, Layout, Store, StoreDefault, StoreSharing,
};

verus! {

/// One node of the list: the element and the neighbour handles. The `next`
/// of the last node and the `prev` of the first are meaningless and may
/// dangle.
#[derive(Clone)]
pub struct Node<T> {
    /// The element held by this node.
    pub element: T,
    /// The handle of the next node, if any.
    pub next: Handle,
    /// The handle of the previous node, if any.
    pub prev: Handle,
}

/// A doubly-linked list whose nodes each live in one block of a store.
#[derive(Clone)]
pub struct LinkedList<T, S: Store<Node<T>>> {
    length: usize,
    head: Handle,
    tail: Handle,
    store: S,
    // the node handles, in list order
    nodes: Ghost<Seq<Handle>>,
    _marker: PhantomData<T>,
}

impl<T, S: Store<Node<T>>> View for LinkedList<T, S> {
    type V = Seq<T>;

    /// The elements of the list, front to back.
    closed spec fn view(&self) -> Seq<T> {
        Seq::new(self.length as nat, |i: int| self.nd(i).element)
    }
}

impl<T, S: Store<Node<T>>> LinkedList<T, S> {
    spec fn n(&self) -> int {
        self.nodes@.len() as int
    }

    spec fn blk(&self, i: int) -> Seq<Option<Node<T>>> {
        self.store.contents(self.nodes@[i])
    }

    spec fn nd(&self, i: int) -> Node<T> {
        self.blk(i)[0]->Some_0
    }

    /// Whether a push could currently fail for want of memory.
    pub closed spec fn can_push(&self) -> bool {
        self.store.can_allocate(Layout { size: 1, align: 1 })
    }

    /// Whether the store behind the list never exhausts.
    pub closed spec fn boundless(&self) -> bool {
        self.store.unbounded()
    }

    /// The internal invariant: the blocks form a doubly-linked chain.
    pub closed spec fn well_formed(&self) -> bool {
        &&& self.store.wf()
        &&& self.nodes@.len() == self.length
        &&& (forall|i: int, j: int|
            #![trigger self.nodes@[i], self.nodes@[j]]
            0 <= i < j < self.n() ==> self.nodes@[i] != self.nodes@[j])
        &&& (forall|i: int|
            0 <= i < self.n() ==> self.store.valid(#[trigger] self.nodes@[i]))
        &&& (forall|i: int|
            0 <= i < self.n() ==> (#[trigger] self.blk(i)).len() >= 1 && self.blk(i)[0] is Some)
        &&& (forall|i: int| 0 <= i < self.n() - 1 ==> (#[trigger] self.nd(i)).next
            == self.nodes@[i + 1])
        &&& (forall|i: int| 1 <= i < self.n() ==> (#[trigger] self.nd(i)).prev
            == self.nodes@[i - 1])
        &&& (self.n() > 0 ==> self.head == self.nodes@[0] && self.tail == self.nodes@[self.n()
            - 1])
    }

    /// Creates a new, empty, list with a default store.
    pub fn new() -> (r: Self) where S: StoreDefault<Node<T>>
        ensures
            r.well_formed(),
            r@ == Seq::<T>::empty(),
            r.boundless(),
    {
        Self::new_in(S::default_store())
    }

    /// Creates a new, empty, list with the specified store.
    pub fn new_in(store: S) -> (r: Self)
        requires
            store.wf(),
        ensures
            r.well_formed(),
            r@ == Seq::<T>::empty(),
            r.boundless() == store.unbounded(),
    {
        proof {
            lemma_align_one();
        }
        let dangling = store.dangling(1);
        let head = match dangling {
            Ok(h) => h,
            Err(_) => unreached(),
        };
        let r = LinkedList {
            length: 0,
            head,
            tail: head,
            store,
            nodes: Ghost(Seq::empty()),
            _marker: PhantomData,
        };
        proof {
            assert(r@ =~= Seq::<T>::empty());
        }
        r
    }

    /// Returns whether the list is empty, or not.
    pub fn is_empty(&self) -> (r: bool)
        requires
            self.well_formed(),
        ensures
            r == (self@.len() == 0),
    {
        self.length == 0
    }

    /// Returns the number of elements in the list.
    pub fn len(&self) -> (r: usize)
        requires
            self.well_formed(),
        ensures
            r == self@.len(),
    {
        self.length
    }

    /// Returns a reference to the front element, if any.
    pub fn front(&self) -> (r: Option<&T>)
        requires
            self.well_formed(),
        ensures
            self@.len() == 0 ==> r is None,
            self@.len() > 0 ==> (r matches Some(e) && *e == self@[0]),
    {
        if self.length == 0 {
            return None;
        }
        proof {
            assert(self.store.valid(self.nodes@[0]));
            assert(self.blk(0).len() >= 1 && self.blk(0)[0] is Some);
        }
        let node = self.store.read(self.head, 0);
        Some(&node.element)
    }

    /// Returns a reference to the back element, if any.
    pub fn back(&self) -> (r: Option<&T>)
        requires
            self.well_formed(),
        ensures
            self@.len() == 0 ==> r is None,
            self@.len() > 0 ==> (r matches Some(e) && *e == self@[self@.len() - 1]),
    {
        if self.length == 0 {
            return None;
        }
        proof {
            assert(self.store.valid(self.nodes@[self.n() - 1]));
            assert(self.blk(self.n() - 1).len() >= 1 && self.blk(self.n() - 1)[0] is Some);
        }
        let node = self.store.read(self.tail, 0);
        Some(&node.element)
    }

    /// Borrows the front element mutably, if any; what the caller writes
    /// through the reference is what the list then holds at the front.
    pub fn front_mut(&mut self) -> (r: Option<&mut T>)
        requires
            old(self).well_formed(),
        ensures
            old(self)@.len() == 0 ==> r is None && *final(self) == *old(self),
            old(self)@.len() > 0 ==> (r matches Some(e) && *e == old(self)@[0]
                && final(self).well_formed()
                && final(self).boundless() == old(self).boundless()
                && final(self)@.len() == old(self)@.len()
                && final(self)@[0] == *final(e)
                && forall|i: int| 1 <= i < old(self)@.len() ==> final(self)@[i] == old(self)@[i]),
    {
        if self.length == 0 {
            return None;
        }
        proof {
            assert(self.store.valid(self.nodes@[0]));
            assert(self.blk(0).len() >= 1 && self.blk(0)[0] is Some);
            assert forall|i: int| 1 <= i < self.n() implies #[trigger] self.nodes@[i]
                != self.nodes@[0] && self.store.valid(self.nodes@[i]) by {
            }
            assert forall|i: int| 0 <= i < self.n() implies (#[trigger] self.store.contents(
                self.nodes@[i],
            )).len() >= 1 && self.store.contents(self.nodes@[i])[0] is Some by {
                assert(self.blk(i).len() >= 1 && self.blk(i)[0] is Some);
            }
            assert forall|i: int| 0 <= i < self.n() - 1 implies (#[trigger] self.store.contents(
                self.nodes@[i],
            ))[0]->Some_0.next == self.nodes@[i + 1] by {
                assert(self.nd(i).next == self.nodes@[i + 1]);
            }
            assert forall|i: int| 1 <= i < self.n() implies (#[trigger] self.store.contents(
                self.nodes@[i],
            ))[0]->Some_0.prev == self.nodes@[i - 1] by {
                assert(self.nd(i).prev == self.nodes@[i - 1]);
            }
        }
        let node = self.store.read_mut(self.head, 0);
        Some(&mut node.element)
    }

    /// Borrows the back element mutably, if any; what the caller writes
    /// through the reference is what the list then holds at the back.
    pub fn back_mut(&mut self) -> (r: Option<&mut T>)
        requires
            old(self).well_formed(),
        ensures
            old(self)@.len() == 0 ==> r is None && *final(self) == *old(self),
            old(self)@.len() > 0 ==> (r matches Some(e) && *e == old(self)@[old(self)@.len() - 1]
                && final(self).well_formed()
                && final(self).boundless() == old(self).boundless()
                && final(self)@.len() == old(self)@.len()
                && final(self)@[old(self)@.len() - 1] == *final(e)
                && forall|i: int|
                    0 <= i < old(self)@.len() - 1 ==> final(self)@[i] == old(self)@[i]),
    {
        if self.length == 0 {
            return None;
        }
        proof {
            assert(self.store.valid(self.nodes@[self.n() - 1]));
            assert(self.blk(self.n() - 1).len() >= 1 && self.blk(self.n() - 1)[0] is Some);
            assert forall|i: int| 0 <= i < self.n() - 1 implies #[trigger] self.nodes@[i]
                != self.nodes@[self.n() - 1] && self.store.valid(self.nodes@[i]) by {
            }
            assert forall|i: int| 0 <= i < self.n() implies (#[trigger] self.store.contents(
                self.nodes@[i],
            )).len() >= 1 && self.store.contents(self.nodes@[i])[0] is Some by {
                assert(self.blk(i).len() >= 1 && self.blk(i)[0] is Some);
            }
            assert forall|i: int| 0 <= i < self.n() - 1 implies (#[trigger] self.store.contents(
                self.nodes@[i],
            ))[0]->Some_0.next == self.nodes@[i + 1] by {
                assert(self.nd(i).next == self.nodes@[i + 1]);
            }
            assert forall|i: int| 1 <= i < self.n() implies (#[trigger] self.store.contents(
                self.nodes@[i],
            ))[0]->Some_0.prev == self.nodes@[i - 1] by {
                assert(self.nd(i).prev == self.nodes@[i - 1]);
            }
        }
        let node = self.store.read_mut(self.tail, 0);
        Some(&mut node.element)
    }

    /// Returns whether the list contains `element`; exact whenever the
    /// element type's equality obeys its specification.
    pub fn contains(&self, element: &T) -> (r: bool) where T: PartialEq
        requires
            self.well_formed(),
        ensures
            T::obeys_eq_spec() ==> (r <==> exists|i: int|
                0 <= i < self@.len() && (#[trigger] self@[i]).eq_spec(element)),
    {
        let mut cur = self.head;
        let mut i: usize = 0;
        while i < self.length
            invariant
                self.well_formed(),
                i <= self.length,
                i < self.length ==> cur == self.nodes@[i as int],
                T::obeys_eq_spec() ==> forall|j: int|
                    0 <= j < i ==> !(#[trigger] self@[j]).eq_spec(element),
            decreases self.length - i,
        {
            proof {
                assert(self.store.valid(self.nodes@[i as int]));
                assert(self.blk(i as int).len() >= 1 && self.blk(i as int)[0] is Some);
                if (i as int) < self.n() - 1 {
                    assert(self.nd(i as int).next == self.nodes@[i as int + 1]);
                }
            }
            let node = self.store.read(cur, 0);
            if node.element == *element {
                proof {
                    assert(self@[i as int] == self.nd(i as int).element);
                }
                return true;
            }
            cur = node.next;
            i += 1;
        }
        false
    }

    /// Returns references to all elements, front to back.
    pub fn to_vec(&self) -> (r: Vec<&T>)
        requires
            self.well_formed(),
        ensures
            r@.len() == self@.len(),
            forall|i: int| 0 <= i < r@.len() ==> *r@[i] == self@[i],
    {
        let mut r: Vec<&T> = Vec::new();
        let mut cur = self.head;
        let mut i: usize = 0;
        while i < self.length
            invariant
                self.well_formed(),
                i <= self.length,
                r@.len() == i,
                i < self.length ==> cur == self.nodes@[i as int],
                forall|j: int| 0 <= j < i ==> *r@[j] == self@[j],
            decreases self.length - i,
        {
            proof {
                assert(self.store.valid(self.nodes@[i as int]));
                assert(self.blk(i as int).len() >= 1 && self.blk(i as int)[0] is Some);
                if (i as int) < self.n() - 1 {
                    assert(self.nd(i as int).next == self.nodes@[i as int + 1]);
                }
            }
            let node = self.store.read(cur, 0);
            r.push(&node.element);
            cur = node.next;
            i += 1;
        }
        r
    }
}

} // verus!
verus! {

impl<T, S: Store<Node<T>>> LinkedList<T, S> {
    /// Pushes an element to the front of the list, unless memory allocation
    /// fails; on failure the element is consumed but the list is unchanged.
    pub fn try_push_front(&mut self, element: T) -> (r: Result<(), AllocError>)
        requires
            old(self).well_formed(),
            old(self)@.len() < usize::MAX,
        ensures
            final(self).well_formed(),
            final(self).boundless() == old(self).boundless(),
            r is Ok <==> old(self).can_push(),
            old(self).boundless() ==> r is Ok,
            r is Ok ==> final(self)@ == seq![element] + old(self)@,
            r is Err ==> *final(self) == *old(self),
    {
        proof {
            lemma_align_one();
        }
        let ghost pre = *old(self);
        let layout = Layout::new(1, 1);
        let allocated = self.store.allocate(layout);
        match allocated {
            Err(_) => Err(AllocError),
            Ok((h, _)) => {
                let next = if self.length == 0 {
                    h
                } else {
                    self.head
                };
                self.store.write(h, 0, Node { element, next, prev: h });
                if self.length == 0 {
                    self.tail = h;
                } else {
                    proof {
                        assert(self.store.valid(pre.nodes@[0]));
                        assert(pre.blk(0).len() >= 1 && pre.blk(0)[0] is Some);
                        assert(h != pre.nodes@[0]);
                    }
                    let old_head = self.head;
                    let mut node = self.store.take(old_head, 0);
                    node.prev = h;
                    self.store.write(old_head, 0, node);
                }
                self.head = h;
                self.length = self.length + 1;
                self.nodes = Ghost(seq![h] + pre.nodes@);
                proof {
                    let post = *self;
                    assert forall|i: int| 1 <= i < post.n() implies post.nodes@[i]
                        == pre.nodes@[i - 1] && self.storage_valid(pre.nodes@[i - 1]) by {
                        assert(pre.store.valid(pre.nodes@[i - 1]));
                    }
                    assert forall|i: int| 1 <= i < post.n() implies h != #[trigger] post.nodes@[i] by {
                        assert(pre.store.valid(pre.nodes@[i - 1]));
                    }
                    assert forall|i: int| 1 <= i < post.n() implies #[trigger] post.blk(i)
                        == (if i == 1 && pre.n() > 0 {
                        pre.blk(0).update(
                            0,
                            Some(
                                Node {
                                    element: pre.nd(0).element,
                                    next: pre.nd(0).next,
                                    prev: h,
                                },
                            ),
                        )
                    } else {
                        pre.blk(i - 1)
                    }) by {
                        if !(i == 1 && pre.n() > 0) {
                            assert(pre.nodes@[i - 1] != pre.nodes@[0]);
                        }
                    }
                    assert forall|i: int| 0 <= i < post.n() - 1 implies (#[trigger] post.nd(
                        i,
                    )).next == post.nodes@[i + 1] by {
                        if i >= 1 {
                            assert(pre.nd(i - 1).next == pre.nodes@[i]);
                        }
                    }
                    assert forall|i: int| 1 <= i < post.n() implies (#[trigger] post.nd(
                        i,
                    )).prev == post.nodes@[i - 1] by {
                        if i >= 2 {
                            assert(pre.nd(i - 1).prev == pre.nodes@[i - 2]);
                        }
                    }
                    assert(post.well_formed());
                    assert(post@ =~= seq![element] + pre@);
                }
                Ok(())
            },
        }
    }

    /// Whether the store of the list holds `h` live; a proof helper.
    spec fn storage_valid(&self, h: Handle) -> bool {
        self.store.valid(h)
    }

    /// Pushes an element to the back of the list, unless memory allocation
    /// fails; on failure the element is consumed but the list is unchanged.
    pub fn try_push_back(&mut self, element: T) -> (r: Result<(), AllocError>)
        requires
            old(self).well_formed(),
            old(self)@.len() < usize::MAX,
        ensures
            final(self).well_formed(),
            final(self).boundless() == old(self).boundless(),
            r is Ok <==> old(self).can_push(),
            old(self).boundless() ==> r is Ok,
            r is Ok ==> final(self)@ == old(self)@.push(element),
            r is Err ==> *final(self) == *old(self),
    {
        proof {
            lemma_align_one();
        }
        let ghost pre = *old(self);
        let layout = Layout::new(1, 1);
        let allocated = self.store.allocate(layout);
        match allocated {
            Err(_) => Err(AllocError),
            Ok((h, _)) => {
                let prev = if self.length == 0 {
                    h
                } else {
                    self.tail
                };
                self.store.write(h, 0, Node { element, next: h, prev });
                if self.length == 0 {
                    self.head = h;
                } else {
                    proof {
                        assert(self.store.valid(pre.nodes@[pre.n() - 1]));
                        assert(pre.blk(pre.n() - 1).len() >= 1 && pre.blk(pre.n() - 1)[0]
                            is Some);
                        assert(h != pre.nodes@[pre.n() - 1]);
                    }
                    let old_tail = self.tail;
                    let mut node = self.store.take(old_tail, 0);
                    node.next = h;
                    self.store.write(old_tail, 0, node);
                }
                self.tail = h;
                self.length = self.length + 1;
                self.nodes = Ghost(pre.nodes@.push(h));
                proof {
                    let post = *self;
                    assert forall|i: int| 0 <= i < post.n() - 1 implies post.nodes@[i]
                        == pre.nodes@[i] && self.storage_valid(pre.nodes@[i]) by {
                        assert(pre.store.valid(pre.nodes@[i]));
                    }
                    assert forall|i: int| 0 <= i < post.n() - 1 implies h != #[trigger]
                        post.nodes@[i] by {
                        assert(pre.store.valid(pre.nodes@[i]));
                    }
                    assert forall|i: int| 0 <= i < post.n() - 1 implies post.blk(i)
                        == (if i == pre.n() - 1 {
                        pre.blk(i).update(
                            0,
                            Some(Node { element: pre.nd(i).element, next: h, prev: pre.nd(i).prev }),
                        )
                    } else {
                        pre.blk(i)
                    }) by {
                        if i != pre.n() - 1 {
                            assert(pre.nodes@[i] != pre.nodes@[pre.n() - 1]);
                        }
                    }
                    assert forall|i: int| 0 <= i < post.n() - 1 implies (#[trigger] post.nd(
                        i,
                    )).next == post.nodes@[i + 1] by {
                        if i < pre.n() - 1 {
                            assert(pre.nd(i).next == pre.nodes@[i + 1]);
                        }
                    }
                    assert forall|i: int| 1 <= i < post.n() implies (#[trigger] post.nd(
                        i,
                    )).prev == post.nodes@[i - 1] by {
                        if i < pre.n() {
                            assert(pre.nd(i).prev == pre.nodes@[i - 1]);
                        }
                    }
                    assert(post.well_formed());
                    assert(post@ =~= pre@.push(element));
                }
                Ok(())
            },
        }
    }

    /// Pops the element at the front of the list, if any.
    pub fn pop_front(&mut self) -> (r: Option<T>)
        requires
            old(self).well_formed(),
        ensures
            final(self).well_formed(),
            final(self).boundless() == old(self).boundless(),
            old(self)@.len() == 0 ==> r is None && *final(self) == *old(self),
            old(self)@.len() > 0 ==> (r matches Some(e) && e == old(self)@[0] && final(self)@
                == old(self)@.subrange(1, old(self)@.len() as int)),
    {
        if self.length == 0 {
            return None;
        }
        let ghost pre = *old(self);
        proof {
            assert(self.store.valid(self.nodes@[0]));
            assert(self.blk(0).len() >= 1 && self.blk(0)[0] is Some);
        }
        proof {
            lemma_align_one();
        }
        let h = self.head;
        let node = self.store.take(h, 0);
        let layout = Layout::new(1, 1);
        self.store.deallocate(h, layout);
        self.head = node.next;
        self.length = self.length - 1;
        self.nodes = Ghost(pre.nodes@.subrange(1, pre.n()));
        proof {
            let post = *self;
            assert forall|i: int| 0 <= i < post.n() implies post.nodes@[i] == pre.nodes@[i + 1]
                && self.storage_valid(pre.nodes@[i + 1]) && post.blk(i) == pre.blk(i + 1) by {
                assert(pre.store.valid(pre.nodes@[i + 1]));
                assert(pre.nodes@[0] != pre.nodes@[i + 1]);
            }
            if post.n() > 0 {
                assert(pre.nd(0).next == pre.nodes@[1]);
            }
            assert forall|i: int| 0 <= i < post.n() - 1 implies (#[trigger] post.nd(i)).next
                == post.nodes@[i + 1] by {
                assert(pre.nd(i + 1).next == pre.nodes@[i + 2]);
            }
            assert forall|i: int| 1 <= i < post.n() implies (#[trigger] post.nd(i)).prev
                == post.nodes@[i - 1] by {
                assert(pre.nd(i + 1).prev == pre.nodes@[i]);
            }
            assert(post.well_formed());
            assert(post@ =~= pre@.subrange(1, pre@.len() as int));
        }
        Some(node.element)
    }

    /// Pops the element at the back of the list, if any.
    pub fn pop_back(&mut self) -> (r: Option<T>)
        requires
            old(self).well_formed(),
        ensures
            final(self).well_formed(),
            final(self).boundless() == old(self).boundless(),
            old(self)@.len() == 0 ==> r is None && *final(self) == *old(self),
            old(self)@.len() > 0 ==> (r matches Some(e) && e == old(self)@[old(self)@.len() - 1]
                && final(self)@ == old(self)@.subrange(0, old(self)@.len() - 1)),
    {
        if self.length == 0 {
            return None;
        }
        let ghost pre = *old(self);
        proof {
            assert(self.store.valid(self.nodes@[self.n() - 1]));
            assert(self.blk(self.n() - 1).len() >= 1 && self.blk(self.n() - 1)[0] is Some);
        }
        proof {
            lemma_align_one();
        }
        let h = self.tail;
        let node = self.store.take(h, 0);
        let layout = Layout::new(1, 1);
        self.store.deallocate(h, layout);
        self.tail = node.prev;
        self.length = self.length - 1;
        self.nodes = Ghost(pre.nodes@.subrange(0, pre.n() - 1));
        proof {
            let post = *self;
            assert forall|i: int| 0 <= i < post.n() implies post.nodes@[i] == pre.nodes@[i]
                && self.storage_valid(pre.nodes@[i]) && post.blk(i) == pre.blk(i) by {
                assert(pre.store.valid(pre.nodes@[i]));
                assert(pre.nodes@[i] != pre.nodes@[pre.n() - 1]);
            }
            if post.n() > 0 {
                assert(pre.nd(pre.n() - 1).prev == pre.nodes@[pre.n() - 2]);
            }
            assert forall|i: int| 0 <= i < post.n() - 1 implies (#[trigger] post.nd(i)).next
                == post.nodes@[i + 1] by {
                assert(pre.nd(i).next == pre.nodes@[i + 1]);
            }
            assert forall|i: int| 1 <= i < post.n() implies (#[trigger] post.nd(i)).prev
                == post.nodes@[i - 1] by {
                assert(pre.nd(i).prev == pre.nodes@[i - 1]);
            }
            assert(post.well_formed());
            assert(post@ =~= pre@.subrange(0, pre@.len() - 1));
        }
        Some(node.element)
    }

    /// Clears the list, removing and dropping every element.
    pub fn clear(&mut self)
        requires
            old(self).well_formed(),
        ensures
            final(self).well_formed(),
            final(self).boundless() == old(self).boundless(),
            final(self)@ == Seq::<T>::empty(),
    {
        while self.length > 0
            invariant
                self.well_formed(),
                self.boundless() == old(self).boundless(),
            decreases self@.len(),
        {
            let dropped = self.pop_front();
        }
        proof {
            assert(self@ =~= Seq::<T>::empty());
        }
    }
}

} // verus!
verus! {

impl<T, S: Store<Node<T>>> LinkedList<T, S> {
    /// Appends every element of `elements` at the back, in order.
    pub fn extend(&mut self, elements: Vec<T>)
        requires
            old(self).well_formed(),
            old(self).boundless(),
            old(self)@.len() + elements@.len() < usize::MAX,
        ensures
            final(self).well_formed(),
            final(self).boundless(),
            final(self)@ == old(self)@ + elements@,
    {
        let mut elements = elements;
        let ghost all = elements@;
        proof {
            assert(self@ =~= old(self)@ + all.subrange(0, 0));
        }
        while elements.len() > 0
            invariant
                self.well_formed(),
                self.boundless(),
                elements@.len() <= all.len(),
                self@ == old(self)@ + all.subrange(0, all.len() - elements@.len()),
                elements@ == all.subrange(
                    all.len() - elements@.len(),
                    all.len() as int,
                ),
                old(self)@.len() + all.len() < usize::MAX,
            decreases elements@.len(),
        {
            let ghost k = all.len() - elements@.len();
            let element = elements.remove(0);
            proof {
                assert(element == all[k as int]);
                assert(elements@ =~= all.subrange(k as int + 1, all.len() as int));
            }
            let pushed = self.try_push_back(element);
            proof {
                assert(pushed is Ok);
                assert(self@ =~= old(self)@ + all.subrange(0, k as int + 1));
            }
        }
        proof {
            assert(self@ =~= old(self)@ + all);
        }
    }

    /// Builds a list from the elements of a vector, front to back.
    pub fn try_from(elements: Vec<T>) -> (r: Result<Self, AllocError>) where
        S: StoreDefault<Node<T>>

        requires
            elements@.len() < usize::MAX,
        ensures
            r matches Ok(list) && list.well_formed() && list@ == elements@ && list.boundless(),
    {
        let mut list = Self::new();
        list.extend(elements);
        Ok(list)
    }

    /// Splits the list in two at `at`, keeping the first `at` elements and
    /// returning a new list, over a shared part of the store, with the rest.
    pub fn split_off(&mut self, at: usize) -> (r: Self) where S: StoreSharing<Node<T>>
        requires
            old(self).well_formed(),
            old(self).boundless(),
            at <= old(self)@.len(),
        ensures
            final(self).well_formed(),
            final(self).boundless(),
            final(self)@ == old(self)@.subrange(0, at as int),
            r.well_formed(),
            r@ == old(self)@.subrange(at as int, old(self)@.len() as int),
    {
        let shared = self.store.share();
        let store2 = match shared {
            Ok(s) => s,
            Err(_) => unreached(),
        };
        let mut result = Self::new_in(store2);
        let mut k = self.length - at;
        proof {
            assert(result@ =~= old(self)@.subrange(
                old(self)@.len() as int,
                old(self)@.len() as int,
            ));
        }
        while k > 0
            invariant
                self.well_formed(),
                self.boundless(),
                result.well_formed(),
                result.boundless(),
                k == self@.len() - at,
                at <= self@.len(),
                self@ == old(self)@.subrange(0, self@.len() as int),
                result@ == old(self)@.subrange(self@.len() as int, old(self)@.len() as int),
                self@.len() <= old(self)@.len(),
            decreases k,
        {
            let ghost len0 = self@.len();
            let popped = self.pop_back();
            let element = match popped {
                Some(e) => e,
                None => unreached(),
            };
            let pushed = result.try_push_front(element);
            proof {
                assert(pushed is Ok);
                assert(self@ =~= old(self)@.subrange(0, self@.len() as int));
                assert(result@ =~= old(self)@.subrange(
                    self@.len() as int,
                    old(self)@.len() as int,
                ));
            }
            k = k - 1;
        }
        result
    }

    /// Tries to move the elements of `other` to the back of this list,
    /// leaving `other` empty; fails, changing nothing, when the two stores
    /// are not known to share.
    pub fn try_append(&mut self, other: &mut Self) -> (r: Result<(), ()>) where
        S: StoreSharing<Node<T>>

        requires
            old(self).well_formed(),
            old(self).boundless(),
            old(other).well_formed(),
            old(self)@.len() + old(other)@.len() < usize::MAX,
        ensures
            final(self).well_formed(),
            final(self).boundless(),
            final(other).well_formed(),
            r is Ok ==> final(self)@ == old(self)@ + old(other)@ && final(other)@ == Seq::<
                T,
            >::empty(),
            r is Err ==> *final(self) == *old(self) && *final(other) == *old(other),
    {
        if !self.store.is_sharing_with(&other.store) {
            return Err(());
        }
        let ghost all = other@;
        proof {
            assert(self@ =~= old(self)@ + all.subrange(0, 0));
        }
        while other.len() > 0
            invariant
                self.well_formed(),
                self.boundless(),
                other.well_formed(),
                other@.len() <= all.len(),
                self@ == old(self)@ + all.subrange(0, all.len() - other@.len()),
                other@ == all.subrange(all.len() - other@.len(), all.len() as int),
                old(self)@.len() + all.len() < usize::MAX,
            decreases other@.len(),
        {
            let ghost k = all.len() - other@.len();
            let popped = other.pop_front();
            let element = match popped {
                Some(e) => e,
                None => unreached(),
            };
            proof {
                assert(element == all[k as int]);
                assert(other@ =~= all.subrange(k as int + 1, all.len() as int));
            }
            let pushed = self.try_push_back(element);
            proof {
                assert(pushed is Ok);
                assert(self@ =~= old(self)@ + all.subrange(0, k as int + 1));
            }
        }
        proof {
            assert(self@ =~= old(self)@ + all);
            assert(other@ =~= Seq::<T>::empty());
        }
        Ok(())
    }

    /// Returns an iterator of references to the elements.
    pub fn iter<'a>(&'a self) -> (r: Iter<'a, T, S>)
        requires
            self.well_formed(),
        ensures
            r.well_formed(),
            r@ == self@,
    {
        let it = Iter {
            remaining: self.length,
            cur: self.head,
            store: &self.store,
            nodes: self.nodes,
            _marker: PhantomData,
        };
        proof {
            assert forall|i: int| 0 <= i < it.nodes@.len() implies it.store.valid(
                #[trigger] it.nodes@[i],
            ) && it.store.contents(it.nodes@[i]).len() >= 1 && it.store.contents(
                it.nodes@[i],
            )[0] is Some by {
                assert(self.store.valid(self.nodes@[i]));
                assert(self.blk(i).len() >= 1 && self.blk(i)[0] is Some);
            }
            assert forall|i: int| 0 <= i < it.nodes@.len() - 1 implies (
            #[trigger] it.store.contents(it.nodes@[i]))[0]->Some_0.next == it.nodes@[i + 1] by {
                assert(self.nd(i).next == self.nodes@[i + 1]);
            }
            assert(it.well_formed());
            assert(it@ =~= self@);
        }
        it
    }

    /// Turns the list into an iterator over its elements.
    pub fn into_iter(self) -> (r: IntoIter<T, S>)
        requires
            self.well_formed(),
        ensures
            r.well_formed(),
            r@ == self@,
    {
        IntoIter { list: self }
    }
}

impl<T, S: Store<Node<T>> + StoreDefault<Node<T>>> Default for LinkedList<T, S> {
    /// An empty list over a default store.
    fn default() -> (r: Self)
        ensures
            r.well_formed(),
            r@ == Seq::<T>::empty(),
            r.boundless(),
    {
        LinkedList::new()
    }
}

/// An iterator over a borrowed list, yielding references front to back.
pub struct Iter<'a, T, S: Store<Node<T>>> {
    remaining: usize,
    cur: Handle,
    store: &'a S,
    nodes: Ghost<Seq<Handle>>,
    _marker: PhantomData<T>,
}

impl<'a, T, S: Store<Node<T>>> View for Iter<'a, T, S> {
    type V = Seq<T>;

    /// The elements not yet yielded.
    closed spec fn view(&self) -> Seq<T> {
        Seq::new(
            self.remaining as nat,
            |i: int| self.store.contents(self.nodes@[i])[0]->Some_0.element,
        )
    }
}

impl<'a, T, S: Store<Node<T>>> Iter<'a, T, S> {
    /// The iterator's invariant: the remaining nodes form a forward chain.
    pub closed spec fn well_formed(&self) -> bool {
        &&& self.store.wf()
        &&& self.nodes@.len() == self.remaining
        &&& (forall|i: int|
            0 <= i < self.nodes@.len() ==> self.store.valid(#[trigger] self.nodes@[i]))
        &&& (forall|i: int|
            0 <= i < self.nodes@.len() ==> (#[trigger] self.store.contents(self.nodes@[i])).len()
                >= 1 && self.store.contents(self.nodes@[i])[0] is Some)
        &&& (forall|i: int|
            0 <= i < self.nodes@.len() - 1 ==> (#[trigger] self.store.contents(
                self.nodes@[i],
            ))[0]->Some_0.next == self.nodes@[i + 1])
        &&& (self.nodes@.len() > 0 ==> self.cur == self.nodes@[0])
    }

    /// Yields a reference to the next element, if one remains.
    pub fn next(&mut self) -> (r: Option<&'a T>)
        requires
            old(self).well_formed(),
        ensures
            final(self).well_formed(),
            old(self)@.len() == 0 ==> r is None && *final(self) == *old(self),
            old(self)@.len() > 0 ==> (r matches Some(e) && *e == old(self)@[0] && final(self)@
                == old(self)@.subrange(1, old(self)@.len() as int)),
    {
        if self.remaining == 0 {
            return None;
        }
        let ghost pre = *old(self);
        let st: &'a S = self.store;
        let node = st.read(self.cur, 0);
        self.cur = node.next;
        self.remaining = self.remaining - 1;
        self.nodes = Ghost(pre.nodes@.subrange(1, pre.nodes@.len() as int));
        proof {
            assert forall|i: int| 0 <= i < self.nodes@.len() implies self.nodes@[i]
                == pre.nodes@[i + 1] by {
            }
            assert(self@ =~= pre@.subrange(1, pre@.len() as int));
        }
        Some(&node.element)
    }
}

/// An iterator consuming a list, yielding elements front to back.
pub struct IntoIter<T, S: Store<Node<T>>> {
    list: LinkedList<T, S>,
}

impl<T, S: Store<Node<T>>> View for IntoIter<T, S> {
    type V = Seq<T>;

    /// The elements not yet yielded.
    closed spec fn view(&self) -> Seq<T> {
        self.list@
    }
}

impl<T, S: Store<Node<T>>> IntoIter<T, S> {
    /// The inner list's invariant.
    pub closed spec fn well_formed(&self) -> bool {
        self.list.well_formed()
    }

    /// Yields the next element, if one remains.
    pub fn next(&mut self) -> (r: Option<T>)
        requires
            old(self).well_formed(),
        ensures
            final(self).well_formed(),
            old(self)@.len() == 0 ==> r is None,
            old(self)@.len() > 0 ==> (r matches Some(e) && e == old(self)@[0] && final(self)@
                == old(self)@.subrange(1, old(self)@.len() as int)),
    {
        self.list.pop_front()
    }
}

} // verus!
