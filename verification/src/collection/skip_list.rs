//! A skip list with one store allocation per node.
//!
//! Each node is a single block: slot 0 holds the header (key, value and link
//! count), the following `links` slots hold the forward links. Every node but
//! the logically last one has at least one link; the last node has exactly
//! zero links. There is no sentinel: the head changes whenever a new minimum
//! key is inserted.

use core::marker::PhantomData;

use vstd::prelude::*;

use crate::interface::{lemma_align_one, Handle, Layout, Store, StoreDefault};
use crate::order::{
    lemma_not_less, lemma_strictly_less_asym, lemma_strictly_less_trans, strictly_less,
    KeyOrdering, TotalOrder,
};

verus! {

/// Relies on oorandom's `Rand32` pseudo-random generator, used for level
/// selection; values of it are carried opaquely.
#[verifier::external_type_specification]
#[verifier::external_body]
pub struct ExRand32(oorandom::Rand32);

/// Relies on oorandom's `Rand32::new`: builds a generator from a seed.
pub assume_specification [ oorandom::Rand32::new ](seed: u64) -> (r: oorandom::Rand32);

/// Relies on oorandom's `Rand32::rand_u32`: draws the next value; nothing is
/// promised of the values drawn.
pub assume_specification [ oorandom::Rand32::rand_u32 ](rng: &mut oorandom::Rand32) -> (r: u32);

/// The largest number of links a node may carry.
pub const MAX_NUMBER_LINKS: usize = 32;

/// The header of a node: its key, its value, and how many links follow it.
pub struct NodeHeader<K, V> {
    /// The key of the node.
    pub key: K,
    /// The value associated with the key.
    pub value: V,
    /// The number of link slots following the header.
    pub links: u8,
}

/// One slot of a node block: the header at slot 0, a link in each later slot.
pub enum NodeSlot<K, V> {
    /// The header of the node.
    Header(NodeHeader<K, V>),
    /// A forward link to another node.
    Link(Handle),
}

/// The header of a node block.
pub open spec fn node_header<K, V>(b: Seq<Option<NodeSlot<K, V>>>) -> NodeHeader<K, V> {
    match b[0] {
        Some(NodeSlot::Header(hd)) => hd,
        _ => arbitrary(),
    }
}

/// The number of links of a node block.
pub open spec fn node_links<K, V>(b: Seq<Option<NodeSlot<K, V>>>) -> int {
    node_header(b).links as int
}

/// The link at level `l` of a node block.
pub open spec fn node_link<K, V>(b: Seq<Option<NodeSlot<K, V>>>, l: int) -> Handle {
    match b[l + 1] {
        Some(NodeSlot::Link(h)) => h,
        _ => arbitrary(),
    }
}

/// Whether a block is a well-formed node: a header followed by its links.
pub open spec fn node_wf<K, V>(b: Seq<Option<NodeSlot<K, V>>>) -> bool {
    &&& b.len() >= 1
    &&& b[0] matches Some(NodeSlot::Header(_))
    &&& 0 <= node_links(b) <= MAX_NUMBER_LINKS
    &&& 1 + node_links(b) <= b.len()
    &&& forall|l: int| 0 <= l < node_links(b) ==> #[trigger] b[l + 1] matches Some(NodeSlot::Link(_))
}

/// An ordered map from `K` to `V`: a probabilistic skip list whose nodes each
/// live in one variable-size block of the store.
pub struct SkipList<K, V, S: Store<NodeSlot<K, V>>> {
    length: usize,
    // dangling while `length == 0`
    head: Handle,
    storage: S,
    prng: oorandom::Rand32,
    // the node handles, in strictly increasing key order
    chain: Ghost<Seq<Handle>>,
    _marker: PhantomData<(K, V)>,
}

impl<K: TotalOrder, V, S: Store<NodeSlot<K, V>>> View for SkipList<K, V, S> {
    type V = Map<K, V>;

    /// The association the list represents.
    closed spec fn view(&self) -> Map<K, V> {
        Map::new(
            |k: K| exists|i: int| 0 <= i < self.n() && #[trigger] self.key_at(i) == k,
            |k: K|
                self.val_at(
                    choose|i: int| 0 <= i < self.n() && #[trigger] self.key_at(i) == k,
                ),
        )
    }
}

impl<K: TotalOrder, V, S: Store<NodeSlot<K, V>>> SkipList<K, V, S> {
    /// The number of nodes, as the model sees it.
    pub closed spec fn spec_len(&self) -> int {
        self.length as int
    }

    /// The number of nodes on the chain.
    pub closed spec fn n(&self) -> int {
        self.chain@.len() as int
    }

    spec fn blk(&self, i: int) -> Seq<Option<NodeSlot<K, V>>> {
        self.storage.contents(self.chain@[i])
    }

    /// The key of the node at chain position `i`.
    pub closed spec fn key_at(&self, i: int) -> K {
        node_header(self.blk(i)).key
    }

    /// The value of the node at chain position `i`.
    pub closed spec fn val_at(&self, i: int) -> V {
        node_header(self.blk(i)).value
    }

    /// The number of links of the node at chain position `i`.
    pub closed spec fn links_at(&self, i: int) -> int {
        node_links(self.blk(i))
    }

    /// The link at level `l` of the node at chain position `i`.
    pub closed spec fn link_at(&self, i: int, l: int) -> Handle {
        node_link(self.blk(i), l)
    }

    /// The internal invariant: the chain of nodes is sorted by key, the link
    /// at level 0 of each node is its successor, every other link lands
    /// further along the chain, and only the last node has zero links.
    pub closed spec fn well_formed(&self) -> bool {
        &&& self.storage.wf()
        &&& self.storage.unbounded()
        &&& self.chain@.len() == self.length
        &&& (forall|i: int| 0 <= i < self.n() ==> self.storage.valid(#[trigger] self.chain@[i]))
        &&& (forall|i: int| 0 <= i < self.n() ==> node_wf(#[trigger] self.blk(i)))
        &&& (forall|i: int, j: int|
            #![trigger self.chain@[i], self.chain@[j]]
            0 <= i < j < self.n() ==> self.chain@[i] != self.chain@[j])
        &&& (forall|i: int, j: int|
            #![trigger self.key_at(i), self.key_at(j)]
            0 <= i < j < self.n() ==> strictly_less(self.key_at(i), self.key_at(j)))
        &&& (self.n() > 0 ==> self.head == self.chain@[0])
        &&& (forall|i: int| 0 <= i < self.n() - 1 ==> #[trigger] self.links_at(i) >= 1)
        &&& (self.n() > 0 ==> self.links_at(self.n() - 1) == 0)
        &&& (forall|i: int|
            0 <= i < self.n() - 1 ==> #[trigger] self.link_at(i, 0) == self.chain@[i + 1])
        &&& (forall|i: int, l: int|
            #![trigger self.link_at(i, l)]
            0 <= i < self.n() && 1 <= l < self.links_at(i) ==> exists|j: int|
                i < j < self.n() && #[trigger] self.chain@[j] == self.link_at(i, l))
    }

    /// A node's key is in the map, with that node's value.
    proof fn lemma_key_index(&self, i: int)
        requires
            self.well_formed(),
            0 <= i < self.n(),
        ensures
            self@.contains_key(self.key_at(i)),
            self@[self.key_at(i)] == self.val_at(i),
    {
        let k = self.key_at(i);
        assert(0 <= i < self.n() && self.key_at(i) == k);
        let j = choose|j: int| 0 <= j < self.n() && #[trigger] self.key_at(j) == k;
        assert(j == i) by {
            if j < i {
                assert(strictly_less(self.key_at(j), self.key_at(i)));
            }
            if i < j {
                assert(strictly_less(self.key_at(i), self.key_at(j)));
            }
        }
    }

    /// If some key of the map lies strictly above the key at `ci` while the
    /// successor of `ci` (if any) is not below it and differs from it, then
    /// that key is in no node at all.
    proof fn lemma_absent(&self, k: K, ci: int)
        requires
            self.well_formed(),
            0 <= ci < self.n(),
            strictly_less(self.key_at(ci), k),
            self.links_at(ci) >= 1 ==> !strictly_less(self.key_at(ci + 1), k) && self.key_at(
                ci + 1,
            ) != k,
        ensures
            !self@.contains_key(k),
    {
        if self@.contains_key(k) {
            let j = choose|j: int| 0 <= j < self.n() && #[trigger] self.key_at(j) == k;
            if j <= ci {
                if j < ci {
                    assert(strictly_less(self.key_at(j), self.key_at(ci)));
                    lemma_strictly_less_asym(self.key_at(ci), k);
                }
                assert(false);
            } else {
                assert(self.links_at(ci) >= 1) by {
                    if self.links_at(ci) == 0 {
                        assert(ci == self.n() - 1);
                    }
                }
                if j == ci + 1 {
                    assert(false);
                } else {
                    assert(strictly_less(self.key_at(ci + 1), self.key_at(j)));
                    lemma_not_less(self.key_at(ci + 1), k);
                    lemma_strictly_less_asym(k, self.key_at(ci + 1));
                    assert(false);
                }
            }
        }
    }

    /// Creates a new, empty, list with a default storage.
    pub fn new() -> (r: Self) where S: StoreDefault<NodeSlot<K, V>>
        ensures
            r.well_formed(),
            r@ == Map::<K, V>::empty(),
            r.spec_len() == 0,
    {
        Self::with_storage(S::default_store())
    }

    /// Creates a new, empty, list with the given storage.
    pub fn with_storage(storage: S) -> (r: Self)
        requires
            storage.wf(),
            storage.unbounded(),
        ensures
            r.well_formed(),
            r@ == Map::<K, V>::empty(),
            r.spec_len() == 0,
    {
        proof {
            lemma_align_one();
        }
        let dangling = storage.dangling(1);
        let head = match dangling {
            Ok(h) => h,
            Err(_) => unreached(),
        };
        // the seed is replaced by address-derived entropy on the first insert
        let prng = oorandom::Rand32::new(0);
        let r = SkipList {
            length: 0,
            head,
            storage,
            prng,
            chain: Ghost(Seq::empty()),
            _marker: PhantomData,
        };
        proof {
            assert(r@ =~= Map::<K, V>::empty());
        }
        r
    }

    /// Returns whether the list is empty.
    pub fn is_empty(&self) -> (r: bool)
        requires
            self.well_formed(),
        ensures
            r == (self.spec_len() == 0),
            r == (self@ == Map::<K, V>::empty()),
    {
        proof {
            if self.n() > 0 {
                self.lemma_key_index(0);
            } else {
                assert(self@ =~= Map::<K, V>::empty());
            }
        }
        self.length == 0
    }

    /// Returns the number of nodes in the list.
    pub fn len(&self) -> (r: usize)
        requires
            self.well_formed(),
        ensures
            r == self.spec_len(),
    {
        self.length
    }

    /// Clears the list, deallocating every node. Afterwards, it is empty.
    pub fn clear(&mut self)
        requires
            old(self).well_formed(),
        ensures
            final(self).well_formed(),
            final(self)@ == Map::<K, V>::empty(),
            final(self).spec_len() == 0,
    {
        let ghost old_list = *old(self);
        let count = self.length;
        let mut cur = self.head;
        self.length = 0;
        self.chain = Ghost(Seq::empty());
        let mut i: usize = 0;
        while i < count
            invariant
                old_list.well_formed(),
                self.length == 0,
                self.chain@.len() == 0,
                self.storage.wf(),
                self.storage.unbounded(),
                old_list.n() == count,
                i <= count,
                i < count ==> cur == old_list.chain@[i as int],
                forall|j: int|
                    i <= j < count ==> self.storage.valid(#[trigger] old_list.chain@[j])
                        && self.storage.contents(old_list.chain@[j]) == old_list.blk(j),
            decreases count - i,
        {
            proof {
                assert(self.storage.valid(old_list.chain@[i as int]));
                assert(node_wf(old_list.blk(i as int)));
                if (i as int) < count - 1 {
                    assert(old_list.links_at(i as int) >= 1);
                    assert(old_list.link_at(i as int, 0) == old_list.chain@[i as int + 1]);
                }
                lemma_align_one();
            }
            let links = Self::read_header(&self.storage, cur).links;
            proof {
                if links > 0 && i as int == count - 1 {
                    assert(old_list.links_at(count - 1) == 0);
                }
            }
            let next = if links > 0 {
                Self::read_link(&self.storage, cur, 0)
            } else {
                cur
            };
            let layout = Layout::new(1 + links as usize, 1);
            self.storage.deallocate(cur, layout);
            proof {
                assert forall|j: int|
                    i + 1 <= j < count implies self.storage.valid(
                    #[trigger] old_list.chain@[j],
                ) && self.storage.contents(old_list.chain@[j]) == old_list.blk(j) by {
                    assert(old_list.chain@[i as int] != old_list.chain@[j]);
                }
            }
            cur = next;
            i += 1;
        }
        proof {
            assert(self@ =~= Map::<K, V>::empty());
        }
    }

    /// Reads the header of the node at `h`.
    fn read_header<'a>(storage: &'a S, h: Handle) -> (r: &'a NodeHeader<K, V>)
        requires
            storage.wf(),
            storage.valid(h),
            node_wf(storage.contents(h)),
        ensures
            *r == node_header(storage.contents(h)),
    {
        match storage.read(h, 0) {
            NodeSlot::Header(hd) => hd,
            NodeSlot::Link(_) => unreached(),
        }
    }

    /// Reads the link at level `l` of the node at `h`.
    fn read_link(storage: &S, h: Handle, l: usize) -> (r: Handle)
        requires
            storage.wf(),
            storage.valid(h),
            node_wf(storage.contents(h)),
            l < node_links(storage.contents(h)),
        ensures
            r == node_link(storage.contents(h), l as int),
    {
        proof {
            assert(storage.contents(h)[l as int + 1] matches Some(NodeSlot::Link(_)));
        }
        match storage.read(h, 1 + l) {
            NodeSlot::Link(target) => *target,
            NodeSlot::Header(_) => unreached(),
        }
    }

    /// Redirects the link at level `l` of the node at `h` to `target`.
    fn write_link(storage: &mut S, h: Handle, l: usize, target: Handle)
        requires
            old(storage).wf(),
            old(storage).valid(h),
            node_wf(old(storage).contents(h)),
            l < node_links(old(storage).contents(h)),
        ensures
            final(storage).wf(),
            final(storage).unbounded() == old(storage).unbounded(),
            final(storage).contents(h) == old(storage).contents(h).update(
                1 + l as int,
                Some(NodeSlot::Link(target)),
            ),
            forall|g: Handle| final(storage).valid(g) == old(storage).valid(g),
            forall|g: Handle|
                g != h && old(storage).valid(g) ==> final(storage).contents(g) == old(
                    storage,
                ).contents(g),
    {
        storage.write(h, 1 + l, NodeSlot::Link(target));
    }

    /// Replaces the key and value of the node at `h`, returning the evicted
    /// pair; the link count and the links are untouched.
    fn replace_kv(storage: &mut S, h: Handle, key: K, value: V) -> (r: (K, V))
        requires
            old(storage).wf(),
            old(storage).valid(h),
            node_wf(old(storage).contents(h)),
        ensures
            final(storage).wf(),
            final(storage).unbounded() == old(storage).unbounded(),
            r.0 == node_header(old(storage).contents(h)).key,
            r.1 == node_header(old(storage).contents(h)).value,
            final(storage).contents(h) == old(storage).contents(h).update(
                0,
                Some(
                    NodeSlot::Header(
                        NodeHeader {
                            key,
                            value,
                            links: node_header(old(storage).contents(h)).links,
                        },
                    ),
                ),
            ),
            forall|g: Handle| final(storage).valid(g) == old(storage).valid(g),
            forall|g: Handle|
                g != h && old(storage).valid(g) ==> final(storage).contents(g) == old(
                    storage,
                ).contents(g),
    {
        let taken = storage.take(h, 0);
        match taken {
            NodeSlot::Header(hd) => {
                storage.write(h, 0, NodeSlot::Header(NodeHeader { key, value, links: hd.links }));
                proof {
                    assert(final(storage).contents(h) =~= old(storage).contents(h).update(
                        0,
                        Some(
                            NodeSlot::Header(
                                NodeHeader {
                                    key,
                                    value,
                                    links: node_header(old(storage).contents(h)).links,
                                },
                            ),
                        ),
                    ));
                }
                (hd.key, hd.value)
            },
            NodeSlot::Link(_) => unreached(),
        }
    }

    /// Allocates a fresh node holding `key` and `value`, with `links` link
    /// slots all pointing at `fill`.
    fn new_node(storage: &mut S, key: K, value: V, links: u8, fill: Handle) -> (h: Handle)
        requires
            old(storage).wf(),
            old(storage).unbounded(),
            links as usize <= MAX_NUMBER_LINKS,
        ensures
            final(storage).wf(),
            final(storage).unbounded(),
            !old(storage).valid(h),
            final(storage).valid(h),
            node_wf(final(storage).contents(h)),
            node_header(final(storage).contents(h)) == (NodeHeader { key, value, links }),
            forall|l: int|
                0 <= l < links as int ==> node_link(final(storage).contents(h), l) == fill,
            forall|g: Handle|
                old(storage).valid(g) ==> final(storage).valid(g) && final(storage).contents(g)
                    == old(storage).contents(g),
    {
        proof {
            lemma_align_one();
        }
        let count = 1 + links as usize;
        let layout = Layout::new(count, 1);
        let allocated = storage.allocate(layout);
        let h = match allocated {
            Ok((h, _)) => h,
            Err(_) => unreached(),
        };
        storage.write(h, 0, NodeSlot::Header(NodeHeader { key, value, links }));
        let mut l: usize = 0;
        while l < links as usize
            invariant
                l <= links as usize,
                storage.wf(),
                storage.unbounded(),
                storage.valid(h),
                !old(storage).valid(h),
                1 + links as usize <= storage.contents(h).len(),
                storage.contents(h)[0] == Some(NodeSlot::Header(NodeHeader { key, value, links })),
                forall|m: int|
                    0 <= m < l as int ==> #[trigger] storage.contents(h)[m + 1] == Some(
                        NodeSlot::<K, V>::Link(fill),
                    ),
                forall|g: Handle|
                    old(storage).valid(g) ==> storage.valid(g) && storage.contents(g) == old(
                        storage,
                    ).contents(g),
            decreases links as usize - l,
        {
            storage.write(h, 1 + l, NodeSlot::Link(fill));
            l += 1;
        }
        h
    }

    /// Reads a reference to the value of the node at `h`.
    fn read_value<'a>(storage: &'a S, h: Handle) -> (r: &'a V) where K: 'a, V: 'a
        requires
            storage.wf(),
            storage.valid(h),
            node_wf(storage.contents(h)),
        ensures
            *r == node_header(storage.contents(h)).value,
    {
        match storage.read(h, 0) {
            NodeSlot::Header(hd) => &hd.value,
            NodeSlot::Link(_) => unreached(),
        }
    }

    /// Advances from `cur` along the links at `level` while the next node
    /// holds a key strictly below `key`, stopping before the zero-link tail.
    fn walk_level(&self, cur: Handle, ci: Ghost<int>, level: usize, key: &K) -> (r: (
        Handle,
        Ghost<int>,
    ))
        requires
            self.well_formed(),
            0 <= ci@ < self.n(),
            self.chain@[ci@] == cur,
            strictly_less(self.key_at(ci@), *key),
            level <= MAX_NUMBER_LINKS,
        ensures
            ci@ <= r.1@ < self.n(),
            self.chain@[r.1@] == r.0,
            strictly_less(self.key_at(r.1@), *key),
            self.links_at(r.1@) == 0 ==> r.1@ == ci@,
            self.links_at(r.1@) > level ==> exists|m: int|
                #![trigger self.chain@[m]]
                r.1@ < m < self.n() && self.chain@[m] == self.link_at(r.1@, level as int) && (
                self.links_at(m) == 0 || !strictly_less(self.key_at(m), *key)),
    {
        let mut cur = cur;
        let ghost mut i: int = ci@;
        loop
            invariant_except_break
                self.well_formed(),
                0 <= ci@,
                ci@ <= i < self.n(),
                self.chain@[i] == cur,
                strictly_less(self.key_at(i), *key),
                self.links_at(i) == 0 ==> i == ci@,
                level < MAX_NUMBER_LINKS + 1,
            ensures
                ci@ <= i < self.n(),
                self.chain@[i] == cur,
                strictly_less(self.key_at(i), *key),
                self.links_at(i) == 0 ==> i == ci@,
                self.links_at(i) > level ==> exists|m: int|
                    #![trigger self.chain@[m]]
                    i < m < self.n() && self.chain@[m] == self.link_at(i, level as int) && (
                    self.links_at(m) == 0 || !strictly_less(self.key_at(m), *key)),
            decreases self.n() - i,
        {
            proof {
                assert(self.storage.valid(self.chain@[i]));
                assert(node_wf(self.blk(i)));
            }
            let hd = Self::read_header(&self.storage, cur);
            if (hd.links as usize) <= level {
                break;
            }
            let next = Self::read_link(&self.storage, cur, level);
            let ghost m: int = if level == 0 {
                i + 1
            } else {
                choose|m: int|
                    i < m < self.n() && #[trigger] self.chain@[m] == self.link_at(
                        i,
                        level as int,
                    )
            };
            proof {
                assert(self.links_at(i) > level);
                assert(next == self.link_at(i, level as int));
                if level == 0 {
                    assert(self.link_at(i, 0) == self.chain@[i + 1]);
                } else {
                    assert(exists|m: int|
                        i < m < self.n() && #[trigger] self.chain@[m] == self.link_at(
                            i,
                            level as int,
                        ));
                }
                assert(i < m < self.n() && self.chain@[m] == next);
                assert(self.storage.valid(self.chain@[m]));
                assert(node_wf(self.blk(m)));
            }
            let nh = Self::read_header(&self.storage, next);
            if nh.links == 0 {
                proof {
                    assert(self.links_at(m) == 0);
                }
                break;
            }
            match key.compare(&nh.key) {
                KeyOrdering::Greater => {
                    proof {
                        i = m;
                    }
                    cur = next;
                },
                KeyOrdering::Equal => {
                    proof {
                        assert(!strictly_less(self.key_at(m), *key));
                    }
                    break;
                },
                KeyOrdering::Less => {
                    proof {
                        lemma_strictly_less_asym(*key, self.key_at(m));
                    }
                    break;
                },
            }
        }
        (cur, Ghost(i))
    }

    /// Gets the value associated with `key`, if it is present.
    pub fn get<'a>(&'a self, key: &K) -> (r: Option<&'a V>)
        requires
            self.well_formed(),
        ensures
            r matches Some(v) ==> self@.contains_key(*key) && *v == self@[*key],
            r is None ==> !self@.contains_key(*key),
    {
        if self.length == 0 {
            return None;
        }
        proof {
            assert(self.storage.valid(self.chain@[0]));
            assert(node_wf(self.blk(0)));
        }
        let hd = Self::read_header(&self.storage, self.head);
        let head_links = hd.links as usize;
        match key.compare(&hd.key) {
            KeyOrdering::Less => {
                proof {
                    if self@.contains_key(*key) {
                        let j = choose|j: int|
                            0 <= j < self.n() && #[trigger] self.key_at(j) == *key;
                        if j > 0 {
                            lemma_strictly_less_trans(*key, self.key_at(0), self.key_at(j));
                        }
                        assert(false);
                    }
                }
                None
            },
            KeyOrdering::Equal => {
                proof {
                    self.lemma_key_index(0);
                }
                Some(Self::read_value(&self.storage, self.head))
            },
            KeyOrdering::Greater => {
                let mut cur = self.head;
                let ghost mut ci: int = 0;
                let mut level = head_links;
                while level > 0
                    invariant
                        self.well_formed(),
                        0 <= ci < self.n(),
                        self.chain@[ci] == cur,
                        strictly_less(self.key_at(ci), *key),
                        level <= MAX_NUMBER_LINKS,
                        level == 0 && self.links_at(ci) >= 1 ==> self.links_at(ci + 1) == 0
                            || !strictly_less(self.key_at(ci + 1), *key),
                    decreases level,
                {
                    level -= 1;
                    let w = self.walk_level(cur, Ghost(ci), level, key);
                    cur = w.0;
                    proof {
                        ci = w.1@;
                        if level == 0 && self.links_at(ci) >= 1 {
                            let m = choose|m: int|
                                #![trigger self.chain@[m]]
                                ci < m < self.n() && self.chain@[m] == self.link_at(
                                    ci,
                                    level as int,
                                ) && (self.links_at(m) == 0 || !strictly_less(
                                    self.key_at(m),
                                    *key,
                                ));
                            assert(self.link_at(ci, 0) == self.chain@[ci + 1]);
                            assert(self.chain@[m] == self.chain@[ci + 1]);
                            if m != ci + 1 {
                                assert(self.chain@[ci + 1] != self.chain@[m]);
                            }
                            assert(m == ci + 1);
                        }
                    }
                }
                let hd2 = Self::read_header(&self.storage, cur);
                if hd2.links == 0 {
                    proof {
                        self.lemma_absent(*key, ci);
                    }
                    None
                } else {
                    proof {
                        assert(self.link_at(ci, 0) == self.chain@[ci + 1]);
                    }
                    let next = Self::read_link(&self.storage, cur, 0);
                    let nh = Self::read_header(&self.storage, next);
                    match key.compare(&nh.key) {
                        KeyOrdering::Equal => {
                            proof {
                                self.lemma_key_index(ci + 1);
                            }
                            Some(Self::read_value(&self.storage, next))
                        },
                        KeyOrdering::Less => {
                            proof {
                                lemma_strictly_less_asym(*key, self.key_at(ci + 1));
                                self.lemma_absent(*key, ci);
                            }
                            None
                        },
                        KeyOrdering::Greater => {
                            proof {
                                assert(self.links_at(ci + 1) == 0) by {
                                    lemma_strictly_less_asym(self.key_at(ci + 1), *key);
                                }
                                assert(ci + 1 == self.n() - 1);
                                if self@.contains_key(*key) {
                                    let j = choose|j: int|
                                        0 <= j < self.n() && #[trigger] self.key_at(j) == *key;
                                    if j < ci + 1 {
                                        assert(strictly_less(self.key_at(j), self.key_at(ci + 1)));
                                        lemma_strictly_less_asym(self.key_at(ci + 1), *key);
                                    }
                                    assert(false);
                                }
                            }
                            None
                        },
                    }
                }
            },
        }
    }

    /// A key strictly below the first key is in no node.
    proof fn lemma_below_all(&self, key: K)
        requires
            self.well_formed(),
            self.n() > 0,
            strictly_less(key, self.key_at(0)),
        ensures
            !self@.contains_key(key),
    {
        if self@.contains_key(key) {
            let j = choose|j: int| 0 <= j < self.n() && #[trigger] self.key_at(j) == key;
            if j > 0 {
                lemma_strictly_less_trans(key, self.key_at(0), self.key_at(j));
            }
            assert(false);
        }
    }

    /// Inserting a fresh key at position `p` of the chain turns the map into
    /// the old map extended by that key.
    proof fn lemma_view_insert(pre: Self, post: Self, p: int, key: K, value: V)
        requires
            pre.well_formed(),
            post.well_formed(),
            0 <= p <= pre.n(),
            post.n() == pre.n() + 1,
            forall|j: int|
                0 <= j < p ==> #[trigger] post.key_at(j) == pre.key_at(j) && post.val_at(j)
                    == pre.val_at(j),
            forall|j: int|
                p <= j < pre.n() ==> post.key_at(j + 1) == #[trigger] pre.key_at(j)
                    && post.val_at(j + 1) == pre.val_at(j),
            post.key_at(p) == key,
            post.val_at(p) == value,
            !pre@.contains_key(key),
        ensures
            post@ == pre@.insert(key, value),
    {
        assert forall|k: K| #[trigger] post@.contains_key(k) implies pre@.insert(
            key,
            value,
        ).contains_key(k) && post@[k] == pre@.insert(key, value)[k] by {
            let j = choose|j: int| 0 <= j < post.n() && #[trigger] post.key_at(j) == k;
            post.lemma_key_index(j);
            if j == p {
                assert(k == key);
            } else if j < p {
                assert(pre.key_at(j) == k);
                pre.lemma_key_index(j);
                assert(k != key);
            } else {
                assert(post.key_at((j - 1) + 1) == pre.key_at(j - 1));
                assert(pre.key_at(j - 1) == k);
                pre.lemma_key_index(j - 1);
                assert(k != key);
            }
        }
        assert forall|k: K| #[trigger] pre@.insert(key, value).contains_key(k) implies
            post@.contains_key(k) by {
            if k == key {
                assert(0 <= p < post.n() && post.key_at(p) == k);
            } else {
                let j = choose|j: int| 0 <= j < pre.n() && #[trigger] pre.key_at(j) == k;
                if j < p {
                    assert(0 <= j < post.n() && post.key_at(j) == k);
                } else {
                    assert(post.key_at(j + 1) == pre.key_at(j));
                    assert(0 <= j + 1 < post.n() && post.key_at(j + 1) == k);
                }
            }
        }
        assert(post@ =~= pre@.insert(key, value));
    }

    /// Replacing the value (and equal key) at position `p` of the chain turns
    /// the map into the old map with that key re-bound.
    proof fn lemma_view_replace(pre: Self, post: Self, p: int, key: K, value: V)
        requires
            pre.well_formed(),
            post.well_formed(),
            0 <= p < pre.n(),
            post.n() == pre.n(),
            forall|j: int|
                0 <= j < pre.n() && j != p ==> #[trigger] post.key_at(j) == pre.key_at(j)
                    && post.val_at(j) == pre.val_at(j),
            pre.key_at(p) == key,
            post.key_at(p) == key,
            post.val_at(p) == value,
        ensures
            post@ == pre@.insert(key, value),
    {
        assert forall|k: K| #[trigger] post@.contains_key(k) implies pre@.insert(
            key,
            value,
        ).contains_key(k) && post@[k] == pre@.insert(key, value)[k] by {
            let j = choose|j: int| 0 <= j < post.n() && #[trigger] post.key_at(j) == k;
            post.lemma_key_index(j);
            if j == p {
                assert(k == key);
            } else {
                assert(pre.key_at(j) == k);
                pre.lemma_key_index(j);
                assert(k != key) by {
                    if j < p {
                        assert(strictly_less(post.key_at(j), post.key_at(p)));
                    } else {
                        assert(strictly_less(post.key_at(p), post.key_at(j)));
                    }
                }
            }
        }
        assert forall|k: K| #[trigger] pre@.insert(key, value).contains_key(k) implies
            post@.contains_key(k) by {
            if k == key {
                assert(0 <= p < post.n() && post.key_at(p) == k);
            } else {
                let j = choose|j: int| 0 <= j < pre.n() && #[trigger] pre.key_at(j) == k;
                assert(j != p);
                assert(0 <= j < post.n() && post.key_at(j) == k);
            }
        }
        assert(post@ =~= pre@.insert(key, value));
    }

    /// Splices a node with a fresh minimal key in front of the head.
    fn insert_new_head(&mut self, key: K, value: V, target_links: usize)
        requires
            old(self).well_formed(),
            old(self).n() > 0,
            strictly_less(key, old(self).key_at(0)),
            1 <= target_links <= MAX_NUMBER_LINKS,
            old(self).spec_len() < usize::MAX,
        ensures
            final(self).well_formed(),
            final(self)@ == old(self)@.insert(key, value),
            final(self).spec_len() == old(self).spec_len() + 1,
    {
        let ghost pre = *old(self);
        proof {
            assert(self.storage.valid(self.chain@[0]));
            assert(node_wf(self.blk(0)));
        }
        let hd = Self::read_header(&self.storage, self.head);
        let head_links = hd.links as usize;
        let links = if target_links > head_links {
            target_links
        } else {
            head_links
        };
        let b = Self::new_node(&mut self.storage, key, value, links as u8, self.head);
        self.head = b;
        self.length = self.length + 1;
        self.chain = Ghost(seq![b] + pre.chain@);
        proof {
            let n2 = self.n();
            assert(n2 == pre.n() + 1);
            assert(self.chain@[0] == b);
            assert forall|j: int| 1 <= j < n2 implies self.chain@[j] == pre.chain@[j - 1]
                && self.storage.valid(#[trigger] self.chain@[j]) && self.blk(j) == pre.blk(
                j - 1,
            ) by {
                assert(pre.storage.valid(pre.chain@[j - 1]));
            }
            assert forall|j: int| 1 <= j < n2 implies b != #[trigger] self.chain@[j] by {
                assert(pre.storage.valid(pre.chain@[j - 1]));
            }
            assert forall|j: int| 1 <= j < n2 implies strictly_less(
                self.key_at(0),
                #[trigger] self.key_at(j),
            ) by {
                assert(self.key_at(j) == pre.key_at(j - 1));
                if j > 1 {
                    lemma_strictly_less_trans(key, pre.key_at(0), pre.key_at(j - 1));
                }
            }
            assert(node_links(self.storage.contents(b)) == links as int);
            assert(self.links_at(0) >= 1);
            assert(self.link_at(0, 0) == pre.chain@[0]);
            assert forall|j: int| 0 <= j < n2 - 1 implies #[trigger] self.link_at(j, 0)
                == self.chain@[j + 1] by {
                if j >= 1 {
                    assert(pre.link_at(j - 1, 0) == pre.chain@[j]);
                }
            }
            assert forall|j: int, l: int|
                #![trigger self.link_at(j, l)]
                0 <= j < n2 && 1 <= l < self.links_at(j) implies exists|m: int|
                j < m < n2 && #[trigger] self.chain@[m] == self.link_at(j, l) by {
                if j == 0 {
                    assert(self.chain@[1] == self.link_at(0, l));
                } else {
                    assert(pre.links_at(j - 1) == self.links_at(j));
                    assert(pre.link_at(j - 1, l) == self.link_at(j, l));
                    let m0 = choose|m: int|
                        m > j - 1 && m < pre.n() && #[trigger] pre.chain@[m] == pre.link_at(
                            j - 1,
                            l,
                        );
                    assert(self.chain@[m0 + 1] == self.link_at(j, l));
                }
            }
            assert forall|j: int| 0 <= j < n2 implies node_wf(#[trigger] self.blk(j)) by {
                if j >= 1 {
                    assert(node_wf(pre.blk(j - 1)));
                }
            }
            assert forall|i: int, j: int|
                #![trigger self.chain@[i], self.chain@[j]]
                0 <= i < j < n2 implies self.chain@[i] != self.chain@[j] by {
                if i >= 1 {
                    assert(pre.chain@[i - 1] != pre.chain@[j - 1]);
                }
            }
            assert forall|i: int, j: int|
                #![trigger self.key_at(i), self.key_at(j)]
                0 <= i < j < n2 implies strictly_less(self.key_at(i), self.key_at(j)) by {
                if i >= 1 {
                    assert(strictly_less(pre.key_at(i - 1), pre.key_at(j - 1)));
                }
            }
            assert forall|j: int| 0 <= j < n2 - 1 implies #[trigger] self.links_at(j) >= 1 by {
                if j >= 1 {
                    assert(pre.links_at(j - 1) >= 1);
                }
            }
            assert(self.links_at(n2 - 1) == pre.links_at(pre.n() - 1));
            assert(self.well_formed());
            pre.lemma_below_all(key);
            assert forall|j: int|
                1 <= j < n2 implies #[trigger] self.key_at(j) == pre.key_at(j - 1)
                && self.val_at(j) == pre.val_at(j - 1) by {
            }
            Self::lemma_view_insert(pre, *self, 0, key, value);
        }
    }

    /// Grows the node at `h` to `new_links` link slots, keeping its header
    /// key and value and its existing links, and pointing every added slot at
    /// `fill`. The returned handle replaces `h`.
    fn grow_node(storage: &mut S, h: Handle, old_links: usize, new_links: usize, fill: Handle)
        -> (g: Handle)
        requires
            old(storage).wf(),
            old(storage).unbounded(),
            old(storage).valid(h),
            node_wf(old(storage).contents(h)),
            node_links(old(storage).contents(h)) == old_links,
            old_links < new_links <= MAX_NUMBER_LINKS,
        ensures
            final(storage).wf(),
            final(storage).unbounded(),
            final(storage).valid(g),
            g == h || !final(storage).valid(h),
            g == h || !old(storage).valid(g),
            node_wf(final(storage).contents(g)),
            node_header(final(storage).contents(g)) == (NodeHeader {
                key: node_header(old(storage).contents(h)).key,
                value: node_header(old(storage).contents(h)).value,
                links: new_links as u8,
            }),
            forall|l: int|
                0 <= l < old_links ==> #[trigger] node_link(final(storage).contents(g), l)
                    == node_link(old(storage).contents(h), l),
            forall|l: int|
                old_links <= l < new_links ==> #[trigger] node_link(
                    final(storage).contents(g),
                    l,
                ) == fill,
            forall|x: Handle|
                x != h && old(storage).valid(x) ==> final(storage).valid(x)
                    && final(storage).contents(x) == old(storage).contents(x),
    {
        proof {
            lemma_align_one();
        }
        let old_layout = Layout::new(1 + old_links, 1);
        let new_layout = Layout::new(1 + new_links, 1);
        let grown = storage.grow(h, old_layout, new_layout);
        let g = match grown {
            Ok((g, _)) => g,
            Err(_) => unreached(),
        };
        let ghost pre = *old(storage);
        proof {
            assert forall|s: int| 0 <= s < 1 + old_links implies storage.contents(g)[s]
                == pre.contents(h)[s] by {
                assert(storage.contents(g).subrange(0, 1 + old_links as int)[s] == pre.contents(
                    h,
                ).subrange(0, 1 + old_links as int)[s]);
            }
        }
        let taken = storage.take(g, 0);
        match taken {
            NodeSlot::Header(hd) => {
                storage.write(
                    g,
                    0,
                    NodeSlot::Header(
                        NodeHeader { key: hd.key, value: hd.value, links: new_links as u8 },
                    ),
                );
            },
            NodeSlot::Link(_) => unreached(),
        }
        let mut l: usize = old_links;
        while l < new_links
            invariant
                old_links <= l <= new_links,
                storage.wf(),
                storage.unbounded() == pre.unbounded(),
                storage.valid(g),
                storage.contents(g).len() >= 1 + new_links,
                storage.contents(g)[0] == Some(
                    NodeSlot::<K, V>::Header(
                        NodeHeader {
                            key: node_header(pre.contents(h)).key,
                            value: node_header(pre.contents(h)).value,
                            links: new_links as u8,
                        },
                    ),
                ),
                forall|s: int|
                    1 <= s < 1 + old_links ==> #[trigger] storage.contents(g)[s] == pre.contents(
                        h,
                    )[s],
                forall|s: int|
                    1 + old_links <= s < 1 + l ==> #[trigger] storage.contents(g)[s] == Some(
                        NodeSlot::<K, V>::Link(fill),
                    ),
                forall|x: Handle|
                    x != h && pre.valid(x) ==> storage.valid(x) && storage.contents(x)
                        == pre.contents(x),
                g == h || !pre.valid(g),
                g == h || !storage.valid(h),
            decreases new_links - l,
        {
            storage.write(g, 1 + l, NodeSlot::Link(fill));
            l += 1;
        }
        proof {
            assert forall|l2: int| 0 <= l2 < old_links implies #[trigger] node_link(
                storage.contents(g),
                l2,
            ) == node_link(pre.contents(h), l2) by {
                assert(storage.contents(g)[l2 + 1] == pre.contents(h)[l2 + 1]);
                assert(pre.contents(h)[l2 + 1] matches Some(NodeSlot::Link(_)));
            }
            assert forall|l2: int| old_links <= l2 < new_links implies #[trigger] node_link(
                storage.contents(g),
                l2,
            ) == fill by {
                assert(storage.contents(g)[l2 + 1] == Some(NodeSlot::<K, V>::Link(fill)));
            }
            assert(node_wf(storage.contents(g)));
        }
        g
    }

    /// Splices a node holding `key` and `value` into position `p` of the
    /// chain. The recorded predecessor of each level is redirected to the new
    /// node, which inherits the old target; if the new node carries more
    /// links than the head, the head block is grown and its added slots point
    /// at the new node.
    #[verifier::loop_isolation(false)]
    fn splice_at(
        &mut self,
        key: K,
        value: V,
        target_links: usize,
        update: &Vec<Option<Handle>>,
        uidx: Ghost<Seq<int>>,
        p: Ghost<int>,
        succ: Handle,
    )
        requires
            old(self).well_formed(),
            old(self).spec_len() < usize::MAX,
            1 <= target_links <= MAX_NUMBER_LINKS,
            1 <= p@ < old(self).n(),
            strictly_less(old(self).key_at(p@ - 1), key),
            strictly_less(key, old(self).key_at(p@)),
            succ == old(self).chain@[p@],
            update@.len() == old(self).links_at(0),
            uidx@.len() == update@.len(),
            update@[0] is Some,
            uidx@[0] == p@ - 1,
            forall|l: int|
                0 <= l < update@.len() && (#[trigger] update@[l]) is Some ==> {
                    &&& 0 <= uidx@[l] < p@
                    &&& old(self).chain@[uidx@[l]] == update@[l]->Some_0
                    &&& old(self).links_at(uidx@[l]) > l
                    &&& exists|m: int|
                        #![trigger old(self).chain@[m]]
                        p@ <= m < old(self).n() && old(self).chain@[m] == old(self).link_at(
                            uidx@[l],
                            l,
                        )
                },
        ensures
            final(self).well_formed(),
            final(self)@ == old(self)@.insert(key, value),
            final(self).spec_len() == old(self).spec_len() + 1,
    {
        let ghost pre = *old(self);
        let ghost n = pre.n();
        proof {
            assert(self.storage.valid(self.chain@[0]));
            assert(node_wf(self.blk(0)));
            assert(pre.links_at(0) >= 1);
        }
        let hd = Self::read_header(&self.storage, self.head);
        let head_links = hd.links as usize;
        let min_links = if target_links < head_links {
            target_links
        } else {
            head_links
        };
        let b = Self::new_node(&mut self.storage, key, value, target_links as u8, succ);
        let mut l: usize = 0;
        while l < min_links
            invariant
                0 <= l <= min_links,
                self.storage.wf(),
                self.storage.unbounded(),
                self.storage.valid(b),
                !pre.storage.valid(b),
                node_wf(self.storage.contents(b)),
                node_links(self.storage.contents(b)) == target_links,
                node_header(self.storage.contents(b)) == (NodeHeader {
                    key,
                    value,
                    links: target_links as u8,
                }),
                forall|lv: int|
                    0 <= lv < target_links ==> #[trigger] node_link(
                        self.storage.contents(b),
                        lv,
                    ) == (if lv < l && update@[lv] is Some {
                        pre.link_at(uidx@[lv], lv)
                    } else {
                        succ
                    }),
                forall|j: int| 0 <= j < n ==> self.storage.valid(#[trigger] pre.chain@[j]),
                forall|j: int|
                    0 <= j < n ==> (#[trigger] self.storage.contents(pre.chain@[j])).len()
                        == pre.blk(j).len() && node_wf(self.storage.contents(pre.chain@[j]))
                        && node_header(self.storage.contents(pre.chain@[j])) == node_header(
                        pre.blk(j),
                    ),
                forall|j: int, lv: int|
                    #![trigger node_link(self.storage.contents(pre.chain@[j]), lv)]
                    0 <= j < n && 0 <= lv < pre.links_at(j) ==> node_link(
                        self.storage.contents(pre.chain@[j]),
                        lv,
                    ) == (if lv < l && update@[lv] is Some && uidx@[lv] == j {
                        b
                    } else {
                        pre.link_at(j, lv)
                    }),
                self.length == pre.length,
                self.head == pre.head,
                self.chain == pre.chain,
            decreases min_links - l,
        {
            let entry = update[l];
            match entry {
                Some(q) => {
                    let ghost u = uidx@[l as int];
                    let ghost s0 = self.storage;
                    proof {
                        assert(update@[l as int] is Some);
                        assert(pre.chain@[u] == q);
                        assert(node_link(s0.contents(q), l as int) == pre.link_at(u, l as int));
                        assert(node_links(s0.contents(q)) == pre.links_at(u));
                    }
                    let t = Self::read_link(&self.storage, q, l);
                    Self::write_link(&mut self.storage, b, l, t);
                    proof {
                        assert(b != q);
                    }
                    Self::write_link(&mut self.storage, q, l, b);
                    proof {
                        let s2 = self.storage;
                        assert(s2.contents(b) == s0.contents(b).update(
                            1 + l as int,
                            Some(NodeSlot::Link(t)),
                        ));
                        assert(node_header(s2.contents(b)) == node_header(s0.contents(b)));
                        assert forall|lv: int| 0 <= lv < target_links implies #[trigger] node_link(
                            s2.contents(b),
                            lv,
                        ) == (if lv < l + 1 && update@[lv] is Some {
                            pre.link_at(uidx@[lv], lv)
                        } else {
                            succ
                        }) by {
                            if lv == l {
                                assert(node_link(s2.contents(b), lv) == t);
                            } else {
                                assert(node_link(s2.contents(b), lv) == node_link(
                                    s0.contents(b),
                                    lv,
                                ));
                            }
                        }
                        assert forall|j: int| 0 <= j < n implies (#[trigger] s2.contents(
                            pre.chain@[j],
                        )).len() == pre.blk(j).len() && node_wf(s2.contents(pre.chain@[j]))
                            && node_header(s2.contents(pre.chain@[j])) == node_header(
                            pre.blk(j),
                        ) by {
                            if pre.chain@[j] != q && pre.chain@[j] != b {
                                assert(s2.contents(pre.chain@[j]) == s0.contents(pre.chain@[j]));
                            }
                            if pre.chain@[j] == q {
                                assert(s2.contents(q) == s0.contents(q).update(
                                    1 + l as int,
                                    Some(NodeSlot::Link(b)),
                                ));
                            }
                        }
                        assert forall|j: int, lv: int|
                            #![trigger node_link(s2.contents(pre.chain@[j]), lv)]
                            0 <= j < n && 0 <= lv < pre.links_at(j) implies node_link(
                            s2.contents(pre.chain@[j]),
                            lv,
                        ) == (if lv < l + 1 && update@[lv] is Some && uidx@[lv] == j {
                            b
                        } else {
                            pre.link_at(j, lv)
                        }) by {
                            if pre.chain@[j] == q {
                                assert(j == u) by {
                                    if j != u {
                                        assert(pre.chain@[j] != pre.chain@[u]);
                                    }
                                }
                                if lv == l {
                                    assert(node_link(s2.contents(q), lv) == b);
                                } else {
                                    assert(node_link(s2.contents(q), lv) == node_link(
                                        s0.contents(q),
                                        lv,
                                    ));
                                }
                            } else {
                                assert(j != u);
                                assert(s2.contents(pre.chain@[j]) == s0.contents(pre.chain@[j]));
                            }
                        }
                    }
                },
                None => {},
            }
            l += 1;
        }
        let ghost smid = self.storage;
        let head0 = self.head;
        let grew = target_links > head_links;
        proof {
            assert(head0 == pre.chain@[0]);
            assert(self.storage.valid(pre.chain@[0]));
            assert(node_header(self.storage.contents(pre.chain@[0])) == node_header(pre.blk(0)));
            assert(node_links(self.storage.contents(head0)) == pre.links_at(0));
        }
        if grew {
            let g = Self::grow_node(&mut self.storage, head0, head_links, target_links, b);
            self.head = g;
        }
        self.length = self.length + 1;
        let ghost chmid = if grew {
            pre.chain@.update(0, self.head)
        } else {
            pre.chain@
        };
        self.chain = Ghost(chmid.subrange(0, p@) + seq![b] + chmid.subrange(p@, n));
        proof {
            let post = *self;
            let pv = p@;
            let st = post.storage;
            let hl = head_links as int;
            let tl = target_links as int;
            let mnl = min_links as int;
            assert(post.n() == n + 1);
            assert(post.chain@[pv] == b);
            assert forall|j2: int| 0 <= j2 < pv implies #[trigger] post.chain@[j2]
                == chmid[j2] by {
            }
            assert forall|j2: int| pv < j2 < n + 1 implies #[trigger] post.chain@[j2]
                == chmid[j2 - 1] by {
            }
            // what grow did to the head, and to nothing else
            assert(st.contents(b) == smid.contents(b));
            assert(st.valid(b));
            assert forall|oj: int| 1 <= oj < n implies chmid[oj] == pre.chain@[oj] && st.valid(
                #[trigger] pre.chain@[oj],
            ) && st.contents(pre.chain@[oj]) == smid.contents(pre.chain@[oj]) by {
                assert(pre.chain@[0] != pre.chain@[oj]);
            }
            assert(st.valid(chmid[0]));
            assert(chmid[0] == post.head);
            // the head handle is fresh or unchanged; either way distinct
            assert forall|oj: int| 1 <= oj < n implies chmid[0] != #[trigger] chmid[oj] by {
                if grew && post.head != head0 {
                    assert(smid.valid(pre.chain@[oj]));
                } else {
                    assert(pre.chain@[0] != pre.chain@[oj]);
                }
            }
            assert(b != chmid[0]);
            assert forall|oj: int| 0 <= oj < n implies b != #[trigger] chmid[oj] by {
                if oj >= 1 {
                    assert(pre.storage.valid(pre.chain@[oj]));
                }
            }
            // headers, link counts and links of every surviving node
            assert forall|oj: int| 0 <= oj < n implies {
                &&& node_wf(#[trigger] st.contents(chmid[oj]))
                &&& node_header(st.contents(chmid[oj])).key == node_header(pre.blk(oj)).key
                &&& node_header(st.contents(chmid[oj])).value == node_header(pre.blk(oj)).value
                &&& node_links(st.contents(chmid[oj])) == (if grew && oj == 0 {
                    tl
                } else {
                    pre.links_at(oj)
                })
            } by {
                if oj == 0 {
                    if grew {
                        assert(node_header(smid.contents(head0)) == node_header(pre.blk(0)));
                    } else {
                        assert(st.contents(chmid[0]) == smid.contents(pre.chain@[0]));
                    }
                } else {
                    assert(st.contents(chmid[oj]) == smid.contents(pre.chain@[oj]));
                }
            }
            assert forall|oj: int, lv: int|
                #![trigger node_link(st.contents(chmid[oj]), lv)]
                0 <= oj < n && 0 <= lv < (if grew && oj == 0 {
                    tl
                } else {
                    pre.links_at(oj)
                }) implies node_link(st.contents(chmid[oj]), lv) == (if grew && oj == 0 && lv
                >= hl {
                b
            } else if lv < mnl && update@[lv] is Some && uidx@[lv] == oj {
                b
            } else {
                pre.link_at(oj, lv)
            }) by {
                if oj == 0 {
                    if grew {
                        if lv < hl {
                            assert(node_link(st.contents(chmid[0]), lv) == node_link(
                                smid.contents(head0),
                                lv,
                            ));
                            assert(node_link(smid.contents(pre.chain@[0]), lv) == (if lv < mnl
                                && update@[lv] is Some && uidx@[lv] == 0 {
                                b
                            } else {
                                pre.link_at(0, lv)
                            }));
                        }
                    } else {
                        assert(st.contents(chmid[0]) == smid.contents(pre.chain@[0]));
                        assert(node_link(smid.contents(pre.chain@[0]), lv) == (if lv < mnl
                            && update@[lv] is Some && uidx@[lv] == 0 {
                            b
                        } else {
                            pre.link_at(0, lv)
                        }));
                    }
                } else {
                    assert(st.contents(chmid[oj]) == smid.contents(pre.chain@[oj]));
                    assert(node_link(smid.contents(pre.chain@[oj]), lv) == (if lv < mnl
                        && update@[lv] is Some && uidx@[lv] == oj {
                        b
                    } else {
                        pre.link_at(oj, lv)
                    }));
                }
            }
            // keys and values across the splice
            assert forall|j2: int| 0 <= j2 < pv implies #[trigger] post.key_at(j2) == pre.key_at(
                j2,
            ) && post.val_at(j2) == pre.val_at(j2) by {
            }
            assert forall|j2: int| pv <= j2 < n implies post.key_at(j2 + 1) == #[trigger]
                pre.key_at(j2) && post.val_at(j2 + 1) == pre.val_at(j2) by {
            }
            assert(post.key_at(pv) == key);
            assert(post.val_at(pv) == value);
            // well-formedness, conjunct by conjunct
            assert(post.chain@.len() == post.length);
            assert forall|j2: int| 0 <= j2 < n + 1 implies st.valid(
                #[trigger] post.chain@[j2],
            ) && node_wf(#[trigger] post.blk(j2)) by {
            }
            assert forall|i2: int, j2: int|
                #![trigger post.chain@[i2], post.chain@[j2]]
                0 <= i2 < j2 < n + 1 implies post.chain@[i2] != post.chain@[j2] by {
                let a = if i2 < pv {
                    i2
                } else {
                    i2 - 1
                };
                let c = if j2 < pv {
                    j2
                } else {
                    j2 - 1
                };
                if i2 == pv {
                    assert(post.chain@[j2] == chmid[c]);
                } else if j2 == pv {
                    assert(post.chain@[i2] == chmid[a]);
                } else {
                    if a >= 1 && c >= 1 {
                        assert(pre.chain@[a] != pre.chain@[c]);
                    }
                }
            }
            assert forall|i2: int, j2: int|
                #![trigger post.key_at(i2), post.key_at(j2)]
                0 <= i2 < j2 < n + 1 implies strictly_less(post.key_at(i2), post.key_at(j2)) by {
                let a = if i2 < pv {
                    i2
                } else {
                    i2 - 1
                };
                let c = if j2 < pv {
                    j2
                } else {
                    j2 - 1
                };
                if i2 == pv {
                    if c > pv {
                        lemma_strictly_less_trans(key, pre.key_at(pv), pre.key_at(c));
                    }
                } else if j2 == pv {
                    if a < pv - 1 {
                        lemma_strictly_less_trans(pre.key_at(a), pre.key_at(pv - 1), key);
                    }
                } else {
                    assert(strictly_less(pre.key_at(a), pre.key_at(c)));
                }
            }
            assert(post.head == post.chain@[0]);
            assert forall|j2: int| 0 <= j2 < n implies #[trigger] post.links_at(j2) >= 1 by {
                if j2 != pv {
                    let oj = if j2 < pv {
                        j2
                    } else {
                        j2 - 1
                    };
                    assert(oj < n - 1);
                    assert(pre.links_at(oj) >= 1);
                }
            }
            assert(post.links_at(n) == pre.links_at(n - 1));
            assert forall|j2: int| 0 <= j2 < n implies #[trigger] post.link_at(j2, 0)
                == post.chain@[j2 + 1] by {
                if j2 == pv {
                    assert(node_link(st.contents(b), 0) == pre.link_at(pv - 1, 0));
                    assert(pre.link_at(pv - 1, 0) == pre.chain@[pv]);
                    assert(post.chain@[pv + 1] == chmid[pv]);
                } else {
                    let oj = if j2 < pv {
                        j2
                    } else {
                        j2 - 1
                    };
                    if oj == pv - 1 {
                        assert(post.link_at(j2, 0) == b);
                    } else {
                        assert(uidx@[0] != oj);
                        assert(post.link_at(j2, 0) == pre.link_at(oj, 0));
                        assert(pre.link_at(oj, 0) == pre.chain@[oj + 1]);
                        if j2 < pv {
                            assert(post.chain@[j2 + 1] == chmid[oj + 1]);
                        } else {
                            assert(post.chain@[j2 + 1] == chmid[oj + 1]);
                        }
                    }
                }
            }
            assert forall|j2: int, lv: int|
                #![trigger post.link_at(j2, lv)]
                0 <= j2 < n + 1 && 1 <= lv < post.links_at(j2) implies exists|m2: int|
                j2 < m2 < n + 1 && #[trigger] post.chain@[m2] == post.link_at(j2, lv) by {
                if j2 == pv {
                    if lv < mnl && update@[lv] is Some {
                        let mm = choose|m: int|
                            #![trigger pre.chain@[m]]
                            pv <= m < n && pre.chain@[m] == pre.link_at(uidx@[lv], lv);
                        assert(post.link_at(pv, lv) == pre.link_at(uidx@[lv], lv));
                        assert(post.chain@[mm + 1] == chmid[mm]);
                        assert(chmid[mm] == pre.chain@[mm]);
                        assert(post.chain@[mm + 1] == post.link_at(j2, lv));
                    } else {
                        assert(post.link_at(pv, lv) == succ);
                        assert(post.chain@[pv + 1] == chmid[pv]);
                        assert(post.chain@[pv + 1] == post.link_at(j2, lv));
                    }
                } else {
                    let oj = if j2 < pv {
                        j2
                    } else {
                        j2 - 1
                    };
                    if grew && oj == 0 && lv >= hl {
                        assert(post.link_at(j2, lv) == b);
                        assert(post.chain@[pv] == post.link_at(j2, lv));
                    } else if lv < mnl && update@[lv] is Some && uidx@[lv] == oj {
                        assert(post.link_at(j2, lv) == b);
                        assert(post.chain@[pv] == post.link_at(j2, lv));
                    } else {
                        assert(post.link_at(j2, lv) == pre.link_at(oj, lv));
                        assert(1 <= lv < pre.links_at(oj));
                        let mm = choose|m: int|
                            #![trigger pre.chain@[m]]
                            oj < m < n && pre.chain@[m] == pre.link_at(oj, lv);
                        let m2 = if mm < pv {
                            mm
                        } else {
                            mm + 1
                        };
                        assert(post.chain@[m2] == chmid[mm]);
                        assert(chmid[mm] == pre.chain@[mm]);
                        assert(post.chain@[m2] == post.link_at(j2, lv));
                    }
                }
            }
            assert(post.well_formed());
            // the new key was present in no node
            assert(!pre@.contains_key(key)) by {
                if pre@.contains_key(key) {
                    let j = choose|j: int| 0 <= j < n && #[trigger] pre.key_at(j) == key;
                    if j < pv - 1 {
                        lemma_strictly_less_trans(pre.key_at(j), pre.key_at(pv - 1), key);
                        lemma_strictly_less_asym(pre.key_at(pv - 1), key);
                    } else if j == pv - 1 {
                        assert(strictly_less(key, key));
                    } else {
                        if j > pv {
                            lemma_strictly_less_trans(key, pre.key_at(pv), pre.key_at(j));
                        }
                        assert(strictly_less(key, key));
                    }
                    assert(false);
                }
            }
            Self::lemma_view_insert(pre, post, pv, key, value);
        }
    }

    /// Re-keying one node (keeping everything else) removes its old key and
    /// binds the new one.
    proof fn lemma_view_rekey(pre: Self, post: Self, t: int, k2: K, v2: V)
        requires
            pre.well_formed(),
            post.well_formed(),
            0 <= t < pre.n(),
            post.n() == pre.n(),
            forall|j: int|
                0 <= j < pre.n() && j != t ==> #[trigger] post.key_at(j) == pre.key_at(j)
                    && post.val_at(j) == pre.val_at(j),
            post.key_at(t) == k2,
            post.val_at(t) == v2,
            pre.key_at(t) != k2,
        ensures
            post@ == pre@.remove(pre.key_at(t)).insert(k2, v2),
    {
        let k1 = pre.key_at(t);
        assert forall|k: K| #[trigger] post@.contains_key(k) implies pre@.remove(k1).insert(
            k2,
            v2,
        ).contains_key(k) && post@[k] == pre@.remove(k1).insert(k2, v2)[k] by {
            let j = choose|j: int| 0 <= j < post.n() && #[trigger] post.key_at(j) == k;
            post.lemma_key_index(j);
            if j == t {
                assert(k == k2);
            } else {
                assert(pre.key_at(j) == k);
                pre.lemma_key_index(j);
                assert(k != k2) by {
                    if j < t {
                        assert(strictly_less(post.key_at(j), post.key_at(t)));
                    } else {
                        assert(strictly_less(post.key_at(t), post.key_at(j)));
                    }
                }
                assert(k != k1) by {
                    if j < t {
                        assert(strictly_less(pre.key_at(j), pre.key_at(t)));
                    } else {
                        assert(strictly_less(pre.key_at(t), pre.key_at(j)));
                    }
                }
            }
        }
        assert forall|k: K| #[trigger] pre@.remove(k1).insert(k2, v2).contains_key(k) implies
            post@.contains_key(k) by {
            if k == k2 {
                assert(0 <= t < post.n() && post.key_at(t) == k);
            } else {
                let j = choose|j: int| 0 <= j < pre.n() && #[trigger] pre.key_at(j) == k;
                assert(j != t);
                assert(0 <= j < post.n() && post.key_at(j) == k);
            }
        }
        assert(post@ =~= pre@.remove(k1).insert(k2, v2));
    }

    /// Replaces in place the value (and the equal key) of the node at chain
    /// position `idx`, returning the evicted pair.
    fn replace_at(&mut self, h: Handle, idx: Ghost<int>, key: K, value: V) -> (r: (K, V))
        requires
            old(self).well_formed(),
            0 <= idx@ < old(self).n(),
            old(self).chain@[idx@] == h,
            old(self).key_at(idx@) == key,
        ensures
            final(self).well_formed(),
            final(self)@ == old(self)@.insert(key, value),
            final(self).spec_len() == old(self).spec_len(),
            old(self)@.contains_key(key),
            r.0 == key,
            r.1 == old(self)@[key],
    {
        let ghost pre = *old(self);
        proof {
            assert(self.storage.valid(self.chain@[idx@]));
            assert(node_wf(self.blk(idx@)));
        }
        let evicted = Self::replace_kv(&mut self.storage, h, key, value);
        proof {
            let post = *self;
            let t = idx@;
            let n = pre.n();
            assert forall|j: int| 0 <= j < n && j != t implies post.blk(j) == #[trigger] pre.blk(
                j,
            ) && self.storage.valid(pre.chain@[j]) by {
                assert(pre.chain@[j] != pre.chain@[t]);
            }
            assert(node_header(post.blk(t)).key == key);
            assert(node_header(post.blk(t)).value == value);
            assert(node_links(post.blk(t)) == pre.links_at(t));
            assert(node_wf(post.blk(t))) by {
                assert forall|l: int| 0 <= l < node_links(post.blk(t)) implies #[trigger] post.blk(
                    t,
                )[l + 1] matches Some(NodeSlot::Link(_)) by {
                    assert(pre.blk(t)[l + 1] matches Some(NodeSlot::Link(_)));
                }
            }
            assert forall|l: int| 0 <= l < pre.links_at(t) implies #[trigger] node_link(
                post.blk(t),
                l,
            ) == node_link(pre.blk(t), l) by {
                assert(post.blk(t)[l + 1] == pre.blk(t)[l + 1]);
            }
            assert forall|i2: int, j2: int|
                #![trigger post.key_at(i2), post.key_at(j2)]
                0 <= i2 < j2 < n implies strictly_less(post.key_at(i2), post.key_at(j2)) by {
                assert(strictly_less(pre.key_at(i2), pre.key_at(j2)));
            }
            assert forall|j2: int| 0 <= j2 < n - 1 implies #[trigger] post.link_at(j2, 0)
                == post.chain@[j2 + 1] by {
                assert(pre.link_at(j2, 0) == pre.chain@[j2 + 1]);
            }
            assert forall|j2: int, lv: int|
                #![trigger post.link_at(j2, lv)]
                0 <= j2 < n && 1 <= lv < post.links_at(j2) implies exists|m2: int|
                j2 < m2 < n && #[trigger] post.chain@[m2] == post.link_at(j2, lv) by {
                assert(1 <= lv < pre.links_at(j2));
                let mm = choose|m: int|
                    #![trigger pre.chain@[m]]
                    j2 < m < n && pre.chain@[m] == pre.link_at(j2, lv);
                assert(post.chain@[mm] == post.link_at(j2, lv));
            }
            assert forall|j2: int| 0 <= j2 < n - 1 implies #[trigger] post.links_at(j2) >= 1 by {
                assert(pre.links_at(j2) >= 1);
            }
            assert forall|j2: int| 0 <= j2 < n implies self.storage.valid(
                #[trigger] post.chain@[j2],
            ) && node_wf(#[trigger] post.blk(j2)) by {
                if j2 != t {
                    assert(node_wf(pre.blk(j2)));
                }
            }
            assert forall|i2: int, j2: int|
                #![trigger post.chain@[i2], post.chain@[j2]]
                0 <= i2 < j2 < n implies post.chain@[i2] != post.chain@[j2] by {
                assert(pre.chain@[i2] != pre.chain@[j2]);
            }
            assert(post.links_at(n - 1) == pre.links_at(n - 1));
            assert(post.well_formed());
            pre.lemma_key_index(t);
            Self::lemma_view_replace(pre, post, t, key, value);
        }
        evicted
    }

    /// Rebinds the last node of the chain to `key` and `value`, returning the
    /// evicted pair; the structure of the chain is untouched.
    fn rekey_tail(&mut self, h: Handle, key: K, value: V) -> (r: (K, V))
        requires
            old(self).well_formed(),
            old(self).n() > 0,
            old(self).chain@[old(self).n() - 1] == h,
            strictly_less(old(self).key_at(old(self).n() - 1), key),
        ensures
            final(self).well_formed(),
            final(self).spec_len() == old(self).spec_len(),
            final(self).chain == old(self).chain,
            final(self).head == old(self).head,
            r.0 == old(self).key_at(old(self).n() - 1),
            r.1 == old(self).val_at(old(self).n() - 1),
            final(self).key_at(final(self).n() - 1) == key,
            final(self).val_at(final(self).n() - 1) == value,
            forall|j: int|
                0 <= j < old(self).n() - 1 ==> #[trigger] final(self).key_at(j) == old(
                    self,
                ).key_at(j) && final(self).val_at(j) == old(self).val_at(j),
            forall|j: int|
                0 <= j < old(self).n() ==> #[trigger] final(self).links_at(j) == old(
                    self,
                ).links_at(j),
            forall|j: int, lv: int|
                #![trigger final(self).link_at(j, lv)]
                0 <= j < old(self).n() && 0 <= lv < old(self).links_at(j) ==> final(self).link_at(
                    j,
                    lv,
                ) == old(self).link_at(j, lv),
            final(self)@ == old(self)@.remove(r.0).insert(key, value),
            old(self)@.contains_key(r.0),
            old(self)@[r.0] == r.1,
    {
        let ghost pre = *old(self);
        let ghost t = pre.n() - 1;
        proof {
            assert(self.storage.valid(self.chain@[t]));
            assert(node_wf(self.blk(t)));
        }
        let evicted = Self::replace_kv(&mut self.storage, h, key, value);
        proof {
            let post = *self;
            let n = pre.n();
            assert forall|j: int| 0 <= j < n && j != t implies post.blk(j) == #[trigger] pre.blk(
                j,
            ) && self.storage.valid(pre.chain@[j]) by {
                assert(pre.chain@[j] != pre.chain@[t]);
            }
            assert(node_header(post.blk(t)).key == key);
            assert(node_wf(post.blk(t))) by {
                assert forall|l: int| 0 <= l < node_links(post.blk(t)) implies #[trigger] post.blk(
                    t,
                )[l + 1] matches Some(NodeSlot::Link(_)) by {
                    assert(pre.blk(t)[l + 1] matches Some(NodeSlot::Link(_)));
                }
            }
            assert forall|j: int, lv: int|
                #![trigger post.link_at(j, lv)]
                0 <= j < n && 0 <= lv < pre.links_at(j) implies post.link_at(j, lv) == pre.link_at(
                    j,
                    lv,
                ) by {
                if j == t {
                    assert(post.blk(t)[lv + 1] == pre.blk(t)[lv + 1]);
                }
            }
            assert forall|i2: int, j2: int|
                #![trigger post.key_at(i2), post.key_at(j2)]
                0 <= i2 < j2 < n implies strictly_less(post.key_at(i2), post.key_at(j2)) by {
                if j2 == t {
                    if i2 < t {
                        lemma_strictly_less_trans(pre.key_at(i2), pre.key_at(t), key);
                    }
                } else {
                    assert(strictly_less(pre.key_at(i2), pre.key_at(j2)));
                }
            }
            assert forall|j2: int| 0 <= j2 < n - 1 implies #[trigger] post.link_at(j2, 0)
                == post.chain@[j2 + 1] by {
                assert(pre.link_at(j2, 0) == pre.chain@[j2 + 1]);
            }
            assert forall|j2: int, lv: int|
                #![trigger post.link_at(j2, lv)]
                0 <= j2 < n && 1 <= lv < post.links_at(j2) implies exists|m2: int|
                j2 < m2 < n && #[trigger] post.chain@[m2] == post.link_at(j2, lv) by {
                assert(1 <= lv < pre.links_at(j2));
                let mm = choose|m: int|
                    #![trigger pre.chain@[m]]
                    j2 < m < n && pre.chain@[m] == pre.link_at(j2, lv);
                assert(post.chain@[mm] == post.link_at(j2, lv));
            }
            assert forall|j2: int| 0 <= j2 < n implies self.storage.valid(
                #[trigger] post.chain@[j2],
            ) && node_wf(#[trigger] post.blk(j2)) by {
                if j2 != t {
                    assert(node_wf(pre.blk(j2)));
                }
            }
            assert forall|i2: int, j2: int|
                #![trigger post.chain@[i2], post.chain@[j2]]
                0 <= i2 < j2 < n implies post.chain@[i2] != post.chain@[j2] by {
                assert(pre.chain@[i2] != pre.chain@[j2]);
            }
            assert forall|j2: int| 0 <= j2 < n - 1 implies #[trigger] post.links_at(j2)
                >= 1 by {
                assert(pre.links_at(j2) >= 1);
            }
            assert(post.links_at(n - 1) == pre.links_at(n - 1));
            assert(post.well_formed());
            pre.lemma_key_index(t);
            assert(pre.key_at(t) != key);
            Self::lemma_view_rekey(pre, post, t, key, value);
        }
        evicted
    }

    /// The map a list represents, and its well-formedness, depend only on
    /// the storage and the chain; in particular they survive a draw of the
    /// random generator.
    proof fn lemma_view_depends(a: Self, b: Self)
        requires
            a.well_formed(),
            a.storage == b.storage,
            a.chain == b.chain,
            a.length == b.length,
            a.head == b.head,
        ensures
            b.well_formed(),
            a@ == b@,
    {
        assert forall|i: int| 0 <= i < b.n() implies b.storage.valid(#[trigger] b.chain@[i])
            && node_wf(#[trigger] b.blk(i)) by {
            assert(a.storage.valid(a.chain@[i]));
            assert(node_wf(a.blk(i)));
        }
        assert forall|i: int, j: int|
            #![trigger b.chain@[i], b.chain@[j]]
            0 <= i < j < b.n() implies b.chain@[i] != b.chain@[j] by {
            assert(a.chain@[i] != a.chain@[j]);
        }
        assert forall|i: int, j: int|
            #![trigger b.key_at(i), b.key_at(j)]
            0 <= i < j < b.n() implies strictly_less(b.key_at(i), b.key_at(j)) by {
            assert(strictly_less(a.key_at(i), a.key_at(j)));
        }
        assert forall|i: int| 0 <= i < b.n() - 1 implies #[trigger] b.links_at(i) >= 1 by {
            assert(a.links_at(i) >= 1);
        }
        assert forall|i: int| 0 <= i < b.n() - 1 implies #[trigger] b.link_at(i, 0)
            == b.chain@[i + 1] by {
            assert(a.link_at(i, 0) == a.chain@[i + 1]);
        }
        assert forall|i: int, l: int|
            #![trigger b.link_at(i, l)]
            0 <= i < b.n() && 1 <= l < b.links_at(i) implies exists|j: int|
            i < j < b.n() && #[trigger] b.chain@[j] == b.link_at(i, l) by {
            let m = choose|m: int|
                #![trigger a.chain@[m]]
                i < m < a.n() && a.chain@[m] == a.link_at(i, l);
            assert(b.chain@[m] == b.link_at(i, l));
        }
        if b.n() > 0 {
            assert(b.links_at(b.n() - 1) == a.links_at(a.n() - 1));
        }
        assert(b.well_formed());
        assert forall|k: K| #[trigger] a@.contains_key(k) implies b@.contains_key(k) && a@[k]
            == b@[k] by {
            let i = choose|i: int| 0 <= i < a.n() && #[trigger] a.key_at(i) == k;
            assert(0 <= i < b.n() && b.key_at(i) == k);
            a.lemma_key_index(i);
            b.lemma_key_index(i);
        }
        assert forall|k: K| #[trigger] b@.contains_key(k) implies a@.contains_key(k) by {
            let i = choose|i: int| 0 <= i < b.n() && #[trigger] b.key_at(i) == k;
            assert(0 <= i < a.n() && a.key_at(i) == k);
        }
        assert(a@ =~= b@);
    }

    /// Inserts `key` and `value` into the list.
    ///
    /// If a key comparing equal is already present, its pair is replaced in
    /// place and the evicted pair is returned; otherwise a node is spliced in
    /// and `None` is returned.
    #[verifier::loop_isolation(false)]
    pub fn insert(&mut self, key: K, value: V) -> (r: Option<(K, V)>)
        requires
            old(self).well_formed(),
            old(self).spec_len() < usize::MAX,
        ensures
            final(self).well_formed(),
            final(self)@ == old(self)@.insert(key, value),
            r is Some <==> old(self)@.contains_key(key),
            r matches Some(pair) ==> pair.0 == key && pair.1 == old(self)@[key],
            final(self).spec_len() == old(self).spec_len() + (if old(self)@.contains_key(key) {
                0int
            } else {
                1int
            }),
    {
        if self.length == 0 {
            let b = Self::new_node(&mut self.storage, key, value, 0, self.head);
            self.head = b;
            self.length = 1;
            self.chain = Ghost(Seq::empty().push(b));
            // seed the generator from the first node's resolved address
            let seed = self.storage.resolve(b);
            self.prng = oorandom::Rand32::new(seed as u64);
            proof {
                assert(self.well_formed());
                self.lemma_key_index(0);
                assert forall|k: K| #[trigger] self@.contains_key(k) implies k == key by {
                    let i = choose|i: int| 0 <= i < self.n() && #[trigger] self.key_at(i) == k;
                }
                assert(self@ =~= old(self)@.insert(key, value));
            }
            return None;
        }
        let ghost pre = *old(self);
        let target_links = Self::determine_number_links(&mut self.prng);
        proof {
            Self::lemma_view_depends(pre, *self);
        }
        let ghost s1 = *self;
        proof {
            assert(self.storage.valid(self.chain@[0]));
            assert(node_wf(self.blk(0)));
        }
        let hd = Self::read_header(&self.storage, self.head);
        let head_links = hd.links as usize;
        match key.compare(&hd.key) {
            KeyOrdering::Less => {
                proof {
                    s1.lemma_below_all(key);
                }
                self.insert_new_head(key, value, target_links);
                return None;
            },
            KeyOrdering::Equal => {
                let h = self.head;
                let evicted = self.replace_at(h, Ghost(0int), key, value);
                proof {
                    s1.lemma_key_index(0);
                }
                return Some(evicted);
            },
            KeyOrdering::Greater => {},
        }
        // descend, recording for each level the node whose link is to be
        // redirected at the new node
        let mut update: Vec<Option<Handle>> = Vec::new();
        let mut i0: usize = 0;
        while i0 < head_links
            invariant
                update@.len() == i0,
                i0 <= head_links,
                forall|l2: int| 0 <= l2 < i0 ==> (#[trigger] update@[l2]) is None,
            decreases head_links - i0,
        {
            update.push(None);
            i0 += 1;
        }
        let ghost mut uidx: Seq<int> = Seq::new(head_links as nat, |x: int| 0int);
        let mut cur = self.head;
        let ghost mut ci: int = 0;
        let mut level = head_links;
        while level > 0
            invariant
                *self == s1,
                0 <= ci < self.n(),
                self.chain@[ci] == cur,
                strictly_less(self.key_at(ci), key),
                head_links == 0 || self.links_at(ci) >= 1,
                head_links == 0 ==> ci == 0,
                level <= head_links,
                update@.len() == head_links,
                uidx.len() == head_links,
                forall|l2: int|
                    0 <= l2 < head_links && (#[trigger] update@[l2]) is Some ==> {
                        &&& 0 <= uidx[l2] <= ci
                        &&& self.chain@[uidx[l2]] == update@[l2]->Some_0
                        &&& self.links_at(uidx[l2]) > l2
                        &&& exists|m: int|
                            #![trigger self.chain@[m]]
                            uidx[l2] < m < self.n() && self.chain@[m] == self.link_at(
                                uidx[l2],
                                l2,
                            ) && (self.links_at(m) == 0 || !strictly_less(self.key_at(m), key))
                    },
                level == 0 && head_links > 0 ==> update@[0] is Some && uidx[0] == ci
                    && self.links_at(ci) >= 1 && (self.links_at(ci + 1) == 0 || strictly_less(
                    key,
                    self.key_at(ci + 1),
                )),
            decreases level,
        {
            level -= 1;
            let w = self.walk_level(cur, Ghost(ci), level, &key);
            cur = w.0;
            proof {
                ci = w.1@;
            }
            let chd = Self::read_header(&self.storage, cur);
            if (chd.links as usize) > level {
                let ghost m: int = if level == 0 {
                    ci + 1
                } else {
                    choose|m: int|
                        #![trigger self.chain@[m]]
                        ci < m < self.n() && self.chain@[m] == self.link_at(ci, level as int) && (
                        self.links_at(m) == 0 || !strictly_less(self.key_at(m), key))
                };
                proof {
                    if level == 0 {
                        let m0 = choose|m0: int|
                            #![trigger self.chain@[m0]]
                            ci < m0 < self.n() && self.chain@[m0] == self.link_at(
                                ci,
                                level as int,
                            ) && (self.links_at(m0) == 0 || !strictly_less(self.key_at(m0), key));
                        assert(self.link_at(ci, 0) == self.chain@[ci + 1]);
                        assert(self.chain@[m0] == self.chain@[ci + 1]);
                        if m0 != ci + 1 {
                            assert(self.chain@[ci + 1] != self.chain@[m0]);
                        }
                        assert(m0 == m);
                    }
                    assert(ci < m < self.n() && self.chain@[m] == self.link_at(ci, level as int));
                    assert(self.links_at(m) == 0 || !strictly_less(self.key_at(m), key));
                    assert(self.storage.valid(self.chain@[m]));
                    assert(node_wf(self.blk(m)));
                }
                let next = Self::read_link(&self.storage, cur, level);
                let nhd = Self::read_header(&self.storage, next);
                if nhd.links == 0 {
                    update[level] = Some(cur);
                    proof {
                        uidx = uidx.update(level as int, ci);
                    }
                } else {
                    match key.compare(&nhd.key) {
                        KeyOrdering::Equal => {
                            let evicted = self.replace_at(next, Ghost(m), key, value);
                            proof {
                                s1.lemma_key_index(m);
                            }
                            return Some(evicted);
                        },
                        KeyOrdering::Less => {
                            update[level] = Some(cur);
                            proof {
                                uidx = uidx.update(level as int, ci);
                            }
                        },
                        KeyOrdering::Greater => {
                            proof {
                                assert(strictly_less(self.key_at(m), key));
                                assert(false);
                            }
                        },
                    }
                }
            }
        }
        let chd = Self::read_header(&self.storage, cur);
        if chd.links == 0 {
            // the only node is the head: rebind it and put the evicted pair
            // in a fresh node in front of it
            proof {
                assert(self.links_at(ci) == 0);
                assert(ci == self.n() - 1);
                assert(ci == 0);
            }
            let h = cur;
            let evicted = self.rekey_tail(h, key, value);
            let ghost s2 = *self;
            let (k0, v0) = evicted;
            proof {
                assert(s2.key_at(0) == key);
                assert(strictly_less(k0, s2.key_at(0)));
            }
            self.insert_new_head(k0, v0, target_links);
            proof {
                s1.lemma_key_index(0);
                assert(!s1@.contains_key(key)) by {
                    if s1@.contains_key(key) {
                        let j = choose|j: int|
                            0 <= j < s1.n() && #[trigger] s1.key_at(j) == key;
                        assert(strictly_less(key, key));
                    }
                }
                assert(self@ =~= s1@.insert(key, value));
            }
            return None;
        }
        proof {
            assert(head_links > 0) by {
                if head_links == 0 {
                    assert(ci == 0);
                }
            }
            assert(self.link_at(ci, 0) == self.chain@[ci + 1]);
            assert(self.storage.valid(self.chain@[ci + 1]));
            assert(node_wf(self.blk(ci + 1)));
        }
        let next = Self::read_link(&self.storage, cur, 0);
        let nhd = Self::read_header(&self.storage, next);
        if nhd.links == 0 {
            proof {
                assert(self.links_at(ci + 1) == 0);
                assert(ci + 1 == self.n() - 1);
            }
            match key.compare(&nhd.key) {
                KeyOrdering::Equal => {
                    let evicted = self.replace_at(next, Ghost(ci + 1), key, value);
                    proof {
                        s1.lemma_key_index(ci + 1);
                    }
                    return Some(evicted);
                },
                KeyOrdering::Greater => {
                    // the new key goes beyond every node: rebind the tail and
                    // splice a node carrying the evicted pair in front of it
                    let ghost n1 = s1.n();
                    proof {
                        assert forall|j: int| 0 <= j < n1 implies strictly_less(
                            #[trigger] s1.key_at(j),
                            key,
                        ) by {
                            if j < n1 - 1 {
                                lemma_strictly_less_trans(
                                    s1.key_at(j),
                                    s1.key_at(n1 - 1),
                                    key,
                                );
                            }
                        }
                    }
                    let evicted = self.rekey_tail(next, key, value);
                    let ghost s2 = *self;
                    let (k0, v0) = evicted;
                    proof {
                        assert(k0 == s1.key_at(n1 - 1));
                        assert(strictly_less(s2.key_at(n1 - 2), k0)) by {
                            assert(s2.key_at(n1 - 2) == s1.key_at(n1 - 2));
                            assert(strictly_less(s1.key_at(n1 - 2), s1.key_at(n1 - 1)));
                        }
                        assert(strictly_less(k0, s2.key_at(n1 - 1)));
                        assert forall|l2: int|
                            0 <= l2 < update@.len() && (#[trigger] update@[l2]) is Some implies {
                            &&& 0 <= uidx[l2] < n1 - 1
                            &&& s2.chain@[uidx[l2]] == update@[l2]->Some_0
                            &&& s2.links_at(uidx[l2]) > l2
                            &&& exists|m: int|
                                #![trigger s2.chain@[m]]
                                n1 - 1 <= m < n1 && s2.chain@[m] == s2.link_at(uidx[l2], l2)
                        } by {
                            let mm = choose|m: int|
                                #![trigger s1.chain@[m]]
                                uidx[l2] < m < n1 && s1.chain@[m] == s1.link_at(uidx[l2], l2) && (
                                s1.links_at(m) == 0 || !strictly_less(s1.key_at(m), key));
                            assert(mm == n1 - 1) by {
                                if s1.links_at(mm) != 0 {
                                    assert(strictly_less(s1.key_at(mm), key));
                                }
                            }
                            assert(s2.link_at(uidx[l2], l2) == s1.link_at(uidx[l2], l2));
                            assert(s2.links_at(uidx[l2]) == s1.links_at(uidx[l2]));
                            assert(s2.chain@[n1 - 1] == s1.chain@[n1 - 1]);
                        }
                        assert(uidx[0] == n1 - 2);
                    }
                    self.splice_at(
                        k0,
                        v0,
                        target_links,
                        &update,
                        Ghost(uidx),
                        Ghost(n1 - 1),
                        next,
                    );
                    proof {
                        s1.lemma_key_index(n1 - 1);
                        assert(!s1@.contains_key(key)) by {
                            if s1@.contains_key(key) {
                                let j = choose|j: int|
                                    0 <= j < n1 && #[trigger] s1.key_at(j) == key;
                                assert(strictly_less(key, key));
                            }
                        }
                        assert(self@ =~= s1@.insert(key, value));
                    }
                    return None;
                },
                KeyOrdering::Less => {
                    proof {
                        assert(strictly_less(key, self.key_at(ci + 1)));
                        lemma_strictly_less_asym(key, self.key_at(ci + 1));
                        self.lemma_absent(key, ci);
                        assert forall|l2: int|
                            0 <= l2 < update@.len() && (#[trigger] update@[l2]) is Some implies
                            exists|m: int|
                            #![trigger self.chain@[m]]
                            ci + 1 <= m < self.n() && self.chain@[m] == self.link_at(
                                uidx[l2],
                                l2,
                            ) by {
                            let mm = choose|m: int|
                                #![trigger self.chain@[m]]
                                uidx[l2] < m < self.n() && self.chain@[m] == self.link_at(
                                    uidx[l2],
                                    l2,
                                ) && (self.links_at(m) == 0 || !strictly_less(
                                    self.key_at(m),
                                    key,
                                ));
                            assert(ci + 1 <= mm) by {
                                if mm <= ci {
                                    if mm < ci {
                                        lemma_strictly_less_trans(
                                            self.key_at(mm),
                                            self.key_at(ci),
                                            key,
                                        );
                                    }
                                    assert(strictly_less(self.key_at(mm), key));
                                    if self.links_at(mm) == 0 {
                                        assert(mm == self.n() - 1);
                                        assert(mm < self.n() - 1);
                                    }
                                }
                            }
                        }
                    }
                    self.splice_at(
                        key,
                        value,
                        target_links,
                        &update,
                        Ghost(uidx),
                        Ghost(ci + 1),
                        next,
                    );
                    return None;
                },
            }
        } else {
            proof {
                assert(strictly_less(key, self.key_at(ci + 1)));
                lemma_strictly_less_asym(key, self.key_at(ci + 1));
                self.lemma_absent(key, ci);
                assert forall|l2: int|
                    0 <= l2 < update@.len() && (#[trigger] update@[l2]) is Some implies exists|
                    m: int,
                |
                    #![trigger self.chain@[m]]
                    ci + 1 <= m < self.n() && self.chain@[m] == self.link_at(uidx[l2], l2) by {
                    let mm = choose|m: int|
                        #![trigger self.chain@[m]]
                        uidx[l2] < m < self.n() && self.chain@[m] == self.link_at(
                            uidx[l2],
                            l2,
                        ) && (self.links_at(m) == 0 || !strictly_less(self.key_at(m), key));
                    assert(ci + 1 <= mm) by {
                        if mm <= ci {
                            if mm < ci {
                                lemma_strictly_less_trans(
                                    self.key_at(mm),
                                    self.key_at(ci),
                                    key,
                                );
                            }
                            assert(strictly_less(self.key_at(mm), key));
                            if self.links_at(mm) == 0 {
                                assert(mm == self.n() - 1);
                                assert(mm < self.n() - 1);
                            }
                        }
                    }
                }
            }
            self.splice_at(key, value, target_links, &update, Ghost(uidx), Ghost(ci + 1), next);
            return None;
        }
    }

    /// The handle of the node at chain position `i`.
    pub closed spec fn handle_at(&self, i: int) -> Handle {
        self.chain@[i]
    }

    /// The ordering invariant of the list: at every level, following a link
    /// from any node lands on a node with a strictly greater key; the
    /// implicit end of every level is the zero-link last node.
    pub proof fn lemma_link_ordering(&self, i: int, l: int)
        requires
            self.well_formed(),
            0 <= i < self.n(),
            0 <= l < self.links_at(i),
        ensures
            exists|j: int|
                #![trigger self.handle_at(j)]
                i < j < self.n() && self.handle_at(j) == self.link_at(i, l) && strictly_less(
                    self.key_at(i),
                    self.key_at(j),
                ),
    {
        if l == 0 {
            assert(self.link_at(i, 0) == self.chain@[i + 1]);
            assert(self.handle_at(i + 1) == self.link_at(i, 0));
            assert(strictly_less(self.key_at(i), self.key_at(i + 1)));
        } else {
            let j = choose|j: int|
                #![trigger self.chain@[j]]
                i < j < self.n() && self.chain@[j] == self.link_at(i, l);
            assert(self.handle_at(j) == self.link_at(i, l));
            assert(strictly_less(self.key_at(i), self.key_at(j)));
        }
    }

    /// After any sequence of inserts, the value looked up for a key is the
    /// one from the last insert with that key, and no other binding moves:
    /// the map model that `insert` establishes and `get` reads off says so.
    pub proof fn lemma_insert_get(m: Map<K, V>, key: K, value: V)
        ensures
            m.insert(key, value).contains_key(key),
            m.insert(key, value)[key] == value,
            forall|k: K|
                k != key ==> #[trigger] m.insert(key, value).contains_key(k) == m.contains_key(k),
            forall|k: K|
                k != key && m.contains_key(k) ==> #[trigger] m.insert(key, value)[k] == m[k],
    {
    }

    /// Borrows the value of the node at chain position `m` mutably; the
    /// chain keeps its shape, and what the caller writes through the
    /// reference is the value then bound to that node's key.
    fn value_mut_at(&mut self, h: Handle, m: Ghost<int>, key: &K) -> (r: &mut V)
        requires
            old(self).well_formed(),
            0 <= m@ < old(self).n(),
            old(self).chain@[m@] == h,
            old(self).key_at(m@) == *key,
        ensures
            *r == old(self).val_at(m@),
            final(self).well_formed(),
            final(self).n() == old(self).n(),
            final(self).spec_len() == old(self).spec_len(),
            forall|i: int|
                0 <= i < old(self).n() ==> final(self).key_at(i) == old(self).key_at(i),
            forall|i: int|
                0 <= i < old(self).n() && i != m@ ==> final(self).val_at(i) == old(self).val_at(
                    i,
                ),
            final(self).val_at(m@) == *final(r),
    {
        let ghost mv = m@;
        proof {
            assert(self.storage.valid(self.chain@[mv]));
            assert(node_wf(self.blk(mv)));
            assert forall|i: int|
                0 <= i < self.n() && i != mv implies #[trigger] self.chain@[i] != self.chain@[mv]
                && self.storage.valid(self.chain@[i]) by {
            }
            assert forall|i: int|
                #![trigger self.storage.contents(self.chain@[i])]
                0 <= i < self.n() implies node_wf(self.storage.contents(self.chain@[i])) && (i
                < self.n() - 1 ==> node_links(self.storage.contents(self.chain@[i])) >= 1) && (i
                == self.n() - 1 ==> node_links(self.storage.contents(self.chain@[i])) == 0) by {
                assert(node_wf(self.blk(i)));
                if i < self.n() - 1 {
                    assert(self.links_at(i) >= 1);
                } else {
                    assert(self.links_at(self.n() - 1) == 0);
                }
            }
            assert forall|i: int, j: int|
                #![trigger node_header(self.storage.contents(self.chain@[i])), node_header(self.storage.contents(self.chain@[j]))]
                0 <= i < j < self.n() implies strictly_less(
                node_header(self.storage.contents(self.chain@[i])).key,
                node_header(self.storage.contents(self.chain@[j])).key,
            ) by {
                assert(strictly_less(self.key_at(i), self.key_at(j)));
            }
            assert forall|i: int|
                #![trigger node_link(self.storage.contents(self.chain@[i]), 0)]
                0 <= i < self.n() - 1 implies node_link(
                self.storage.contents(self.chain@[i]),
                0,
            ) == self.chain@[i + 1] by {
                assert(self.link_at(i, 0) == self.chain@[i + 1]);
            }
            assert forall|i: int, l: int|
                #![trigger node_link(self.storage.contents(self.chain@[i]), l)]
                0 <= i < self.n() && 1 <= l < node_links(self.storage.contents(self.chain@[i]))
                implies exists|j: int|
                #![trigger self.chain@[j]]
                i < j < self.n() && self.chain@[j] == node_link(
                    self.storage.contents(self.chain@[i]),
                    l,
                ) by {
                assert(1 <= l < self.links_at(i));
                let j0 = choose|j: int|
                    #![trigger self.chain@[j]]
                    i < j < self.n() && self.chain@[j] == self.link_at(i, l);
                assert(i < j0 < self.n() && self.chain@[j0] == node_link(
                    self.storage.contents(self.chain@[i]),
                    l,
                ));
            }
            let c0 = self.storage.contents(self.chain@[mv]);
            assert forall|v: V|
                #![trigger c0.update(0, Some(NodeSlot::Header(NodeHeader { key: node_header(c0).key, value: v, links: node_header(c0).links })))]
                {
                    let c = c0.update(
                        0,
                        Some(
                            NodeSlot::Header(
                                NodeHeader {
                                    key: node_header(c0).key,
                                    value: v,
                                    links: node_header(c0).links,
                                },
                            ),
                        ),
                    );
                    &&& node_wf(c)
                    &&& node_header(c).key == node_header(c0).key
                    &&& node_header(c).value == v
                    &&& node_links(c) == node_links(c0)
                    &&& forall|l: int|
                        0 <= l < node_links(c0) ==> #[trigger] node_link(c, l) == node_link(
                            c0,
                            l,
                        )
                } by {
                let c = c0.update(
                    0,
                    Some(
                        NodeSlot::Header(
                            NodeHeader {
                                key: node_header(c0).key,
                                value: v,
                                links: node_header(c0).links,
                            },
                        ),
                    ),
                );
                assert forall|l: int|
                    0 <= l < node_links(c0) implies #[trigger] c[l + 1] matches Some(
                    NodeSlot::Link(_),
                ) && node_link(c, l) == node_link(c0, l) by {
                    assert(c0[l + 1] matches Some(NodeSlot::Link(_)));
                    assert(c[l + 1] == c0[l + 1]);
                }
            }
        }
        let slot = self.storage.read_mut(h, 0);
        match slot {
            NodeSlot::Header(hd) => &mut hd.value,
            NodeSlot::Link(_) => unreached(),
        }
    }

    /// Re-binding the value of the node holding `key` turns the map into the
    /// old map with `key` re-bound: the pointwise contract of `get_mut`, in
    /// map form for its callers.
    pub proof fn lemma_rebound_view(pre: Self, post: Self, key: K, value: V)
        requires
            pre.well_formed(),
            post.well_formed(),
            pre@.contains_key(key),
            post.n() == pre.n(),
            forall|i: int| 0 <= i < pre.n() ==> post.key_at(i) == pre.key_at(i),
            forall|i: int|
                0 <= i < pre.n() && pre.key_at(i) != key ==> post.val_at(i) == pre.val_at(i),
            forall|i: int|
                0 <= i < pre.n() && pre.key_at(i) == key ==> post.val_at(i) == value,
        ensures
            post@ == pre@.insert(key, value),
    {
        assert forall|k: K| #[trigger] post@.contains_key(k) implies pre@.insert(
            key,
            value,
        ).contains_key(k) && post@[k] == pre@.insert(key, value)[k] by {
            let j = choose|j: int| 0 <= j < post.n() && #[trigger] post.key_at(j) == k;
            post.lemma_key_index(j);
            assert(pre.key_at(j) == k);
            pre.lemma_key_index(j);
            if k != key {
                assert(post.val_at(j) == pre.val_at(j));
            }
        }
        assert forall|k: K| #[trigger] pre@.insert(key, value).contains_key(k) implies
            post@.contains_key(k) by {
            if k == key {
                let j = choose|j: int| 0 <= j < pre.n() && #[trigger] pre.key_at(j) == key;
                assert(0 <= j < post.n() && post.key_at(j) == k);
            } else {
                let j = choose|j: int| 0 <= j < pre.n() && #[trigger] pre.key_at(j) == k;
                assert(0 <= j < post.n() && post.key_at(j) == k);
            }
        }
        assert(post@ =~= pre@.insert(key, value));
    }

    /// Borrows the value associated with `key` mutably, if it is present;
    /// what the caller writes through the reference is the value then bound
    /// to that key, every other binding staying as it was.
    pub fn get_mut(&mut self, key: &K) -> (r: Option<&mut V>)
        requires
            old(self).well_formed(),
        ensures
            !old(self)@.contains_key(*key) ==> r is None && *final(self) == *old(self),
            old(self)@.contains_key(*key) ==> (r matches Some(v) && *v == old(self)@[*key]
                && final(self).well_formed()
                && final(self).n() == old(self).n()
                && final(self).spec_len() == old(self).spec_len()
                && (forall|i: int|
                    0 <= i < old(self).n() ==> final(self).key_at(i) == old(self).key_at(i))
                && (forall|i: int|
                    0 <= i < old(self).n() && old(self).key_at(i) != *key ==> final(self).val_at(
                        i,
                    ) == old(self).val_at(i))
                && (forall|i: int|
                    0 <= i < old(self).n() && old(self).key_at(i) == *key ==> final(self).val_at(
                        i,
                    ) == *final(v))),
    {
        if self.length == 0 {
            return None;
        }
        proof {
            assert(self.storage.valid(self.chain@[0]));
            assert(node_wf(self.blk(0)));
        }
        let hd = Self::read_header(&self.storage, self.head);
        let head_links = hd.links as usize;
        match key.compare(&hd.key) {
            KeyOrdering::Less => {
                proof {
                    if self@.contains_key(*key) {
                        let j = choose|j: int|
                            0 <= j < self.n() && #[trigger] self.key_at(j) == *key;
                        if j > 0 {
                            lemma_strictly_less_trans(*key, self.key_at(0), self.key_at(j));
                        }
                        assert(false);
                    }
                }
                None
            },
            KeyOrdering::Equal => {
                let h = self.head;
                proof {
                    self.lemma_key_index(0);
                    assert forall|i: int|
                        0 <= i < self.n() && i != 0 implies #[trigger] self.key_at(i)
                        != *key by {
                        assert(strictly_less(self.key_at(0), self.key_at(i)));
                    }
                }
                Some(self.value_mut_at(h, Ghost(0int), key))
            },
            KeyOrdering::Greater => {
                let mut cur = self.head;
                let ghost mut ci: int = 0;
                let mut level = head_links;
                while level > 0
                    invariant
                        self.well_formed(),
                        *self == *old(self),
                        0 <= ci < self.n(),
                        self.chain@[ci] == cur,
                        strictly_less(self.key_at(ci), *key),
                        level <= MAX_NUMBER_LINKS,
                        level == 0 && self.links_at(ci) >= 1 ==> self.links_at(ci + 1) == 0
                            || !strictly_less(self.key_at(ci + 1), *key),
                    decreases level,
                {
                    level -= 1;
                    let w = self.walk_level(cur, Ghost(ci), level, key);
                    cur = w.0;
                    proof {
                        ci = w.1@;
                        if level == 0 && self.links_at(ci) >= 1 {
                            let m = choose|m: int|
                                #![trigger self.chain@[m]]
                                ci < m < self.n() && self.chain@[m] == self.link_at(
                                    ci,
                                    level as int,
                                ) && (self.links_at(m) == 0 || !strictly_less(
                                    self.key_at(m),
                                    *key,
                                ));
                            assert(self.link_at(ci, 0) == self.chain@[ci + 1]);
                            assert(self.chain@[m] == self.chain@[ci + 1]);
                            if m != ci + 1 {
                                assert(self.chain@[ci + 1] != self.chain@[m]);
                            }
                            assert(m == ci + 1);
                        }
                    }
                }
                let hd2 = Self::read_header(&self.storage, cur);
                if hd2.links == 0 {
                    proof {
                        self.lemma_absent(*key, ci);
                    }
                    None
                } else {
                    proof {
                        assert(self.link_at(ci, 0) == self.chain@[ci + 1]);
                    }
                    let next = Self::read_link(&self.storage, cur, 0);
                    let nh = Self::read_header(&self.storage, next);
                    match key.compare(&nh.key) {
                        KeyOrdering::Equal => {
                            proof {
                                self.lemma_key_index(ci + 1);
                                assert forall|i: int|
                                    0 <= i < self.n() && i != ci + 1 implies #[trigger]
                                    self.key_at(i) != *key by {
                                    if i < ci + 1 {
                                        assert(strictly_less(self.key_at(i), self.key_at(ci + 1)));
                                        lemma_strictly_less_asym(self.key_at(i), *key);
                                    } else {
                                        assert(strictly_less(self.key_at(ci + 1), self.key_at(i)));
                                        lemma_strictly_less_asym(*key, self.key_at(i));
                                    }
                                }
                            }
                            Some(self.value_mut_at(next, Ghost(ci + 1), key))
                        },
                        KeyOrdering::Less => {
                            proof {
                                lemma_strictly_less_asym(*key, self.key_at(ci + 1));
                                self.lemma_absent(*key, ci);
                            }
                            None
                        },
                        KeyOrdering::Greater => {
                            proof {
                                assert(self.links_at(ci + 1) == 0) by {
                                    lemma_strictly_less_asym(self.key_at(ci + 1), *key);
                                }
                                assert(ci + 1 == self.n() - 1);
                                if self@.contains_key(*key) {
                                    let j = choose|j: int|
                                        0 <= j < self.n() && #[trigger] self.key_at(j) == *key;
                                    if j < ci + 1 {
                                        assert(strictly_less(self.key_at(j), self.key_at(ci + 1)));
                                        lemma_strictly_less_asym(self.key_at(ci + 1), *key);
                                    }
                                    assert(false);
                                }
                            }
                            None
                        },
                    }
                }
            },
        }
    }

    /// Returns the number of links a new node should receive: the length of
    /// the run of low one bits of a drawn value, forced to at least one.
    fn determine_number_links(prng: &mut oorandom::Rand32) -> (r: usize)
        ensures
            1 <= r <= MAX_NUMBER_LINKS,
    {
        let x = prng.rand_u32() | 1;
        let mut count: usize = 1;
        let mut y = x >> 1u32;
        while count < MAX_NUMBER_LINKS && (y & 1) == 1
            invariant
                1 <= count <= MAX_NUMBER_LINKS,
            decreases MAX_NUMBER_LINKS - count,
        {
            count += 1;
            y = y >> 1u32;
        }
        count
    }
}

} // verus!
verus! {

impl<K: TotalOrder, V, S: Store<NodeSlot<K, V>> + StoreDefault<NodeSlot<K, V>>> Default for SkipList<
    K,
    V,
    S,
> {
    /// An empty list over a default storage.
    fn default() -> (r: Self)
        ensures
            r.well_formed(),
            r@ == Map::<K, V>::empty(),
            r.spec_len() == 0,
    {
        SkipList::new()
    }
}

} // verus!
