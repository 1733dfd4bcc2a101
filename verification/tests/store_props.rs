use store_api::interface::{Layout, Store, StoreDangling, StoreSharing, StoreSingle};
use store_api::store::{AllocatorStore, InlineBumpStore, InlineSingleStore, NonAllocator};
use store_api::storage::InlineSingleStorage;
use store_api::collection::StoreVec;

#[test]
fn dangling_resolves_aligned() {
    let store = AllocatorStore::<u8>::new();

    for align in [1usize, 2, 4, 8, 16, 64, 4096] {
        let handle = store.dangling(align).unwrap();
        let address = store.resolve(handle);
        assert_eq!(0, address % align);
    }
}

#[test]
fn dangling_resolves_aligned_inline() {
    let store = InlineSingleStore::<u8, 4>::new();

    for align in [1usize, 2, 4, 8, 1024] {
        let handle = StoreDangling::<u8>::dangling(&store, align).unwrap();
        let address = StoreSingle::<u8>::resolve_single(&store, handle);
        assert_eq!(0, address % align);
    }
}

#[test]
fn grow_preserves_prefix() {
    let mut store = AllocatorStore::<u8>::new();

    let (handle, n) = store.allocate(Layout::new(3, 1)).unwrap();
    assert!(n >= 3);
    store.write(handle, 0, 7);
    store.write(handle, 1, 8);
    store.write(handle, 2, 9);

    let (grown, m) = store.grow(handle, Layout::new(3, 1), Layout::new(6, 1)).unwrap();
    assert!(m >= 6);
    assert_eq!(7, *store.read(grown, 0));
    assert_eq!(8, *store.read(grown, 1));
    assert_eq!(9, *store.read(grown, 2));
}

#[test]
fn shrink_preserves_prefix() {
    let mut store = AllocatorStore::<u8>::new();

    let (handle, _) = store.allocate(Layout::new(4, 1)).unwrap();
    store.write(handle, 0, 1);
    store.write(handle, 1, 2);
    store.write(handle, 2, 3);
    store.write(handle, 3, 4);

    let (shrunk, m) = store.shrink(handle, Layout::new(4, 1), Layout::new(2, 1)).unwrap();
    assert!(m >= 2);
    assert_eq!(1, *store.read(shrunk, 0));
    assert_eq!(2, *store.read(shrunk, 1));
}

#[test]
fn exhausted_store_refuses() {
    let mut store = NonAllocator;
    assert!(Store::<u32>::allocate(&mut store, Layout::new(1, 1)).is_err());
    assert!(StoreSingle::<u32>::allocate_single(&mut store, Layout::new(1, 1)).is_err());
}

#[test]
fn inline_storage_one_block_at_a_time() {
    let mut storage = InlineSingleStorage::<u8, 2>::new();

    let (first, n) = storage.allocate(Layout::new(2, 1)).unwrap();
    assert!(n >= 2);
    // while the block is live, further allocation fails
    assert!(storage.allocate(Layout::new(1, 1)).is_err());
    // an oversized request fails as well, once room is back
    storage.deallocate(first, Layout::new(2, 1));
    assert!(storage.allocate(Layout::new(3, 1)).is_err());
    assert!(storage.allocate(Layout::new(1, 1)).is_ok());
}

#[test]
fn inline_store_grow_in_place() {
    let mut store = InlineSingleStore::<u8, 8>::new();

    let (handle, n) = store.allocate_single(Layout::new(2, 1)).unwrap();
    assert_eq!(8, n);
    store.write_single(handle, 0, 5);
    store.write_single(handle, 1, 6);

    let (grown, m) = store.grow_single(handle, Layout::new(2, 1), Layout::new(4, 1)).unwrap();
    assert_eq!(8, m);
    assert_eq!(5, *store.read_single(grown, 0));
    assert_eq!(6, *store.read_single(grown, 1));

    // a request beyond the inline buffer fails and leaves the block usable
    assert!(store.grow_single(grown, Layout::new(4, 1), Layout::new(9, 1)).is_err());
    assert_eq!(5, *store.read_single(grown, 0));
}

#[test]
fn sharing_parts() {
    let store = AllocatorStore::<u8>::new();
    let part = store.share().unwrap();
    assert!(store.is_sharing_with(&part));
}

#[test]
fn store_vec_push_pop_get() {
    let mut vec: StoreVec<u32, AllocatorStore<u32>> = StoreVec::new();

    assert!(vec.is_empty());
    assert_eq!(0, vec.len());

    vec.push(10);
    vec.push(20);
    vec.push(30);

    assert_eq!(3, vec.len());
    assert!(vec.capacity() >= 3);
    assert_eq!(Some(&10), vec.get(0));
    assert_eq!(Some(&20), vec.get(1));
    assert_eq!(Some(&30), vec.get(2));
    assert_eq!(None, vec.get(3));

    assert_eq!(Some(30), vec.pop());
    assert_eq!(2, vec.len());
    assert_eq!(None, vec.get(2));
}

#[test]
fn store_vec_reserve() {
    let mut vec: StoreVec<u8, AllocatorStore<u8>> = StoreVec::with_capacity(2);

    assert!(vec.capacity() >= 2);
    vec.push(1);
    vec.reserve(10);
    assert!(vec.capacity() >= 11);
    assert_eq!(Some(&1), vec.get(0));
}


#[test]
fn bump_allocates_and_reads_back() {
    let mut store = InlineBumpStore::<u8, 16>::new();

    let (first, n) = store.allocate(Layout::new(3, 1)).unwrap();
    assert!(n >= 3);
    store.write(first, 0, 10);
    store.write(first, 1, 11);
    store.write(first, 2, 12);

    let (second, _) = store.allocate(Layout::new(2, 1)).unwrap();
    store.write(second, 0, 20);

    // handles survive further allocation: this store is multiple
    assert_eq!(10, *store.read(first, 0));
    assert_eq!(12, *store.read(first, 2));
    assert_eq!(20, *store.read(second, 0));
}

#[test]
fn bump_exhausts() {
    let mut store = InlineBumpStore::<u8, 4>::new();

    let (_, _) = store.allocate(Layout::new(3, 1)).unwrap();
    assert!(store.allocate(Layout::new(2, 1)).is_err());
    assert!(store.allocate(Layout::new(1, 1)).is_ok());
    assert!(store.allocate(Layout::new(1, 1)).is_err());
}

#[test]
fn bump_aligns_offsets() {
    let mut store = InlineBumpStore::<u8, 16>::new();

    let (first, _) = store.allocate(Layout::new(1, 1)).unwrap();
    assert_eq!(0, store.resolve(first));

    let (second, _) = store.allocate(Layout::new(4, 4)).unwrap();
    let address = store.resolve(second);
    assert_eq!(0, address % 4);
    assert!(address >= 1);
}

#[test]
fn bump_grow_last_in_place() {
    let mut store = InlineBumpStore::<u8, 8>::new();

    let (handle, _) = store.allocate(Layout::new(2, 1)).unwrap();
    store.write(handle, 0, 1);
    store.write(handle, 1, 2);

    let (grown, n) = store.grow(handle, Layout::new(2, 1), Layout::new(6, 1)).unwrap();
    assert!(n >= 6);
    // the last block grows in place: the handle is unchanged
    assert_eq!(store.resolve(handle), store.resolve(grown));
    assert_eq!(1, *store.read(grown, 0));
    assert_eq!(2, *store.read(grown, 1));
}

#[test]
fn bump_grow_relocates_earlier_block() {
    let mut store = InlineBumpStore::<u8, 16>::new();

    let (first, _) = store.allocate(Layout::new(2, 1)).unwrap();
    store.write(first, 0, 7);
    store.write(first, 1, 8);
    let (_, _) = store.allocate(Layout::new(1, 1)).unwrap();

    let (moved, n) = store.grow(first, Layout::new(2, 1), Layout::new(4, 1)).unwrap();
    assert!(n >= 4);
    assert_ne!(store.resolve(first), store.resolve(moved));
    assert_eq!(7, *store.read(moved, 0));
    assert_eq!(8, *store.read(moved, 1));
}

#[test]
fn bump_dangling_aligned() {
    let store = InlineBumpStore::<u8, 4>::new();
    for align in [1usize, 2, 8, 256] {
        let handle = StoreDangling::<u8>::dangling(&store, align).unwrap();
        let address = Store::<u8>::resolve(&store, handle);
        assert_eq!(0, address % align);
    }
}

#[test]
fn store_vec_get_mut() {
    let mut vec: StoreVec<u32, AllocatorStore<u32>> = StoreVec::new();
    vec.push(1);
    vec.push(2);

    if let Some(e) = vec.get_mut(1) {
        *e = 20;
    }

    assert_eq!(Some(&1), vec.get(0));
    assert_eq!(Some(&20), vec.get(1));
    assert!(vec.get_mut(5).is_none());
}
