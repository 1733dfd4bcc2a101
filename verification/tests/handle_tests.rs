use store_api::extension::{
    SizedHandle, TypedHandle, TypedMetadata, TypedSingleHandle, UniqueHandle, UniqueSingleHandle,
};
use store_api::interface::StoreSingle;
use store_api::store::{AllocatorStore, InlineSingleStore, NonAllocator};

#[test]
fn typed_metadata_round_trip() {
    let metadata = TypedMetadata::<u8>::from_metadata(5);
    assert_eq!(5, metadata.get());
    assert_eq!(1, TypedMetadata::<u8>::new().get());
}

#[test]
fn typed_handle_allocate_and_read() {
    let mut store = AllocatorStore::<u32>::new();
    let handle = TypedHandle::allocate(&mut store).unwrap();
    assert_eq!(1, handle.len());
    assert!(!handle.is_empty());

    let (raw, metadata) = handle.to_raw_parts();
    let rebuilt = TypedHandle::<u32>::from_raw_parts(raw, metadata);
    assert_eq!(1, rebuilt.len());
}

#[test]
fn typed_handle_allocate_zeroed_reads_zero() {
    let mut store = AllocatorStore::<u32>::new();
    let handle = TypedHandle::<u32>::allocate_zeroed(&mut store).unwrap();
    let (raw, _) = handle.to_raw_parts();
    assert_eq!(0u32, *store_api::interface::Store::read(&store, raw, 0));
}

#[test]
fn typed_handle_allocate_fails_on_exhausted() {
    let mut store = NonAllocator;
    assert!(TypedHandle::<u32>::allocate(&mut store).is_err());
    assert!(SizedHandle::<u32>::allocate(&mut store).is_err());
}

#[test]
fn typed_single_slices() {
    let mut store = InlineSingleStore::<u8, 4>::new();

    let handle = TypedSingleHandle::<u8>::allocate_zeroed_slice(3, &mut store);
    assert_eq!(3, handle.len());
    let (raw, _) = handle.to_raw_parts();
    assert_eq!(0u8, *store_api::interface::StoreSingle::read_single(&store, raw, 0));
    assert_eq!(0u8, *store_api::interface::StoreSingle::read_single(&store, raw, 2));

    // over-long requests are refused
    assert!(TypedSingleHandle::<u8>::try_allocate_slice(5, &mut store).is_err());

    let empty = TypedSingleHandle::<u8>::dangling_slice(&store);
    assert!(empty.is_empty());
}

#[test]
fn unique_handle_new_holds_value() {
    let mut store = AllocatorStore::<u64>::new();
    let handle = UniqueHandle::new(11u64, &mut store);
    assert_eq!(1, handle.len());
    let (raw, _) = handle.to_raw_parts();
    assert_eq!(11u64, *store_api::interface::Store::read(&store, raw, 0));
}

#[test]
fn unique_single_handle_round_trip() {
    let mut store = InlineSingleStore::<u32, 1>::new();
    let handle = UniqueSingleHandle::new(3u32, &mut store);
    let (raw, _) = handle.to_raw_parts();
    assert_eq!(3u32, *store_api::interface::StoreSingle::read_single(&store, raw, 0));

    let zeroed = UniqueSingleHandle::<u32>::allocate_zeroed(&mut store);
    let (raw, _) = zeroed.to_raw_parts();
    assert_eq!(0u32, *store_api::interface::StoreSingle::read_single(&store, raw, 0));
}

#[test]
fn typed_single_resize_round_trip() {
    let mut store = InlineSingleStore::<u8, 8>::new();
    let mut handle = TypedSingleHandle::<u8>::allocate_slice(2, &mut store);
    let (raw, _) = handle.to_raw_parts();
    store.write_single(raw, 0, 9);
    store.write_single(raw, 1, 8);

    handle.try_grow_zeroed(5, &mut store).unwrap();
    assert_eq!(5, handle.len());
    let (raw, _) = handle.to_raw_parts();
    assert_eq!(9, *store.read_single(raw, 0));
    assert_eq!(8, *store.read_single(raw, 1));
    assert_eq!(0, *store.read_single(raw, 2));
    assert_eq!(0, *store.read_single(raw, 4));

    handle.try_shrink(1, &mut store).unwrap();
    assert_eq!(1, handle.len());
    let (raw, _) = handle.to_raw_parts();
    assert_eq!(9, *store.read_single(raw, 0));

    // a request beyond the inline buffer fails and changes nothing
    assert!(handle.try_grow(9, &mut store).is_err());
    assert_eq!(1, handle.len());
}
