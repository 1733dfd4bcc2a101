use store_api::collection::{StorageBox, StoreBox};
use store_api::storage::{AllocatorStorage, InlineSingleStorage};
use store_api::store::{AllocatorStore, InlineSingleStore, NonAllocator};

#[test]
fn sized_storage() {
    let storage = InlineSingleStorage::<u8, 1>::default();
    let mut boxed = StorageBox::new(1u8, storage).unwrap();

    assert_eq!(1u8, *boxed.get());

    boxed.set(2);

    assert_eq!(2u8, *boxed.get());
}

#[test]
fn storage_box_sized_failure() {
    assert!(StorageBox::new(1, NonAllocator).is_err());
}

#[test]
fn storage_box_sized_allocated() {
    let mut boxed = StorageBox::new(1u32, AllocatorStorage::default()).unwrap();

    assert_eq!(1u32, *boxed.get());

    boxed.set(2);

    assert_eq!(2u32, *boxed.get());
}

#[test]
fn storage_box_slice_failure() {
    assert!(StorageBox::new([1u8, 2, 3], NonAllocator).is_err());
}

#[test]
fn storage_box_trait_failure() {
    assert!(StorageBox::new([1u8, 2, 3], NonAllocator).is_err());
}

#[test]
fn sized_store() {
    let store = InlineSingleStore::<u8, 1>::default();
    let mut boxed = StoreBox::new_in(1u8, store);

    assert_eq!(1u8, *boxed.get());

    boxed.set(2);

    assert_eq!(2u8, *boxed.get());

    let mut clone = boxed.clone();

    clone.set(3);

    assert_eq!(2u8, *boxed.get());
    assert_eq!(3u8, *clone.get());
}

#[test]
fn store_box_sized_failure() {
    assert!(StoreBox::try_new_in(1, NonAllocator).is_err());
}

#[test]
fn store_box_sized_allocated() {
    let mut boxed = StoreBox::new_in(1u32, AllocatorStore::default());

    assert_eq!(1u32, *boxed.get());

    boxed.set(2);

    assert_eq!(2u32, *boxed.get());

    let mut clone = boxed.clone();

    clone.set(3);

    assert_eq!(2u32, *boxed.get());
    assert_eq!(3u32, *clone.get());
}

#[test]
fn store_box_slice_failure() {
    assert!(StoreBox::try_new_in([1u8, 2, 3], NonAllocator).is_err());
}

#[test]
fn store_box_trait_failure() {
    assert!(StoreBox::try_new_in([1u8, 2, 3], NonAllocator).is_err());
}

#[test]
fn store_box_replace_returns_previous() {
    let mut boxed = StoreBox::new_in(7u32, AllocatorStore::default());

    assert_eq!(7u32, boxed.replace(9));
    assert_eq!(9u32, *boxed.get());
}

#[test]
fn boxes_mutate_in_place() {
    let mut boxed = StorageBox::new(5u32, AllocatorStorage::default()).unwrap();
    *boxed.get_mut() = 6;
    assert_eq!(6u32, *boxed.get());

    let mut boxed = StoreBox::new_in(7u32, AllocatorStore::default());
    *boxed.get_mut() = 8;
    assert_eq!(8u32, *boxed.get());
}
