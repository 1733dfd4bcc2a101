use store_api::collection::ConcurrentVec;
use store_api::store::AllocatorStore;

type GlobalVec = ConcurrentVec<String, AllocatorStore<String>>;

#[test]
fn concurrent_vec_empty() {
    let empty = GlobalVec::new(42);

    assert!(empty.is_empty());
    assert_eq!(0, empty.len());
    assert_eq!(42, empty.capacity());
}

#[test]
fn concurrent_vec_brush() {
    let mut vec = GlobalVec::new(42);

    for i in 0..3 {
        vec.push(i.to_string()).unwrap();
    }

    let elements: Vec<String> = vec.as_slice().into_iter().cloned().collect();
    assert_eq!(vec!["0".to_string(), "1".to_string(), "2".to_string()], elements);
    assert_eq!(3, vec.len());
    assert_eq!(42, vec.capacity());
}

#[test]
fn overflow() {
    const CAP: usize = 5;

    let mut vec = GlobalVec::new(CAP);

    for i in 0..CAP {
        vec.push(i.to_string()).unwrap();
    }

    let result = vec.push(CAP.to_string());
    assert_eq!(Err(CAP.to_string()), result);
    assert_eq!(CAP, vec.len());
}

#[test]
fn filled_from_parts() {
    const THREADS: usize = 4;
    const ELEMENTS: usize = 4;

    let mut vec = GlobalVec::new(THREADS * ELEMENTS);

    for i in 0..THREADS {
        for k in 0..ELEMENTS {
            vec.push((i * ELEMENTS + k).to_string()).unwrap();
        }
    }

    assert_eq!(THREADS * ELEMENTS, vec.len());

    let mut elements: Vec<usize> = vec.as_slice().iter().map(|n| n.parse().unwrap()).collect();
    elements.sort();

    assert_eq!(&[0, 1, 2, 3, 4, 5, 6, 7, 8, 9, 10, 11, 12, 13, 14, 15][..], &elements);
}
