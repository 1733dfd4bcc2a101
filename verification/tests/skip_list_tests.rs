use store_api::collection::skip_list::NodeSlot;
use store_api::collection::SkipList;
use store_api::store::AllocatorStore;

type GlobalList = SkipList<i32, String, AllocatorStore<NodeSlot<i32, String>>>;

#[test]
fn skip_list_empty() {
    let list = GlobalList::default();

    assert!(list.is_empty());
    assert_eq!(0, list.len());
    assert_eq!(None, list.get(&0));
}

#[test]
fn insert_front() {
    let mut list = GlobalList::default();

    list.insert(1, String::from("1"));

    assert_eq!(1, list.len());

    list.insert(0, String::from("0"));

    assert_eq!(2, list.len());

    assert_eq!(None, list.get(&-1));
    assert_eq!(Some(&String::from("0")), list.get(&0));
    assert_eq!(Some(&String::from("1")), list.get(&1));
    assert_eq!(None, list.get(&2));
}

#[test]
fn insert_back() {
    let mut list = GlobalList::default();

    list.insert(0, String::from("0"));

    assert_eq!(1, list.len());

    list.insert(1, String::from("1"));

    assert_eq!(2, list.len());

    assert_eq!(None, list.get(&-1));
    assert_eq!(Some(&String::from("0")), list.get(&0));
    assert_eq!(Some(&String::from("1")), list.get(&1));
    assert_eq!(None, list.get(&2));
}

#[test]
fn insert_replaces_last_value() {
    let mut list = GlobalList::default();

    assert_eq!(None, list.insert(3, String::from("a")));
    assert_eq!(None, list.insert(1, String::from("b")));
    assert_eq!(None, list.insert(2, String::from("c")));
    assert_eq!(Some((2, String::from("c"))), list.insert(2, String::from("d")));
    assert_eq!(Some((3, String::from("a"))), list.insert(3, String::from("e")));

    assert_eq!(Some(&String::from("b")), list.get(&1));
    assert_eq!(Some(&String::from("d")), list.get(&2));
    assert_eq!(Some(&String::from("e")), list.get(&3));
    assert_eq!(3, list.len());
}

#[test]
fn insert_many_ordered_lookups() {
    let mut list = GlobalList::default();

    for k in [7, 3, 9, 1, 5, 8, 2, 6, 4, 0] {
        assert_eq!(None, list.insert(k, k.to_string()));
    }

    assert_eq!(10, list.len());

    for k in 0..10 {
        assert_eq!(Some(&k.to_string()), list.get(&k));
    }
    assert_eq!(None, list.get(&10));
    assert_eq!(None, list.get(&-1));
}

#[test]
fn clear_empties_the_list() {
    let mut list = GlobalList::default();

    list.insert(1, String::from("1"));
    list.insert(2, String::from("2"));

    list.clear();

    assert!(list.is_empty());
    assert_eq!(0, list.len());
    assert_eq!(None, list.get(&1));
    assert_eq!(None, list.get(&2));
}

#[test]
fn insert_single() {
    let mut list = GlobalList::default();

    list.insert(0, String::from("0"));

    assert!(!list.is_empty());
    assert_eq!(1, list.len());

    assert_eq!(None, list.get(&-1));
    assert_eq!(Some(&String::from("0")), list.get(&0));
    assert_eq!(None, list.get(&1));

    let Some(v) = list.get_mut(&0) else { unreachable!() };

    v.push('0');

    assert_eq!(Some(&String::from("00")), list.get(&0));
}
