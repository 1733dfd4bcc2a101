use store_api::collection::linked_list::Node;
use store_api::collection::LinkedList;
use store_api::store::AllocatorStore;

type TestList = LinkedList<String, AllocatorStore<Node<String>>>;

fn rendered(list: &TestList) -> String {
    format!("{:?}", list.to_vec())
}

#[test]
fn linked_list_list_empty() {
    let list = TestList::new();

    assert!(list.is_empty());
    assert_eq!(0, list.len());
}

#[test]
fn linked_list_list_front_multiple() {
    let mut list = TestList::new();

    list.try_push_front(String::from("2")).unwrap();
    list.try_push_front(String::from("1")).unwrap();
    list.try_push_front(String::from("0")).unwrap();

    assert!(!list.is_empty());
    assert_eq!(3, list.len());
    assert_eq!(Some("0"), list.front().map(|s| s.as_str()));
    assert_eq!(Some("0"), list.pop_front().as_deref());

    assert!(!list.is_empty());
    assert_eq!(2, list.len());
    assert_eq!(Some("1"), list.front().map(|s| s.as_str()));
    assert_eq!(Some("1"), list.pop_front().as_deref());

    assert!(!list.is_empty());
    assert_eq!(1, list.len());
    assert_eq!(Some("2"), list.front().map(|s| s.as_str()));
    assert_eq!(Some("2"), list.pop_front().as_deref());

    assert!(list.is_empty());
    assert_eq!(0, list.len());
}

#[test]
fn linked_list_list_back_multiple() {
    let mut list = TestList::new();

    list.try_push_back(String::from("2")).unwrap();
    list.try_push_back(String::from("1")).unwrap();
    list.try_push_back(String::from("0")).unwrap();

    assert!(!list.is_empty());
    assert_eq!(3, list.len());
    assert_eq!(Some("0"), list.back().map(|s| s.as_str()));
    assert_eq!(Some("0"), list.pop_back().as_deref());

    assert!(!list.is_empty());
    assert_eq!(2, list.len());
    assert_eq!(Some("1"), list.back().map(|s| s.as_str()));
    assert_eq!(Some("1"), list.pop_back().as_deref());

    assert!(!list.is_empty());
    assert_eq!(1, list.len());
    assert_eq!(Some("2"), list.back().map(|s| s.as_str()));
    assert_eq!(Some("2"), list.pop_back().as_deref());

    assert!(list.is_empty());
    assert_eq!(0, list.len());
}

#[test]
fn linked_list_list_clone() {
    let mut list = TestList::new();

    list.try_push_front(String::from("2")).unwrap();
    list.try_push_front(String::from("1")).unwrap();
    list.try_push_front(String::from("0")).unwrap();

    let mut clone = list.clone();

    assert_eq!(Some("0"), clone.pop_front().as_deref());
    assert_eq!(Some("1"), clone.pop_front().as_deref());
    assert_eq!(Some("2"), clone.pop_front().as_deref());
    assert_eq!(None, clone.pop_front().as_deref());

    assert_eq!(Some("0"), list.pop_front().as_deref());
    assert_eq!(Some("1"), list.pop_front().as_deref());
    assert_eq!(Some("2"), list.pop_front().as_deref());
    assert_eq!(None, list.pop_front().as_deref());
}

#[test]
fn list_split_off() {
    let mut list = TestList::new();

    list.try_push_front(String::from("5")).unwrap();
    list.try_push_front(String::from("4")).unwrap();
    list.try_push_front(String::from("3")).unwrap();
    list.try_push_front(String::from("2")).unwrap();
    list.try_push_front(String::from("1")).unwrap();
    list.try_push_front(String::from("0")).unwrap();

    assert_eq!(r#"["0", "1", "2", "3", "4", "5"]"#, rendered(&list));

    let other = list.split_off(6);

    assert_eq!(r#"["0", "1", "2", "3", "4", "5"]"#, rendered(&list));
    assert_eq!(r#"[]"#, rendered(&other));

    let mut other = list.split_off(0);

    assert_eq!(r#"[]"#, rendered(&list));
    assert_eq!(r#"["0", "1", "2", "3", "4", "5"]"#, rendered(&other));

    list = other.split_off(3);

    assert_eq!(r#"["3", "4", "5"]"#, rendered(&list));
    assert_eq!(r#"["0", "1", "2"]"#, rendered(&other));
}

#[test]
fn linked_list_list_from_array() {
    let list = TestList::try_from(
        vec![String::from("0"), String::from("1"), String::from("2")],
    ).unwrap();

    assert_eq!(r#"["0", "1", "2"]"#, rendered(&list));
}

#[test]
fn linked_list_list_extend_clone() {
    let mut list = TestList::try_from(
        vec![String::from("0"), String::from("1"), String::from("2")],
    ).unwrap();

    let suffix: Vec<String> = [String::from("3"), String::from("4"), String::from("5")]
        .iter()
        .cloned()
        .collect();
    list.extend(suffix);

    assert_eq!(r#"["0", "1", "2", "3", "4", "5"]"#, rendered(&list));
}

#[test]
fn linked_list_list_extend() {
    let mut list = TestList::try_from(
        vec![String::from("0"), String::from("1"), String::from("2")],
    ).unwrap();

    list.extend(vec![String::from("3"), String::from("4"), String::from("5")]);

    assert_eq!(r#"["0", "1", "2", "3", "4", "5"]"#, rendered(&list));
}

#[test]
fn linked_list_list_from_iterator() {
    let elements: Vec<String> = [0, 1, 2].iter().map(|i| i.to_string()).collect();
    let list = TestList::try_from(elements).unwrap();

    assert_eq!(r#"["0", "1", "2"]"#, rendered(&list));
}

#[test]
fn linked_list_list_into_iter() {
    let elements: Vec<String> = [0, 1, 2].iter().map(|i| i.to_string()).collect();
    let list = TestList::try_from(elements).unwrap();

    let mut it = list.into_iter();
    let mut v: Vec<String> = Vec::new();
    while let Some(e) = it.next() {
        v.push(e);
    }

    assert_eq!(r#"["0", "1", "2"]"#, format!("{v:?}"));
}

#[test]
fn linked_list_list_iter() {
    let elements: Vec<String> = [0, 1, 2].iter().map(|i| i.to_string()).collect();
    let list = TestList::try_from(elements).unwrap();

    let mut it = list.iter();
    let mut v: Vec<&String> = Vec::new();
    while let Some(e) = it.next() {
        v.push(e);
    }

    assert_eq!(r#"["0", "1", "2"]"#, format!("{v:?}"));
}

#[test]
fn linked_list_list_front() {
    let mut list = TestList::new();

    list.try_push_front(String::from("0")).unwrap();

    assert!(!list.is_empty());
    assert_eq!(1, list.len());
    assert_eq!(Some("0"), list.front().map(|s| s.as_str()));

    if let Some(e) = list.front_mut() {
        e.push('1');
    }

    assert_eq!(Some("01"), list.pop_front().as_deref());

    assert!(list.is_empty());
    assert_eq!(0, list.len());
}

#[test]
fn linked_list_list_back() {
    let mut list = TestList::new();

    list.try_push_back(String::from("0")).unwrap();

    assert!(!list.is_empty());
    assert_eq!(1, list.len());
    assert_eq!(Some("0"), list.back().map(|s| s.as_str()));

    if let Some(e) = list.back_mut() {
        e.push('1');
    }

    assert_eq!(Some("01"), list.pop_back().as_deref());

    assert!(list.is_empty());
    assert_eq!(0, list.len());
}

#[test]
fn list_append() {
    let mut list = TestList::new();

    list.try_push_front(String::from("2")).unwrap();
    list.try_push_front(String::from("1")).unwrap();
    list.try_push_front(String::from("0")).unwrap();

    assert_eq!(r#"["0", "1", "2"]"#, rendered(&list));

    let mut other = TestList::new();

    list.try_append(&mut other).unwrap();

    assert_eq!(r#"["0", "1", "2"]"#, rendered(&list));
    assert_eq!(r#"[]"#, rendered(&other));

    other.try_push_front(String::from("5")).unwrap();
    other.try_push_front(String::from("4")).unwrap();
    other.try_push_front(String::from("3")).unwrap();

    list.try_append(&mut other).unwrap();

    assert_eq!(r#"["0", "1", "2", "3", "4", "5"]"#, rendered(&list));
    assert_eq!(r#"[]"#, rendered(&other));
}
