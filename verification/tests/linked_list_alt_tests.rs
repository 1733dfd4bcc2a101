use store_api::collection::linked_list::Node;
use store_api::collection::LinkedList;
use store_api::storage::AllocatorStorage;

type TestList = LinkedList<String, AllocatorStorage<Node<String>>>;

fn rendered(list: &TestList) -> String {
    format!("{:?}", list.to_vec())
}

#[test]
fn list_empty() {
    let list = TestList::new();

    assert!(list.is_empty());
    assert_eq!(0, list.len());
}

#[test]
fn list_from_array() {
    let list = TestList::try_from(
        vec![String::from("0"), String::from("1"), String::from("2")],
    ).unwrap();

    assert_eq!(r#"["0", "1", "2"]"#, rendered(&list));
}

#[test]
fn list_extend_clone() {
    let mut list = TestList::try_from(
        vec![String::from("0"), String::from("1"), String::from("2")],
    ).unwrap();

    let suffix: Vec<String> = [String::from("3"), String::from("4"), String::from("5")]
        .iter()
        .cloned()
        .collect();
    list.extend(suffix);

    assert_eq!(r#"["0", "1", "2", "3", "4", "5"]"#, rendered(&list));
}

#[test]
fn list_extend() {
    let mut list = TestList::try_from(
        vec![String::from("0"), String::from("1"), String::from("2")],
    ).unwrap();

    list.extend(vec![String::from("3"), String::from("4"), String::from("5")]);

    assert_eq!(r#"["0", "1", "2", "3", "4", "5"]"#, rendered(&list));
}

#[test]
fn list_from_iterator() {
    let elements: Vec<String> = [0, 1, 2].iter().map(|i| i.to_string()).collect();
    let list = TestList::try_from(elements).unwrap();

    assert_eq!(r#"["0", "1", "2"]"#, rendered(&list));
}

#[test]
fn list_into_iter() {
    let elements: Vec<String> = [0, 1, 2].iter().map(|i| i.to_string()).collect();
    let list = TestList::try_from(elements).unwrap();

    let mut it = list.into_iter();
    let mut v: Vec<String> = Vec::new();
    while let Some(e) = it.next() {
        v.push(e);
    }

    assert_eq!(r#"["0", "1", "2"]"#, format!("{v:?}"));
}

#[test]
fn list_iter() {
    let elements: Vec<String> = [0, 1, 2].iter().map(|i| i.to_string()).collect();
    let list = TestList::try_from(elements).unwrap();

    let mut it = list.iter();
    let mut v: Vec<&String> = Vec::new();
    while let Some(e) = it.next() {
        v.push(e);
    }

    assert_eq!(r#"["0", "1", "2"]"#, format!("{v:?}"));
}

#[test]
fn list_front_and_back() {
    let mut list = TestList::new();

    list.try_push_back(String::from("a")).unwrap();
    list.try_push_back(String::from("b")).unwrap();

    assert_eq!(Some("a"), list.front().map(|s| s.as_str()));
    assert_eq!(Some("b"), list.back().map(|s| s.as_str()));

    list.clear();
    assert_eq!(None, list.front());
    assert_eq!(None, list.back());
}

#[test]
fn list_front() {
    let mut list = TestList::new();

    list.try_push_front(String::from("0")).unwrap();

    assert!(!list.is_empty());
    assert_eq!(1, list.len());
    assert_eq!(Some("0"), list.front().map(|s| s.as_str()));

    if let Some(e) = list.front_mut() {
        e.push('1');
    }

    assert_eq!(Some("01"), list.pop_front().as_deref());

    assert!(list.is_empty());
    assert_eq!(0, list.len());
}

#[test]
fn list_back() {
    let mut list = TestList::new();

    list.try_push_back(String::from("0")).unwrap();

    assert!(!list.is_empty());
    assert_eq!(1, list.len());
    assert_eq!(Some("0"), list.back().map(|s| s.as_str()));

    if let Some(e) = list.back_mut() {
        e.push('1');
    }

    assert_eq!(Some("01"), list.pop_back().as_deref());

    assert!(list.is_empty());
    assert_eq!(0, list.len());
}

#[test]
fn list_contains() {
    let list = TestList::try_from(
        vec![String::from("0"), String::from("1"), String::from("2")],
    ).unwrap();

    assert!(list.contains(&String::from("1")));
    assert!(!list.contains(&String::from("9")));
}
