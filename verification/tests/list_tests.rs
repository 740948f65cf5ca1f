use contamers::list::List;

#[test]
fn test_pop_empty_list() {
    let mut list: List<()> = List::new();
    assert_eq!(list.pop(), None);
}

#[test]
fn test_push_pop_empty_list() {
    let mut list = List::new();
    list.push(1);
    assert_eq!(list.pop(), Some(1));
}

#[test]
fn test_list_len() {
    let mut list = List::new();
    list.push(1);
    assert_eq!(list.len(), 1);
    list.pop();
    assert_eq!(list.len(), 0);
    list.pop();
    assert_eq!(list.len(), 0);
}

#[test]
fn test_from_iterator() {
    let vec = [1, 2, 3, 4];

    let mut list: List<i64> = List::from_sequence(vec.to_vec());
    assert_eq!(list.len(), 4);

    for i in vec.iter().rev() {
        assert_eq!(list.pop(), Some(*i));
    }
}

#[test]
fn test_iterator() {
    let mut list = List::new();
    list.push(1);
    list.push(2);
    let mut it = list.iter();
    assert_eq!(it.next().unwrap(), &2);
    assert_eq!(it.next().unwrap(), &1);
    assert_eq!(it.next(), None);
}

#[test]
fn test_empty_pop_and_len() {
    let mut list: List<u8> = List::new();
    assert_eq!(list.pop(), None);
    assert_eq!(list.len(), 0);
}

#[test]
fn test_push_pop_roundtrip() {
    let mut list = List::new();
    list.push(1);
    assert_eq!(list.pop(), Some(1));
    assert_eq!(list.pop(), None);
    assert_eq!(list.len(), 0);
}

#[test]
fn test_from_sequence_empty() {
    let list: List<i32> = List::from_sequence(Vec::new());
    assert_eq!(list.len(), 0);
}

#[test]
fn test_from_sequence_pop_order() {
    let mut list = List::from_sequence(vec![1, 2, 3, 4]);
    assert_eq!(list.pop(), Some(4));
    assert_eq!(list.pop(), Some(3));
    assert_eq!(list.pop(), Some(2));
    assert_eq!(list.pop(), Some(1));
    assert_eq!(list.pop(), None);
}

#[test]
fn test_from_sequence_iter_reversed() {
    let list = List::from_sequence(vec!["a", "b", "c"]);
    let mut it = list.iter();
    assert_eq!(it.next(), Some(&"c"));
    assert_eq!(it.next(), Some(&"b"));
    assert_eq!(it.next(), Some(&"a"));
    assert_eq!(it.next(), None);
    assert_eq!(it.next(), None);
}

#[test]
fn test_len_counts_iterated_elements() {
    let mut list = List::new();
    for v in [10, 20, 30, 40, 50] {
        list.push(v);
    }
    let mut it = list.iter();
    let mut count = 0;
    while it.next().is_some() {
        count += 1;
    }
    assert_eq!(count, list.len());
}

#[test]
fn test_size_hint_tracks_remaining() {
    let mut list = List::new();
    list.push(1);
    list.push(2);
    let mut it = list.iter();
    assert_eq!(it.size_hint(), (2, Some(2)));
    it.next();
    assert_eq!(it.size_hint(), (1, Some(1)));
    it.next();
    assert_eq!(it.size_hint(), (0, Some(0)));
    it.next();
    assert_eq!(it.size_hint(), (0, Some(0)));
}
