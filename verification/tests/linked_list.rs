use mpmc_async::linked_list::LinkedList;

#[test]
fn push_tail_remove_drop() {
    let mut list = LinkedList::<i32>::new();
    assert!(matches!(list.head(), None));
    assert!(matches!(list.tail(), None));
    let node_ref = list.push_tail(123);
    assert!(matches!(list.head(), Some(&123)));
    assert!(matches!(list.tail(), Some(&123)));
    list.remove(node_ref);
    assert!(matches!(list.head(), None));
    assert!(matches!(list.tail(), None));
    drop(list);
}

#[test]
fn push_head_remove_drop() {
    let mut list = LinkedList::<i32>::new();
    assert!(matches!(list.head(), None));
    assert!(matches!(list.tail(), None));
    let node_ref = list.push_head(123);
    assert!(matches!(list.head(), Some(&123)));
    assert!(matches!(list.tail(), Some(&123)));
    list.remove(node_ref);
    assert!(matches!(list.head(), None));
    assert!(matches!(list.tail(), None));
    drop(list);
}

#[test]
fn collect_iter() {
    let list = LinkedList::from_vec((1..=4i32).collect());

    assert_eq!(list.iter().collect::<Vec<_>>(), vec![&1, &2, &3, &4]);
    assert_eq!(list.iter().rev().collect::<Vec<_>>(), vec![&4, &3, &2, &1]);
}

#[test]
fn into_iter_ref() {
    let mut range = 1..=4i32;
    let list = LinkedList::from_vec(range.clone().collect());
    for got in list.iter() {
        let want = range.next().unwrap();
        assert_eq!(&want, got);
    }
}

#[test]
fn pop_head_tail() {
    let mut list = LinkedList::from_vec((1..=4i32).collect());

    assert_eq!(list.pop_head(), Some(1));
    assert_eq!(list.pop_tail(), Some(4));
    assert_eq!(list.pop_head(), Some(2));
    assert_eq!(list.pop_tail(), Some(3));
    assert_eq!(list.pop_head(), None);
    assert_eq!(list.pop_tail(), None);
}

#[test]
fn clone_node_ref() {
    let mut list = LinkedList::new();
    let node_ref1 = list.push_tail(1);
    let node_ref2 = node_ref1.clone();
    let node_ref3 = node_ref2.clone();

    assert_eq!(list.get(&node_ref1), Some(&1));
    assert_eq!(list.get(&node_ref2), Some(&1));
    assert_eq!(list.get(&node_ref3), Some(&1));

    drop(node_ref1);
    assert_eq!(list.get(&node_ref2), Some(&1));
    assert_eq!(list.get(&node_ref3), Some(&1));

    drop(node_ref2);
    assert_eq!(list.get(&node_ref3), Some(&1));

    drop(node_ref3);
    assert_eq!(list.pop_head(), Some(1));
    assert_eq!(list.pop_head(), None);
}

#[test]
fn add_remove_multiple_drop() {
    let mut list = LinkedList::<i32>::new();
    assert!(matches!(list.head(), None));
    assert!(matches!(list.tail(), None));
    let node_ref1 = list.push_tail(1);
    let node_ref2 = list.push_tail(2);
    let node_ref3 = list.push_tail(3);
    let node_ref4 = list.push_tail(4);

    assert!(matches!(list.head(), Some(&1)));
    assert!(matches!(list.tail(), Some(&4)));
    assert_eq!(list.iter().collect::<Vec<_>>(), vec![&1, &2, &3, &4]);

    list.remove(node_ref1);
    assert!(matches!(list.head(), Some(&2)));
    assert!(matches!(list.tail(), Some(&4)));
    assert_eq!(list.iter().collect::<Vec<_>>(), vec![&2, &3, &4]);

    list.remove(node_ref3);
    assert!(matches!(list.head(), Some(&2)));
    assert!(matches!(list.tail(), Some(&4)));
    assert_eq!(list.iter().collect::<Vec<_>>(), vec![&2, &4]);

    list.remove(node_ref4);
    assert!(matches!(list.head(), Some(&2)));
    assert!(matches!(list.tail(), Some(&2)));
    assert_eq!(list.iter().collect::<Vec<_>>(), vec![&2]);

    list.remove(node_ref2);
    assert!(matches!(list.head(), None));
    assert!(matches!(list.tail(), None));
    assert_eq!(list.iter().collect::<Vec<_>>(), Vec::<&i32>::new());
}

#[test]
fn push_before_and_after_keep_order() {
    let mut list = LinkedList::new();
    let middle = list.push_tail(2);
    let first = list.push_before(&middle, 1).ok().unwrap();
    let last = list.push_after(&middle, 3).ok().unwrap();
    list.push_after(&first, 10).ok().unwrap();
    list.push_before(&last, 20).ok().unwrap();
    assert_eq!(list.iter().copied().collect::<Vec<_>>(), vec![1, 10, 2, 20, 3]);
    assert_eq!(list.len(), 5);
    assert_eq!(list.head(), Some(&1));
    assert_eq!(list.tail(), Some(&3));
}

#[test]
fn stale_handle_is_refused() {
    let mut list = LinkedList::new();
    let a = list.push_tail(1);
    let a_copy = a.clone();
    assert_eq!(list.remove(a), Some(1));
    // The freed slot is reused for the next entry; the old handle must not see it.
    let b = list.push_tail(2);
    assert_eq!(list.get(&a_copy), None);
    assert_eq!(list.get_mut(&a_copy), None);
    assert!(matches!(list.push_before(&a_copy, 7), Err(7)));
    assert!(matches!(list.push_after(&a_copy, 8), Err(8)));
    assert_eq!(list.remove(a_copy), None);
    assert_eq!(list.get(&b), Some(&2));
    assert_eq!(list.iter().copied().collect::<Vec<_>>(), vec![2]);
}

#[test]
fn get_mut_changes_only_that_entry() {
    let mut list = LinkedList::new();
    let a = list.push_tail(1);
    let b = list.push_tail(2);
    *list.get_mut(&b).unwrap() = 5;
    assert_eq!(list.get(&a), Some(&1));
    assert_eq!(list.get(&b), Some(&5));
    assert_eq!(list.iter().copied().collect::<Vec<_>>(), vec![1, 5]);
}

#[test]
fn remove_undoes_push_tail() {
    let mut list = LinkedList::from_vec(vec![1, 2]);
    let r = list.push_tail(3);
    assert_eq!(list.get(&r), Some(&3));
    assert_eq!(list.remove(r), Some(3));
    assert_eq!(list.into_vec(), vec![1, 2]);
}

#[test]
fn push_tail_pop_head_is_fifo() {
    let mut list = LinkedList::new();
    list.push_tail(1);
    list.push_tail(2);
    list.push_tail(3);
    assert_eq!(list.pop_head(), Some(1));
    list.push_tail(4);
    assert_eq!(list.pop_head(), Some(2));
    assert_eq!(list.pop_head(), Some(3));
    assert_eq!(list.pop_head(), Some(4));
    assert_eq!(list.pop_head(), None);
    assert!(list.is_empty());
}

#[test]
fn into_iter_gives_values_in_order() {
    let list = LinkedList::from_vec(vec!["a", "b", "c"]);
    assert_eq!(list.into_iter().rev().collect::<Vec<_>>(), vec!["c", "b", "a"]);
    let empty: LinkedList<u8> = LinkedList::default();
    assert_eq!(empty.len(), 0);
    assert_eq!(empty.into_iter().next(), None);
}

#[test]
fn many_pushes_and_removes_reuse_slots() {
    let mut list = LinkedList::new();
    let mut refs = Vec::new();
    for i in 0..100 {
        refs.push(list.push_tail(i));
    }
    for r in refs.drain(..).step_by(2) {
        list.remove(r);
    }
    for i in 100..150 {
        list.push_head(i);
    }
    assert_eq!(list.len(), 100);
    let values: Vec<i32> = list.iter().copied().collect();
    let mut expected: Vec<i32> = (100..150).rev().collect();
    expected.extend((0..100).filter(|i| i % 2 == 1));
    assert_eq!(values, expected);
}

#[test]
fn handles_of_another_list_are_refused() {
    let mut a = LinkedList::<i32>::new();
    let mut b = LinkedList::<i32>::new();
    let ra = a.push_tail(1);
    let rb = b.push_tail(2);
    assert!(b.get(&ra).is_none());
    assert!(matches!(b.push_before(&ra, 3), Err(3)));
    assert!(matches!(b.push_after(&ra, 4), Err(4)));
    assert_eq!(b.remove(ra.clone()), None);
    assert_eq!(b.len(), 1);
    assert_eq!(b.get(&rb), Some(&2));
    assert_eq!(a.remove(ra), Some(1));
}
