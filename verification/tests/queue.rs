use mpmc_async::queue::{Queue, Release};

#[test]
fn reservation_counts_towards_capacity() {
    let mut q = Queue::<i32>::new(3);
    assert_eq!(q.cap(), 3);
    let r = q.try_reserve(2).expect("room for two");
    assert_eq!(q.len(), 2);
    assert!(q.try_reserve(2).is_none());
    assert!(q.try_reserve(1).is_some());
    assert_eq!(q.len(), 3);
    assert!(q.try_reserve(1).is_none());
    assert_eq!(q.reserved_count(&r), Some(2));
}

#[test]
fn reads_follow_reservation_order() {
    let mut q = Queue::<i32>::new(4);
    let r1 = q.try_reserve(1).unwrap();
    let r2 = q.try_reserve(1).unwrap();
    q.write(&r2, 20);
    // The first reservation blocks the read.
    assert_eq!(q.read_next_value(), None);
    q.write(&r1, 10);
    assert_eq!(q.read_next_value(), Some(10));
    assert_eq!(q.read_next_value(), Some(20));
    assert_eq!(q.read_next_value(), None);
    assert_eq!(q.len(), 0);
}

#[test]
fn write_into_larger_reservation_goes_before_it() {
    let mut q = Queue::<i32>::new(5);
    let r = q.try_reserve(3).unwrap();
    q.write(&r, 1);
    assert_eq!(q.reserved_count(&r), Some(2));
    assert_eq!(q.len(), 3);
    assert_eq!(q.read_next_value(), Some(1));
    assert_eq!(q.len(), 2);
    q.write(&r, 2);
    q.write(&r, 3);
    assert_eq!(q.reserved_count(&r), None);
    assert_eq!(q.read_next_value(), Some(2));
    assert_eq!(q.read_next_value(), Some(3));
    assert!(q.is_empty());
}

#[test]
fn release_gives_places_back() {
    let mut q = Queue::<i32>::new(4);
    let r = q.try_reserve(4).unwrap();
    q.release(r.clone(), Release::Count(1));
    assert_eq!(q.len(), 3);
    assert_eq!(q.reserved_count(&r), Some(3));
    q.release(r.clone(), Release::All);
    assert_eq!(q.len(), 0);
    assert_eq!(q.reserved_count(&r), None);
    assert!(q.is_empty());
    assert!(q.has_room_for(4));
}

#[test]
fn release_of_every_place_removes_the_reservation() {
    let mut q = Queue::<i32>::new(2);
    let r1 = q.try_reserve(1).unwrap();
    let r2 = q.try_reserve(1).unwrap();
    q.write(&r2, 7);
    assert!(!q.next_is_value());
    q.release(r1, Release::Count(1));
    assert!(q.next_is_value());
    assert_eq!(q.read_next_value(), Some(7));
}
