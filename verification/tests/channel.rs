use mpmc_async::{channel, TryReserveError, TrySendError};

#[test]
fn try_send_errors() {
    let (tx, rx) = channel::<i32>(2);
    assert_eq!(tx.try_send(1), Ok(()));
    assert_eq!(tx.try_send(2), Ok(()));
    assert_eq!(tx.try_send(3), Err(TrySendError::Full(3)));
    assert_eq!(tx.try_send(4), Err(TrySendError::Full(4)));
    drop(rx);
    assert_eq!(tx.try_send(5), Err(TrySendError::Disconnected(5)));
}

#[test]
fn try_reserve_errors() {
    let (tx, rx) = channel::<i32>(2);
    let _res1 = tx.try_reserve().expect("reserved 1");
    let _res2 = tx.try_reserve().expect("reserved 2");
    assert!(matches!(tx.try_reserve(), Err(TryReserveError::Full)));
    assert!(matches!(tx.try_reserve(), Err(TryReserveError::Full)));
    drop(rx);
    assert!(matches!(
        tx.try_reserve(),
        Err(TryReserveError::Disconnected)
    ));
}

use mpmc_async::TryRecvError;

#[test]
fn zero_capacity_becomes_one() {
    let (tx, rx) = channel::<i32>(0);
    assert_eq!(tx.try_send(1), Ok(()));
    assert_eq!(tx.try_send(2), Err(TrySendError::Full(2)));
    assert_eq!(rx.try_recv(), Ok(1));
}

#[test]
fn try_recv_errors() {
    let (tx, rx) = channel::<i32>(2);
    assert_eq!(rx.try_recv(), Err(TryRecvError::Empty));
    tx.try_send(1).unwrap();
    drop(tx);
    assert_eq!(rx.try_recv(), Ok(1));
    assert_eq!(rx.try_recv(), Err(TryRecvError::Disconnected));
}

#[test]
fn values_come_out_in_order() {
    let (tx, rx) = channel::<i32>(3);
    tx.try_send(1).unwrap();
    tx.try_send(2).unwrap();
    assert_eq!(rx.try_recv(), Ok(1));
    tx.try_send(3).unwrap();
    tx.try_send(4).unwrap();
    assert_eq!(rx.try_recv(), Ok(2));
    assert_eq!(rx.try_recv(), Ok(3));
    assert_eq!(rx.try_recv(), Ok(4));
}

#[test]
fn clones_share_the_channel() {
    let (tx, rx) = channel::<i32>(2);
    let tx2 = tx.clone();
    let rx2 = rx.clone();
    tx2.try_send(5).unwrap();
    assert_eq!(rx.try_recv(), Ok(5));
    drop(tx);
    tx2.try_send(6).unwrap();
    drop(tx2);
    assert_eq!(rx2.try_recv(), Ok(6));
    assert_eq!(rx2.try_recv(), Err(TryRecvError::Disconnected));
}

#[test]
fn unused_permit_frees_its_place() {
    let (tx, rx) = channel::<i32>(1);
    let permit = tx.try_reserve().expect("reserved");
    assert_eq!(tx.try_send(1), Err(TrySendError::Full(1)));
    drop(permit);
    assert_eq!(tx.try_send(1), Ok(()));
    assert_eq!(rx.try_recv(), Ok(1));
}

#[test]
fn permits_hold_their_place_in_line() {
    let (tx, rx1) = channel::<i32>(3);
    let rx2 = rx1.clone();
    let permit1 = tx.try_reserve().unwrap();
    let permit2 = tx.try_reserve().unwrap();
    tx.try_send(1).unwrap();
    rx1.close_all();
    assert_eq!(rx1.try_recv(), Err(TryRecvError::Empty));
    assert_eq!(rx2.try_recv(), Err(TryRecvError::Empty));
    permit1.send(2);
    permit2.send(3);
    assert_eq!(rx1.try_recv(), Ok(2));
    assert_eq!(rx2.try_recv(), Ok(3));
    assert_eq!(rx1.try_recv(), Ok(1));
    assert_eq!(rx1.try_recv(), Err(TryRecvError::Disconnected));
    assert_eq!(rx2.try_recv(), Err(TryRecvError::Disconnected));
    assert_eq!(tx.try_send(3), Err(TrySendError::Disconnected(3)));
}

#[test]
fn close_all_with_dropped_permit() {
    let (tx, rx) = channel::<i32>(3);
    let permit = tx.try_reserve().unwrap();
    rx.close_all();
    assert_eq!(rx.try_recv(), Err(TryRecvError::Empty));
    drop(permit);
    assert_eq!(rx.try_recv(), Err(TryRecvError::Disconnected));
}

#[test]
fn reserve_many_in_order() {
    let (tx, rx) = channel::<usize>(10);
    let mut p1 = tx.try_reserve_many(5).unwrap();
    let mut p2 = tx.try_reserve_many(5).unwrap();
    assert!(matches!(tx.try_send(11), Err(TrySendError::Full(11))));
    let mut i = 0;
    while let Some(p) = p2.next() {
        p.send(i + 5);
        i += 1;
    }
    let mut i = 0;
    while let Some(p) = p1.next() {
        p.send(i);
        i += 1;
    }
    for i in 0..10 {
        assert_eq!(rx.try_recv().unwrap(), i);
    }
}

#[test]
fn reserve_many_beyond_capacity_fails() {
    let (tx, _rx) = channel::<usize>(2);
    assert!(matches!(tx.try_reserve_many(3), Err(TryReserveError::Full)));
}

#[test]
fn reserve_many_dropped() {
    let (tx, _rx) = channel::<usize>(2);
    let it = tx.try_reserve_many(2).unwrap();
    drop(it);
    tx.try_send(1).unwrap();
    tx.try_send(2).unwrap();
    assert!(matches!(tx.try_send(3), Err(TrySendError::Full(3))));
}

#[test]
fn reserve_many_dropped_halfway() {
    let (tx, rx) = channel::<usize>(4);
    let mut it = tx.try_reserve_many(4).unwrap();
    it.next().unwrap().send(1);
    it.next().unwrap().send(2);
    drop(it);
    tx.try_send(3).unwrap();
    tx.try_send(4).unwrap();
    assert!(matches!(tx.try_send(5), Err(TrySendError::Full(5))));
    for i in 1..=4 {
        assert_eq!(rx.try_recv(), Ok(i));
    }
}

#[test]
fn owned_permits() {
    let (tx, rx) = channel::<usize>(4);
    let tx = match tx.try_reserve_owned() {
        Ok(p) => p.send(1),
        Err(_) => panic!("reserve"),
    };
    let tx = match tx.try_reserve_owned() {
        Ok(p) => p.release(),
        Err(_) => panic!("reserve"),
    };
    let tx = match tx.try_reserve_owned() {
        Ok(p) => p.send(2),
        Err(_) => panic!("reserve"),
    };
    let p3 = match tx.clone().try_reserve_owned() {
        Ok(p) => p,
        Err(_) => panic!("reserve"),
    };
    let p4 = match tx.clone().try_reserve_owned() {
        Ok(p) => p,
        Err(_) => panic!("reserve"),
    };
    assert!(matches!(tx.clone().try_reserve_owned(), Err(TrySendError::Full(_))));
    drop(p3);
    p4.send(4);
    assert_eq!(rx.try_recv(), Ok(1));
    assert_eq!(rx.try_recv(), Ok(2));
    assert_eq!(rx.try_recv(), Ok(4));
    drop(rx);
    assert!(matches!(tx.try_reserve_owned(), Err(TrySendError::Disconnected(_))));
}

#[test]
fn try_recv_many_takes_ready_values() {
    let (tx, rx) = channel::<i32>(5);
    let mut out = vec![0];
    assert_eq!(rx.try_recv_many(&mut out, 3), Err(TryRecvError::Empty));
    assert_eq!(out, vec![0]);
    for i in 1..=4 {
        tx.try_send(i).unwrap();
    }
    assert_eq!(rx.try_recv_many(&mut out, 3), Ok(3));
    assert_eq!(out, vec![0, 1, 2, 3]);
    assert_eq!(rx.try_recv_many(&mut out, 0), Ok(0));
    assert_eq!(rx.try_recv_many(&mut out, 3), Ok(1));
    assert_eq!(out, vec![0, 1, 2, 3, 4]);
    drop(tx);
    assert_eq!(rx.try_recv_many(&mut out, 3), Err(TryRecvError::Disconnected));
}

#[test]
fn empty_reservation_blocks_until_dropped() {
    let (tx, rx) = channel::<i32>(2);
    let mut it = tx.try_reserve_many(0).unwrap();
    assert!(it.next().is_none());
    tx.try_send(1).unwrap();
    // The empty reservation still stands first in line.
    assert_eq!(rx.try_recv(), Err(TryRecvError::Empty));
    drop(it);
    assert_eq!(rx.try_recv(), Ok(1));
}

#[test]
fn each_value_goes_to_one_receiver() {
    let (tx, rx1) = channel::<i32>(3);
    let rx2 = rx1.clone();
    let mut received = Vec::new();
    for round in 0..4 {
        let permit = tx.try_reserve().expect("room for a permit");
        tx.try_send(round * 10 + 1).unwrap();
        permit.send(round * 10);
        let mut batch = Vec::new();
        while let Ok(v) = rx1.try_recv() {
            batch.push(v);
            if let Ok(w) = rx2.try_recv() {
                batch.push(w);
            }
        }
        received.extend(batch);
    }
    received.sort();
    assert_eq!(received, vec![0, 1, 10, 11, 20, 21, 30, 31]);
    assert_eq!(rx1.try_recv(), Err(TryRecvError::Empty));
    assert_eq!(rx2.try_recv(), Err(TryRecvError::Empty));
}
