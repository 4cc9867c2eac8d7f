use mpmc_async::state::{InnerState, Poll, SendWaker, State};
use mpmc_async::{RecvError, ReserveError, SendError, TryRecvError, TryReserveError, TrySendError};
use std::sync::atomic::{AtomicUsize, Ordering};
use std::sync::Arc;
use std::task::{Wake, Waker};

struct CountingWaker(AtomicUsize);

impl Wake for CountingWaker {
    fn wake(self: Arc<Self>) {
        self.0.fetch_add(1, Ordering::SeqCst);
    }

    fn wake_by_ref(self: &Arc<Self>) {
        self.0.fetch_add(1, Ordering::SeqCst);
    }
}

fn counting_waker() -> (Arc<CountingWaker>, Waker) {
    let counter = Arc::new(CountingWaker(AtomicUsize::new(0)));
    let waker = Waker::from(counter.clone());
    (counter, waker)
}

fn wakes(counter: &Arc<CountingWaker>) -> usize {
    counter.0.load(Ordering::SeqCst)
}

#[test]
fn inner_send_and_receive() {
    let mut s = InnerState::<i32>::new(2);
    assert!(matches!(s.try_send(1), Ok(None)));
    assert!(matches!(s.try_send(2), Ok(None)));
    assert!(matches!(s.try_send(3), Err(TrySendError::Full(3))));
    let (res, waker) = s.try_recv();
    assert_eq!(res, Ok(1));
    assert!(waker.is_none());
    let (res, _) = s.try_recv();
    assert_eq!(res, Ok(2));
    let (res, _) = s.try_recv();
    assert_eq!(res, Err(TryRecvError::Empty));
}

#[test]
fn inner_disconnects_when_last_end_leaves() {
    let mut s = InnerState::<i32>::new(2);
    s.new_sender();
    s.new_sender();
    s.new_receiver();
    assert!(s.drop_sender().is_none());
    assert!(s.try_send(1).is_ok());
    assert!(s.drop_sender().is_some());
    assert!(matches!(s.try_reserve(1), Err(TryReserveError::Disconnected)));
    let (res, _) = s.try_recv();
    assert_eq!(res, Ok(1));
    let (res, _) = s.try_recv();
    assert_eq!(res, Err(TryRecvError::Disconnected));
}

#[test]
fn inner_drain_after_close() {
    let mut s = InnerState::<i32>::new(3);
    s.try_send(1).ok().unwrap();
    s.try_send(2).ok().unwrap();
    let (senders, receivers) = s.close_all_receivers();
    assert!(senders.is_empty());
    assert!(receivers.is_empty());
    assert!(matches!(s.try_send(3), Err(TrySendError::Disconnected(3))));
    assert_eq!(s.try_recv().0, Ok(1));
    assert_eq!(s.try_recv().0, Ok(2));
    assert_eq!(s.try_recv().0, Err(TryRecvError::Disconnected));
}

#[test]
fn inner_reserve_registers_once_and_is_woken() {
    let (counter, waker) = counting_waker();
    let mut s = InnerState::<i32>::new(1);
    s.try_send(1).ok().unwrap();
    let mut waiting = None;
    assert!(matches!(s.reserve(1, &waker, &mut waiting), Poll::Pending));
    assert!(waiting.is_some());
    assert!(matches!(s.reserve(1, &waker, &mut waiting), Poll::Pending));
    assert!(waiting.is_some());
    // Receiving frees a place: the waiting sender's waker is handed out.
    let (res, to_wake) = s.try_recv();
    assert_eq!(res, Ok(1));
    to_wake.expect("a sender to wake").wake();
    assert_eq!(wakes(&counter), 1);
    let reservation = match s.reserve(1, &waker, &mut waiting) {
        Poll::Ready(Ok(r)) => r,
        _ => panic!("expected a reservation"),
    };
    assert!(waiting.is_none());
    assert!(s.send_with_permit(reservation, 7).is_ok());
    assert_eq!(s.try_recv().0, Ok(7));
}

#[test]
fn inner_send_with_foreign_reservation_is_refused() {
    let mut s = InnerState::<i32>::new(2);
    let r = s.try_reserve(1).ok().unwrap();
    assert!(s.send_with_permit(r.clone(), 1).is_ok());
    // The reservation is used up: a second write is handed back.
    assert!(matches!(s.send_with_permit(r, 2), Err(2)));
}

#[test]
fn inner_recv_poll_registers_and_drop_passes_wake_on() {
    let (c1, w1) = counting_waker();
    let (c2, w2) = counting_waker();
    let mut s = InnerState::<i32>::new(1);
    let (mut got1, mut ref1) = (false, None);
    let (mut got2, mut ref2) = (false, None);
    assert!(matches!(s.recv(&w1, &mut got1, &mut ref1), (Poll::Pending, None)));
    assert!(matches!(s.recv(&w2, &mut got2, &mut ref2), (Poll::Pending, None)));
    // A send hands out the first waiting receiver.
    let w = s.try_send(1).ok().unwrap().expect("receiver to wake");
    w.wake();
    assert_eq!(wakes(&c1), 1);
    // The first receiver goes away without receiving: the wake passes on to the second.
    let passed = s.drop_recv_future(got1, &mut ref1).expect("wake passed on");
    passed.wake();
    assert_eq!(wakes(&c2), 1);
    match s.recv(&w2, &mut got2, &mut ref2) {
        (Poll::Ready(Ok(v)), _) => assert_eq!(v, 1),
        _ => panic!("expected a value"),
    }
    assert!(got2);
    assert!(ref2.is_none());
}

#[test]
fn inner_send_poll() {
    let (_c, w) = counting_waker();
    let mut s = InnerState::<i32>::new(1);
    let mut value = Some(1);
    let mut waiting = None;
    assert!(matches!(s.send(&mut value, &w, &mut waiting), (Poll::Ready(Ok(())), None)));
    assert!(value.is_none());
    let mut value = Some(2);
    assert!(matches!(s.send(&mut value, &w, &mut waiting), (Poll::Pending, None)));
    assert_eq!(value, Some(2));
    assert!(waiting.is_some());
    assert!(s.drop_send_future(&mut waiting).is_none());
    assert!(waiting.is_none());
    s.close_all_receivers();
    match s.send(&mut value, &w, &mut waiting) {
        (Poll::Ready(Err(SendError(v))), None) => assert_eq!(v, 2),
        _ => panic!("expected a send error"),
    }
}

#[test]
fn inner_recv_many_poll() {
    let (_c, w) = counting_waker();
    let mut s = InnerState::<i32>::new(4);
    for i in 0..3 {
        s.try_send(i).ok().unwrap();
    }
    let (mut got, mut r) = (false, None);
    let mut out = Vec::new();
    assert!(matches!(s.recv_many(&w, &mut got, &mut r, &mut out, 2), (Poll::Ready(Ok(2)), _)));
    assert_eq!(out, vec![0, 1]);
    assert!(got);
    s.close_all_receivers();
    assert!(matches!(s.recv_many(&w, &mut got, &mut r, &mut out, 5), (Poll::Ready(Ok(1)), _)));
    assert!(matches!(
        s.recv_many(&w, &mut got, &mut r, &mut out, 5),
        (Poll::Ready(Err(RecvError)), None)
    ));
    assert_eq!(out, vec![0, 1, 2]);
}

#[test]
fn inner_drop_permit_wakes_sender_that_fits() {
    let (counter, w) = counting_waker();
    let mut s = InnerState::<i32>::new(1);
    let r = s.try_reserve(1).ok().unwrap();
    let mut waiting = None;
    assert!(matches!(s.reserve(1, &w, &mut waiting), Poll::Pending));
    let sender = s.drop_permit(r, 1);
    sender.expect("sender fits now").wake();
    assert_eq!(wakes(&counter), 1);
    // A handle that no longer reserves anything changes nothing.
    let fresh = waiting_reservation(&mut s);
    let sender = s.drop_permit(fresh, 2);
    assert!(sender.is_none());
}

fn waiting_reservation(s: &mut InnerState<i32>) -> mpmc_async::linked_list::NodeRef<mpmc_async::queue::Spot<i32>> {
    s.try_reserve(1).ok().unwrap()
}

#[test]
fn shared_state_wakes_waiting_receiver_on_send() {
    let (counter, w) = counting_waker();
    let state = State::<i32>::new(2);
    let tx = state.new_sender();
    let rx = state.new_receiver();
    let (mut got, mut r) = (false, None);
    assert!(matches!(rx.shared().recv(&w, &mut got, &mut r), Poll::Pending));
    tx.try_send(3).unwrap();
    assert_eq!(wakes(&counter), 1);
    assert!(matches!(rx.shared().recv(&w, &mut got, &mut r), Poll::Ready(Ok(3))));
}

#[test]
fn shared_state_reserve_errors() {
    let (_c, w) = counting_waker();
    let state = State::<i32>::new(1);
    let tx = state.new_sender();
    let rx = state.new_receiver();
    let mut waiting = None;
    assert!(matches!(state.reserve(2, &w, &mut waiting), Poll::Pending));
    drop(rx);
    assert!(matches!(state.reserve(1, &w, &mut waiting), Poll::Ready(Err(ReserveError))));
    drop(tx);
}

#[test]
fn send_waker_keeps_its_count() {
    let (counter, w) = counting_waker();
    let sw = SendWaker::new(3, w);
    assert_eq!(sw.count(), 3);
    let copy = sw.clone();
    assert_eq!(copy.count(), 3);
    sw.wake_by_ref();
    sw.wake();
    copy.wake();
    assert_eq!(wakes(&counter), 3);
}

#[test]
fn close_all_wakes_waiting_senders_and_receivers() {
    let (sc, sw) = counting_waker();
    let (rc, rw) = counting_waker();
    let state = State::<i32>::new(1);
    let tx = state.new_sender();
    let rx = state.new_receiver();
    let (mut got, mut r) = (false, None);
    assert!(matches!(rx.shared().recv(&rw, &mut got, &mut r), Poll::Pending));
    tx.try_send(1).unwrap();
    assert_eq!(wakes(&rc), 1);
    let mut waiting = None;
    assert!(matches!(tx.shared().reserve(1, &sw, &mut waiting), Poll::Pending));
    let (mut got2, mut r2) = (false, None);
    let mut out = Vec::new();
    assert!(matches!(rx.shared().recv_many(&rw, &mut got2, &mut r2, &mut out, 0), Poll::Ready(Ok(0))));
    rx.close_all();
    assert_eq!(wakes(&sc), 1);
    assert!(matches!(tx.shared().reserve(1, &sw, &mut waiting), Poll::Ready(Err(ReserveError))));
    assert!(matches!(rx.shared().recv(&rw, &mut got, &mut r), Poll::Ready(Ok(1))));
    assert!(matches!(rx.shared().recv(&rw, &mut got, &mut r), Poll::Ready(Err(RecvError))));
}

#[test]
fn inner_reservation_keeps_its_turn() {
    let mut s = InnerState::<i32>::new(2);
    let r = s.try_reserve(1).ok().unwrap();
    s.try_send(2).ok().unwrap();
    assert_eq!(s.try_recv().0, Err(TryRecvError::Empty));
    assert!(s.send_with_permit(r, 1).is_ok());
    assert_eq!(s.try_recv().0, Ok(1));
    assert_eq!(s.try_recv().0, Ok(2));
}

#[test]
fn inner_reservation_of_another_channel_is_refused() {
    let mut a = InnerState::<i32>::new(1);
    let mut b = InnerState::<i32>::new(1);
    let ra = a.try_reserve(1).ok().unwrap();
    assert!(matches!(b.send_with_permit(ra.clone(), 5), Err(5)));
    assert!(b.drop_permit(ra.clone(), 1).is_none());
    assert!(matches!(b.try_send(6), Ok(_)));
    assert!(a.send_with_permit(ra, 7).is_ok());
    assert_eq!(a.try_recv().0, Ok(7));
}

#[test]
fn inner_two_receivers_get_one_value_each() {
    let (_c1, w1) = counting_waker();
    let (_c2, w2) = counting_waker();
    let mut s = InnerState::<i32>::new(2);
    s.try_send(10).ok().unwrap();
    s.try_send(20).ok().unwrap();
    let (mut got1, mut ref1) = (false, None);
    let (mut got2, mut ref2) = (false, None);
    assert!(matches!(s.recv(&w1, &mut got1, &mut ref1).0, Poll::Ready(Ok(10))));
    assert!(matches!(s.recv(&w2, &mut got2, &mut ref2).0, Poll::Ready(Ok(20))));
    assert!(got1 && got2);
    assert_eq!(s.try_recv().0, Err(TryRecvError::Empty));
}

#[test]
fn inner_close_answers_pending_reserve() {
    let (counter, w) = counting_waker();
    let mut s = InnerState::<i32>::new(1);
    s.try_send(1).ok().unwrap();
    let mut waiting = None;
    assert!(matches!(s.reserve(1, &w, &mut waiting), Poll::Pending));
    let (senders, _receivers) = s.close_all_receivers();
    assert_eq!(senders.len(), 1);
    for waker in senders.into_vec() {
        waker.wake();
    }
    assert_eq!(wakes(&counter), 1);
    assert!(matches!(s.reserve(1, &w, &mut waiting), Poll::Ready(Err(ReserveError))));
}
