//! The shared state of a channel: its [InnerState] behind a lock that all its ends share.
//!
//! Each operation takes the lock, lets [InnerState] decide, puts the new state back and then
//! calls the wakers the decision handed out.
use crate::linked_list::{LinkedList, NodeRef};
use crate::queue::Spot;
use crate::state::{
    wake_waker, without_waker, InnerState, Poll, SendWaker,
};
use crate::{Receiver, RecvError, ReserveError, SendError, Sender, TryRecvError, TryReserveError, TrySendError};
use std::sync::Arc;
use std::task::Waker;
use vstd::prelude::*;
use vstd::rwlock::{RwLock, RwLockPredicate, WriteHandle};

verus! {

/// Calls `Arc::clone`, which makes another pointer to the same allocation; the copy therefore
/// holds the very same value.
#[verifier::external_body]
fn share<V>(a: &Arc<V>) -> (res: Arc<V>)
    ensures
        res == *a,
{
    a.clone()
}

/// What the lock of a channel guarantees of the state it holds: it is well-formed, its queue
/// has the channel's capacity, and it is the state of this channel.
pub struct StateInv {
    pub cap: usize,
    pub id: u64,
}

impl<T> RwLockPredicate<InnerState<T>> for StateInv {
    open spec fn inv(self, v: InnerState<T>) -> bool {
        &&& v.wf()
        &&& v.queue().capacity() == self.cap
        &&& v.id() == self.id
    }
}

/// Hands each waiting sender its wake-up.
fn wake_senders(list: LinkedList<SendWaker>)
    requires
        list.wf(),
{
    let mut list = list;
    while !list.is_empty()
        invariant
            list.wf(),
        decreases list@.len(),
    {
        match list.pop_head() {
            Some(send_waker) => send_waker.wake(),
            None => {},
        }
    }
}

/// Hands each waiting receiver its wake-up.
fn wake_receivers(list: LinkedList<Waker>)
    requires
        list.wf(),
{
    let mut list = list;
    while !list.is_empty()
        invariant
            list.wf(),
        decreases list@.len(),
    {
        match list.pop_head() {
            Some(waker) => wake_waker(waker),
            None => {},
        }
    }
}

fn wake_some(waker: Option<Waker>) {
    match waker {
        Some(w) => wake_waker(w),
        None => {},
    }
}

/// The state of a channel, shared by all its senders and receivers behind a lock.
pub struct State<T> {
    inner: Arc<RwLock<InnerState<T>, StateInv>>,
}

impl<T> Clone for State<T> {
    fn clone(&self) -> (s: Self)
        ensures
            s == *self,
    {
        State { inner: share(&self.inner) }
    }
}

impl<T> State<T> {
    /// The capacity of the channel's queue.
    pub closed spec fn capacity(&self) -> nat {
        self.inner.pred().cap as nat
    }

    /// `s` is a state the channel's lock can hold: well-formed, with the channel's capacity.
    /// What the lock holds when an operation takes it depends on the other senders and
    /// receivers, so the contracts below say that each operation does to one such state what
    /// [InnerState] decides.
    pub open spec fn can_hold(&self, s: InnerState<T>) -> bool {
        &&& s.wf()
        &&& s.queue().capacity() == self.capacity()
        &&& s.id() == self.id()
    }

    /// The identity of the channel: the lock holds only states of this channel.
    pub closed spec fn id(&self) -> u64 {
        self.inner.pred().id
    }

    pub fn new(cap: usize) -> (s: Self)
        ensures
            s.capacity() == cap,
    {
        let inner = InnerState::new(cap);
        let ghost id = inner.id();
        State { inner: Arc::new(RwLock::new(inner, Ghost(StateInv { cap, id }))) }
    }

    /// Locks the state. The caller puts it back through the handle.
    pub fn inner_mut(&self) -> (res: (InnerState<T>, WriteHandle<'_, InnerState<T>, StateInv>))
        ensures
            self.can_hold(res.0),
            forall|v: InnerState<T>| #[trigger] res.1.rwlock().inv(v) <==> self.can_hold(v),
    {
        self.inner.acquire_write()
    }

    pub fn new_sender(&self) -> (s: Sender<T>)
        ensures
            s.state() == *self,
            exists|st: InnerState<T>, after: InnerState<T>| #![trigger st.sender_added(&after)]
                self.can_hold(st) && self.can_hold(after) && st.sender_added(&after),
    {
        let (mut inner, handle) = self.inner_mut();
        let ghost before = inner;
        inner.new_sender();
        let ghost after = inner;
        proof {
            assert(before.sender_added(&after));
        }
        handle.release_write(inner);
        Sender::new(self.clone())
    }

    pub fn new_receiver(&self) -> (r: Receiver<T>)
        ensures
            r.state() == *self,
            exists|st: InnerState<T>, after: InnerState<T>| #![trigger st.receiver_added(&after)]
                self.can_hold(st) && self.can_hold(after) && st.receiver_added(&after),
    {
        let (mut inner, handle) = self.inner_mut();
        let ghost before = inner;
        inner.new_receiver();
        let ghost after = inner;
        proof {
            assert(before.receiver_added(&after));
        }
        handle.release_write(inner);
        Receiver::new(self.clone())
    }

    pub fn close_all_receivers(&self)
        ensures
            exists|s: InnerState<T>, after: InnerState<T>| #![trigger s.all_receivers_closed(&after)]
                self.can_hold(s) && self.can_hold(after) && s.all_receivers_closed(&after),
    {
        let (mut inner, handle) = self.inner_mut();
        let ghost before = inner;
        let (send_futures, recv_futures) = inner.close_all_receivers();
        let ghost after = inner;
        proof {
            assert(before.all_receivers_closed(&after));
        }
        handle.release_write(inner);
        wake_senders(send_futures);
        wake_receivers(recv_futures);
    }

    pub fn drop_sender(&self)
        ensures
            exists|s: InnerState<T>, after: InnerState<T>| #![trigger s.sender_dropped(&after)]
                self.can_hold(s) && self.can_hold(after) && s.sender_dropped(&after),
    {
        let (mut inner, handle) = self.inner_mut();
        let ghost before = inner;
        let recv_futures = inner.drop_sender();
        let ghost after = inner;
        proof {
            assert(before.sender_dropped(&after));
        }
        handle.release_write(inner);
        match recv_futures {
            Some(list) => wake_receivers(list),
            None => {},
        }
    }

    pub fn drop_receiver(&self)
        ensures
            exists|s: InnerState<T>, after: InnerState<T>| #![trigger s.receiver_dropped(&after)]
                self.can_hold(s) && self.can_hold(after) && s.receiver_dropped(&after),
    {
        let (mut inner, handle) = self.inner_mut();
        let ghost before = inner;
        let send_futures = inner.drop_receiver();
        let ghost after = inner;
        proof {
            assert(before.receiver_dropped(&after));
        }
        handle.release_write(inner);
        match send_futures {
            Some(list) => wake_senders(list),
            None => {},
        }
    }

    pub fn try_reserve(&self, count: usize) -> (res: Result<NodeRef<Spot<T>>, TryReserveError>)
        ensures
            exists|s: InnerState<T>, after: InnerState<T>|
                #![trigger s.reserved(count, res, &after)]
                self.can_hold(s) && self.can_hold(after) && s.reserved(count, res, &after),
            count > self.capacity() ==> res is Err,
    {
        let (mut inner, handle) = self.inner_mut();
        let ghost before = inner;
        let res = inner.try_reserve(count);
        let ghost after = inner;
        proof {
            assert(before.reserved(count, res, &after));
        }
        handle.release_write(inner);
        res
    }

    pub fn reserve(&self, count: usize, waker: &Waker, send_future: &mut Option<NodeRef<SendWaker>>) -> (res: Poll<Result<NodeRef<Spot<T>>, ReserveError>>)
        ensures
            exists|s: InnerState<T>, after: InnerState<T>|
                #![trigger s.reserve_polled(count, *waker, *old(send_future), res, *final(send_future), &after)]
                self.can_hold(s) && self.can_hold(after) && s.reserve_polled(
                    count,
                    *waker,
                    *old(send_future),
                    res,
                    *final(send_future),
                    &after,
                ),
            count > self.capacity() ==> !(res matches Poll::Ready(Ok(_))),
    {
        let (mut inner, handle) = self.inner_mut();
        let ghost before = inner;
        let ghost fut0 = *send_future;
        let res = inner.reserve(count, waker, send_future);
        let ghost after = inner;
        proof {
            assert(before.reserve_polled(count, *waker, fut0, res, *send_future, &after));
        }
        handle.release_write(inner);
        res
    }

    pub fn send_with_permit(&self, reservation: NodeRef<Spot<T>>, value: T)
        ensures
            exists|s: InnerState<T>, o: Result<Option<Waker>, T>, after: InnerState<T>|
                #![trigger s.permit_sent(reservation, value, o, &after)]
                self.can_hold(s) && self.can_hold(after) && s.permit_sent(reservation, value, o, &after),
    {
        let (mut inner, handle) = self.inner_mut();
        let ghost before = inner;
        let res = inner.send_with_permit(reservation, value);
        let ghost after = inner;
        let ghost o = res;
        proof {
            assert(before.permit_sent(reservation, value, o, &after));
        }
        handle.release_write(inner);
        match res {
            Ok(waker) => wake_some(waker),
            Err(_) => {},
        }
    }

    pub fn drop_permit(&self, reservation: NodeRef<Spot<T>>, count: usize)
        ensures
            exists|s: InnerState<T>, w: Option<Waker>, after: InnerState<T>|
                #![trigger s.permit_dropped(reservation, count, w, &after)]
                self.can_hold(s) && self.can_hold(after) && s.permit_dropped(reservation, count, w, &after),
    {
        let (mut inner, handle) = self.inner_mut();
        let ghost before = inner;
        let sender = inner.drop_permit(reservation, count);
        let ghost after = inner;
        let ghost w = sender;
        proof {
            assert(before.permit_dropped(reservation, count, w, &after));
        }
        handle.release_write(inner);
        wake_some(sender);
    }

    pub fn try_send(&self, value: T) -> (res: Result<(), TrySendError<T>>)
        ensures
            exists|s: InnerState<T>, o: Result<Option<Waker>, TrySendError<T>>, after: InnerState<T>|
                #![trigger s.sent(value, o, &after)]
                self.can_hold(s) && self.can_hold(after) && s.sent(value, o, &after)
                    && res == without_waker(o),
            res matches Err(TrySendError::Full(v)) ==> v == value,
            res matches Err(TrySendError::Disconnected(v)) ==> v == value,
    {
        let (mut inner, handle) = self.inner_mut();
        let ghost before = inner;
        let res = inner.try_send(value);
        let ghost after = inner;
        let ghost o = res;
        handle.release_write(inner);
        let out = match res {
            Ok(waker) => {
                wake_some(waker);
                Ok(())
            },
            Err(e) => Err(e),
        };
        proof {
            assert(before.sent(value, o, &after));
        }
        out
    }

    pub fn try_recv(&self) -> (res: Result<T, TryRecvError>)
        ensures
            exists|s: InnerState<T>, after: InnerState<T>| #![trigger s.received(res, &after)]
                self.can_hold(s) && self.can_hold(after) && s.received(res, &after),
    {
        let (mut inner, handle) = self.inner_mut();
        let ghost before = inner;
        let (res, waker) = inner.try_recv();
        let ghost after = inner;
        proof {
            assert(before.received(res, &after));
        }
        handle.release_write(inner);
        wake_some(waker);
        res
    }

    pub fn try_recv_many(&self, vec: &mut Vec<T>, count: usize) -> (res: Result<usize, TryRecvError>)
        ensures
            exists|s: InnerState<T>, w: Option<Waker>, after: InnerState<T>|
                #![trigger s.received_many(count, old(vec)@, res, w, final(vec)@, &after)]
                self.can_hold(s) && self.can_hold(after) && s.received_many(
                    count,
                    old(vec)@,
                    res,
                    w,
                    final(vec)@,
                    &after,
                ),
            res matches Ok(n) ==> n <= count && final(vec)@.len() == old(vec)@.len() + n
                && final(vec)@.subrange(0, old(vec)@.len() as int) == old(vec)@,
            res is Err ==> final(vec)@ == old(vec)@,
    {
        let (mut inner, handle) = self.inner_mut();
        let ghost before = inner;
        let ghost v0 = vec@;
        let (res, waker) = inner.try_recv_many(vec, count);
        let ghost after = inner;
        let ghost w = waker;
        proof {
            assert(before.received_many(count, v0, res, w, vec@, &after));
        }
        handle.release_write(inner);
        wake_some(waker);
        res
    }

    pub fn send(&self, value: &mut Option<T>, waker: &Waker, waiting: &mut Option<NodeRef<SendWaker>>) -> (res: Poll<Result<(), SendError<T>>>)
        ensures
            exists|s: InnerState<T>, w: Option<Waker>, after: InnerState<T>|
                #![trigger s.send_polled(*waker, *old(value), *old(waiting), res, w, *final(value), *final(waiting), &after)]
                self.can_hold(s) && self.can_hold(after) && s.send_polled(
                    *waker,
                    *old(value),
                    *old(waiting),
                    res,
                    w,
                    *final(value),
                    *final(waiting),
                    &after,
                ),
            res matches Poll::Ready(Err(SendError(v))) ==> *old(value) == Some(v),
            res is Pending ==> *final(value) == *old(value),
            res is Ready ==> *final(value) is None,
    {
        let (mut inner, handle) = self.inner_mut();
        let ghost before = inner;
        let ghost value0 = *value;
        let ghost waiting0 = *waiting;
        let (res, receiver) = inner.send(value, waker, waiting);
        let ghost after = inner;
        let ghost w = receiver;
        proof {
            assert(before.send_polled(*waker, value0, waiting0, res, w, *value, *waiting, &after));
        }
        handle.release_write(inner);
        wake_some(receiver);
        res
    }

    pub fn recv(&self, waker: &Waker, has_received: &mut bool, waker_ref: &mut Option<NodeRef<Waker>>) -> (res: Poll<Result<T, RecvError>>)
        ensures
            exists|s: InnerState<T>, w: Option<Waker>, after: InnerState<T>|
                #![trigger s.recv_polled(*waker, *old(has_received), *old(waker_ref), res, w, *final(has_received), *final(waker_ref), &after)]
                self.can_hold(s) && self.can_hold(after) && s.recv_polled(
                    *waker,
                    *old(has_received),
                    *old(waker_ref),
                    res,
                    w,
                    *final(has_received),
                    *final(waker_ref),
                    &after,
                ),
            res matches Poll::Ready(Ok(_)) ==> *final(has_received),
    {
        let (mut inner, handle) = self.inner_mut();
        let ghost before = inner;
        let ghost received0 = *has_received;
        let ghost ref0 = *waker_ref;
        let (res, sender) = inner.recv(waker, has_received, waker_ref);
        let ghost after = inner;
        let ghost w = sender;
        proof {
            assert(before.recv_polled(*waker, received0, ref0, res, w, *has_received, *waker_ref, &after));
        }
        handle.release_write(inner);
        wake_some(sender);
        res
    }

    pub fn recv_many(&self, waker: &Waker, has_received: &mut bool, waker_ref: &mut Option<NodeRef<Waker>>, vec: &mut Vec<T>, count: usize) -> (res: Poll<Result<usize, RecvError>>)
        ensures
            exists|s: InnerState<T>, w: Option<Waker>, after: InnerState<T>|
                #![trigger s.recv_many_polled(count, *waker, *old(has_received), *old(waker_ref), old(vec)@, res, w, *final(has_received), *final(waker_ref), final(vec)@, &after)]
                self.can_hold(s) && self.can_hold(after) && s.recv_many_polled(
                    count,
                    *waker,
                    *old(has_received),
                    *old(waker_ref),
                    old(vec)@,
                    res,
                    w,
                    *final(has_received),
                    *final(waker_ref),
                    final(vec)@,
                    &after,
                ),
            res matches Poll::Ready(Ok(n)) ==> n <= count && final(vec)@.len() == old(vec)@.len() + n
                && final(vec)@.subrange(0, old(vec)@.len() as int) == old(vec)@,
            !(res matches Poll::Ready(Ok(_))) ==> final(vec)@ == old(vec)@,
    {
        let (mut inner, handle) = self.inner_mut();
        let ghost before = inner;
        let ghost received0 = *has_received;
        let ghost ref0 = *waker_ref;
        let ghost v0 = vec@;
        let (res, sender) = inner.recv_many(waker, has_received, waker_ref, vec, count);
        let ghost after = inner;
        let ghost w = sender;
        proof {
            assert(before.recv_many_polled(count, *waker, received0, ref0, v0, res, w, *has_received, *waker_ref, vec@, &after));
        }
        handle.release_write(inner);
        wake_some(sender);
        res
    }

    pub fn drop_send_future(&self, waiting: &mut Option<NodeRef<SendWaker>>)
        ensures
            *final(waiting) is None,
            exists|s: InnerState<T>, w: Option<Waker>, after: InnerState<T>|
                #![trigger s.send_future_dropped(*old(waiting), w, &after)]
                self.can_hold(s) && self.can_hold(after) && s.send_future_dropped(*old(waiting), w, &after),
    {
        let (mut inner, handle) = self.inner_mut();
        let ghost before = inner;
        let ghost waiting0 = *waiting;
        let sender = inner.drop_send_future(waiting);
        let ghost after = inner;
        let ghost w = sender;
        proof {
            assert(before.send_future_dropped(waiting0, w, &after));
        }
        handle.release_write(inner);
        wake_some(sender);
    }

    pub fn drop_reserve_future(&self, waiting: &mut Option<NodeRef<SendWaker>>)
        ensures
            *final(waiting) is None,
            exists|s: InnerState<T>, w: Option<Waker>, after: InnerState<T>|
                #![trigger s.send_future_dropped(*old(waiting), w, &after)]
                self.can_hold(s) && self.can_hold(after) && s.send_future_dropped(*old(waiting), w, &after),
    {
        self.drop_send_future(waiting)
    }

    pub fn drop_recv_future(&self, has_received: bool, waker_ref: &mut Option<NodeRef<Waker>>)
        ensures
            *final(waker_ref) is None,
            exists|s: InnerState<T>, w: Option<Waker>, after: InnerState<T>|
                #![trigger s.recv_future_dropped(has_received, *old(waker_ref), w, &after)]
                self.can_hold(s) && self.can_hold(after) && s.recv_future_dropped(
                    has_received,
                    *old(waker_ref),
                    w,
                    &after,
                ),
    {
        let (mut inner, handle) = self.inner_mut();
        let ghost before = inner;
        let ghost ref0 = *waker_ref;
        let receiver = inner.drop_recv_future(has_received, waker_ref);
        let ghost after = inner;
        let ghost w = receiver;
        proof {
            assert(before.recv_future_dropped(has_received, ref0, w, &after));
        }
        handle.release_write(inner);
        wake_some(receiver);
    }
}



} // verus!
