//! The state shared by all senders and receivers of a channel: the queue, the number of
//! senders and receivers, and the tasks waiting to send or to receive.
//!
//! [InnerState] holds the decisions; each of its methods takes the state and an event and
//! gives the next state and the wakers to call. [State] (in [crate::shared]) puts it behind a
//! lock shared by all ends of the channel, and calls the wakers once the lock is released.
use crate::linked_list::{hash_unit, new_random_state, LinkedList, NodeRef};
use crate::queue::{lemma_occupied_concat, occupied, Queue, Release, Spot};
use crate::{RecvError, ReserveError, SendError, TryRecvError, TryReserveError, TrySendError};
use std::task::Waker;
use vstd::prelude::*;
use vstd::pervasive::cloned;

pub use crate::shared::State;

verus! {

/// Declares `std::task::Waker`, the handle that wakes a task, as an opaque outside type.
#[verifier::external_type_specification]
#[verifier::external_body]
pub struct ExWaker(std::task::Waker);

/// Calls `Waker::wake`, which tells the executor to poll the task that registered the waker.
/// Nothing is stated: the effect lies outside the program's values. The call runs the
/// executor's own code, so the library's promise not to panic holds only for wakers that do
/// not panic.
#[verifier::external_body]
pub(crate) fn wake_waker(waker: Waker) {
    waker.wake()
}

/// Calls `Waker::wake_by_ref`, which does what `Waker::wake` does without consuming the waker.
/// Nothing is stated.
#[verifier::external_body]
fn wake_waker_by_ref(waker: &Waker) {
    waker.wake_by_ref()
}

/// Calls `Waker::clone`. A waker's contents are opaque; the result is what `Clone::clone`
/// gives for it, and nothing more is stated.
#[verifier::external_body]
fn clone_waker(waker: &Waker) -> (res: Waker)
    ensures
        cloned::<Waker>(*waker, res),
{
    waker.clone()
}

/// The outcome of a step of a future: a result, or a promise to be woken.
pub enum Poll<T> {
    Ready(T),
    Pending,
}

/// A sender waiting for room for `count` values.
pub struct SendWaker {
    count: usize,
    waker: Waker,
}

impl SendWaker {
    /// The number of places the sender waits for.
    pub closed spec fn waiting_count(&self) -> usize {
        self.count
    }

    /// The waker of the waiting task.
    pub closed spec fn waker(&self) -> Waker {
        self.waker
    }

    pub fn new(count: usize, waker: Waker) -> (s: Self)
        ensures
            s.waiting_count() == count,
            s.waker() == waker,
    {
        Self { count, waker }
    }

    pub fn count(&self) -> (n: usize)
        ensures
            n == self.waiting_count(),
    {
        self.count
    }

    pub fn wake(self) {
        wake_waker(self.waker)
    }

    pub fn wake_by_ref(&self) {
        wake_waker_by_ref(&self.waker)
    }
}

impl Clone for SendWaker {
    fn clone(&self) -> (s: Self)
        ensures
            s.waiting_count() == self.waiting_count(),
            cloned::<Waker>(self.waker(), s.waker()),
    {
        SendWaker { count: self.count, waker: clone_waker(&self.waker) }
    }
}

/// The outcome of a send without waiting, the handed-out receiver left aside.
pub open spec fn without_waker<T>(o: Result<Option<Waker>, TrySendError<T>>) -> Result<(), TrySendError<T>> {
    match o {
        Ok(_) => Ok(()),
        Err(e) => Err(e),
    }
}

/// The handle is present and its entry is in the list.
pub open spec fn waiting_in<W>(l: LinkedList<W>, fut: Option<NodeRef<W>>) -> bool {
    match fut {
        Some(f) => l.contains_ref(f),
        None => false,
    }
}

/// The number of values at the front of the spots, before the first reservation.
pub open spec fn ready_prefix<T>(spots: Seq<Spot<T>>) -> nat
    decreases spots.len(),
{
    if spots.len() > 0 && spots[0] is Value {
        1 + ready_prefix(spots.drop_first())
    } else {
        0
    }
}

/// The values held by the spots.
pub open spec fn values_of<T>(spots: Seq<Spot<T>>) -> Seq<T> {
    spots.map_values(|s: Spot<T>| s->Value_0)
}

pub struct InnerState<T> {
    queue: Queue<T>,
    /// Total of created receivers.
    receivers_count: usize,
    /// Total of created senders.
    senders_count: usize,
    /// Senders waiting to send.
    send_futures: LinkedList<SendWaker>,
    /// Receivers waiting to receive.
    recv_futures: LinkedList<Waker>,
    /// False by default, true when all senders or all receivers are dropped.
    disconnected: bool,
    /// The identity of the channel whose state this is, drawn at random when it is made.
    id: u64,
}

impl<T> InnerState<T> {
    pub closed spec fn queue(&self) -> Queue<T> {
        self.queue
    }

    /// The identity of the channel whose state this is.
    pub closed spec fn id(&self) -> u64 {
        self.id
    }

    pub closed spec fn senders(&self) -> usize {
        self.senders_count
    }

    pub closed spec fn receivers(&self) -> usize {
        self.receivers_count
    }

    pub closed spec fn disconnected(&self) -> bool {
        self.disconnected
    }

    pub closed spec fn send_waiters(&self) -> LinkedList<SendWaker> {
        self.send_futures
    }

    pub closed spec fn recv_waiters(&self) -> LinkedList<Waker> {
        self.recv_futures
    }

    pub closed spec fn wf(&self) -> bool {
        &&& self.queue.wf()
        &&& self.send_futures.wf()
        &&& self.recv_futures.wf()
    }

    /// Facts about a well-formed state: its queue and its lists of waiting senders and
    /// receivers are well-formed.
    pub proof fn lemma_model(&self)
        requires
            self.wf(),
        ensures
            self.queue().wf(),
            self.send_waiters().wf(),
            self.recv_waiters().wf(),
    {
    }

    /// `after` is this state with one more sender counted (the count stops at `usize::MAX`);
    /// nothing else changes.
    pub open spec fn sender_added(&self, after: &Self) -> bool {
        &&& after.senders() == (if self.senders() < usize::MAX {
            self.senders() + 1
        } else {
            self.senders() as int
        })
        &&& after.receivers() == self.receivers()
        &&& after.disconnected() == self.disconnected()
        &&& after.queue() == self.queue()
        &&& after.send_waiters() == self.send_waiters()
        &&& after.recv_waiters() == self.recv_waiters()
    }

    /// `after` is this state with one more receiver counted (the count stops at `usize::MAX`);
    /// nothing else changes.
    pub open spec fn receiver_added(&self, after: &Self) -> bool {
        &&& after.receivers() == (if self.receivers() < usize::MAX {
            self.receivers() + 1
        } else {
            self.receivers() as int
        })
        &&& after.senders() == self.senders()
        &&& after.disconnected() == self.disconnected()
        &&& after.queue() == self.queue()
        &&& after.send_waiters() == self.send_waiters()
        &&& after.recv_waiters() == self.recv_waiters()
    }

    /// `after` is this state with every receiver closed: the channel is disconnected and no
    /// sender or receiver waits any more; the queue and the counts are unchanged.
    pub open spec fn all_receivers_closed(&self, after: &Self) -> bool {
        &&& after.disconnected()
        &&& after.send_waiters()@ == Seq::<SendWaker>::empty()
        &&& after.recv_waiters()@ == Seq::<Waker>::empty()
        &&& after.senders() == self.senders()
        &&& after.receivers() == self.receivers()
        &&& after.queue() == self.queue()
    }

    /// `after` is this state with one sender less: the count goes down (not below zero), and
    /// when it reaches zero the channel is disconnected and no receiver waits any more.
    pub open spec fn sender_dropped(&self, after: &Self) -> bool {
        &&& after.senders() == (if self.senders() > 0 {
            self.senders() - 1
        } else {
            0
        })
        &&& after.senders() == 0 ==> after.disconnected() && after.recv_waiters()@ == Seq::<
            Waker,
        >::empty()
        &&& after.senders() > 0 ==> after.disconnected() == self.disconnected()
            && after.recv_waiters() == self.recv_waiters()
        &&& after.receivers() == self.receivers()
        &&& after.queue() == self.queue()
        &&& after.send_waiters() == self.send_waiters()
    }

    /// `after` is this state with one receiver less: the count goes down (not below zero), and
    /// when it reaches zero the channel is disconnected and no sender waits any more.
    pub open spec fn receiver_dropped(&self, after: &Self) -> bool {
        &&& after.receivers() == (if self.receivers() > 0 {
            self.receivers() - 1
        } else {
            0
        })
        &&& after.receivers() == 0 ==> after.disconnected() && after.send_waiters()@ == Seq::<
            SendWaker,
        >::empty()
        &&& after.receivers() > 0 ==> after.disconnected() == self.disconnected()
            && after.send_waiters() == self.send_waiters()
        &&& after.senders() == self.senders()
        &&& after.queue() == self.queue()
        &&& after.recv_waiters() == self.recv_waiters()
    }

    /// `after` and `outcome` are what filling one place of `reservation` with `value` makes of
    /// this state: the value takes the place (see [Queue::written]) and the first waiting
    /// receiver is handed out; a handle that does not hold a reservation of at least one place
    /// gets the value back, and nothing changes.
    pub open spec fn permit_sent(
        &self,
        reservation: NodeRef<Spot<T>>,
        value: T,
        outcome: Result<Option<Waker>, T>,
        after: &Self,
    ) -> bool {
        let q = self.queue();
        let l = self.recv_waiters();
        &&& q.holds_reservation(reservation) ==> (outcome matches Ok(w) && q.written(
            reservation,
            value,
            after.queue(),
        ) && occupied(after.queue()@) == occupied(q@) && q.spots().keeps_handles(
            &after.queue().spots(),
        ) && (l@.len() == 0 ==> w is None && after.recv_waiters() == l) && (l@.len() > 0 ==> w
            == Some(l@[0]) && after.recv_waiters()@ == l@.drop_first()
            && after.recv_waiters().keys() == l.keys().drop_first()))
        &&& !q.holds_reservation(reservation) ==> outcome == Err::<Option<Waker>, T>(value)
            && *after == *self
        &&& after.queue().capacity() == q.capacity()
        &&& after.same_ends(self)
        &&& after.send_waiters() == self.send_waiters()
    }

    /// The counts of senders and receivers and the disconnection flag are the same.
    pub open spec fn same_ends(&self, other: &Self) -> bool {
        &&& self.senders() == other.senders()
        &&& self.receivers() == other.receivers()
        &&& self.disconnected() == other.disconnected()
    }

    /// `after` and `outcome` are what sending `value` without waiting makes of this state: the
    /// value joins the back of the queue when there is room for it, and the first waiting
    /// receiver is handed out; otherwise the value comes back in the error and nothing changes.
    pub open spec fn sent(&self, value: T, outcome: Result<Option<Waker>, TrySendError<T>>, after: &Self) -> bool {
        let q = self.queue();
        let l = self.recv_waiters();
        &&& self.disconnected() ==> outcome == Err::<Option<Waker>, TrySendError<T>>(
            TrySendError::Disconnected(value),
        ) && *after == *self
        &&& !self.disconnected() && occupied(q@) + 1 > q.capacity() ==> outcome == Err::<
            Option<Waker>,
            TrySendError<T>,
        >(TrySendError::Full(value)) && *after == *self
        &&& !self.disconnected() && occupied(q@) + 1 <= q.capacity() ==> (outcome matches Ok(w)
            && after.queue()@ == q@.push(Spot::Value(value)) && (exists|r: NodeRef<Spot<T>>|
            after.queue().keys() == q.keys().push(r.key()) && !q.spots().issued(r)) && (l@.len()
            == 0 ==> w is None && after.recv_waiters() == l) && (l@.len() > 0 ==> w == Some(l@[0])
            && after.recv_waiters()@ == l@.drop_first() && after.recv_waiters().keys()
            == l.keys().drop_first()))
        &&& after.queue().capacity() == q.capacity()
        &&& after.same_ends(self)
        &&& after.send_waiters() == self.send_waiters()
    }

    /// `after` and `outcome` are what receiving without waiting makes of this state: the next
    /// value when it is ready, and otherwise an error and no change; the error is
    /// `Disconnected` only when the queue is empty and the channel disconnected.
    pub open spec fn received(&self, outcome: Result<T, TryRecvError>, after: &Self) -> bool {
        let q = self.queue()@;
        &&& q.len() > 0 && q[0] is Value ==> outcome == Ok::<T, TryRecvError>(q[0]->Value_0)
            && after.queue()@ == q.drop_first() && after.queue().keys() == self.queue().keys().drop_first()
        &&& !(q.len() > 0 && q[0] is Value) ==> *after == *self && outcome == Err::<T, TryRecvError>(
            if q.len() == 0 && self.disconnected() {
                TryRecvError::Disconnected
            } else {
                TryRecvError::Empty
            },
        )
        &&& after.queue().capacity() == self.queue().capacity()
        &&& after.same_ends(self)
        &&& after.send_waiters() == self.send_waiters()
        &&& after.recv_waiters() == self.recv_waiters()
    }

    /// The queue has room for the first waiting sender.
    pub open spec fn first_sender_fits(&self) -> bool {
        &&& self.send_waiters()@.len() > 0
        &&& occupied(self.queue()@) + self.send_waiters()@[0].waiting_count()
            <= self.queue().capacity()
    }

    /// `woken` is a copy of the first waiting sender's waker when the queue has room for that
    /// sender, and nothing otherwise.
    pub open spec fn wakes_first_sender(&self, woken: Option<Waker>) -> bool {
        &&& woken is Some <==> self.first_sender_fits()
        &&& woken matches Some(x) ==> cloned::<Waker>(self.send_waiters()@[0].waker(), x)
    }

    /// A receiver has something to act on: a value to read, or the news that none will come.
    pub open spec fn receiver_can_proceed(&self) -> bool {
        ||| self.queue()@.len() > 0 && self.queue()@[0] is Value
        ||| self.queue()@.len() == 0 && self.disconnected()
    }

    pub fn new(cap: usize) -> (s: Self)
        ensures
            s.wf(),
            s.queue()@ == Seq::<Spot<T>>::empty(),
            s.queue().capacity() == cap,
            s.senders() == 0,
            s.receivers() == 0,
            !s.disconnected(),
            s.send_waiters()@ == Seq::<SendWaker>::empty(),
            s.recv_waiters()@ == Seq::<Waker>::empty(),
    {
        Self {
            queue: Queue::new(cap),
            receivers_count: 0,
            senders_count: 0,
            send_futures: LinkedList::new(),
            recv_futures: LinkedList::new(),
            disconnected: false,
            id: hash_unit(&new_random_state()),
        }
    }

    /// Counts one more sender. The count stops at `usize::MAX`.
    pub fn new_sender(&mut self)
        requires
            old(self).wf(),
        ensures
            final(self).id() == old(self).id(),
            final(self).wf(),
            final(self).senders() == (if old(self).senders() < usize::MAX {
                old(self).senders() + 1
            } else {
                old(self).senders() as int
            }),
            final(self).receivers() == old(self).receivers(),
            final(self).disconnected() == old(self).disconnected(),
            final(self).queue() == old(self).queue(),
            final(self).send_waiters() == old(self).send_waiters(),
            final(self).recv_waiters() == old(self).recv_waiters(),
            old(self).sender_added(&*final(self)),
    {
        if self.senders_count < usize::MAX {
            self.senders_count = self.senders_count + 1;
        }
    }

    /// Counts one more receiver. The count stops at `usize::MAX`.
    pub fn new_receiver(&mut self)
        requires
            old(self).wf(),
        ensures
            final(self).id() == old(self).id(),
            final(self).wf(),
            final(self).receivers() == (if old(self).receivers() < usize::MAX {
                old(self).receivers() + 1
            } else {
                old(self).receivers() as int
            }),
            final(self).senders() == old(self).senders(),
            final(self).disconnected() == old(self).disconnected(),
            final(self).queue() == old(self).queue(),
            final(self).send_waiters() == old(self).send_waiters(),
            final(self).recv_waiters() == old(self).recv_waiters(),
            old(self).receiver_added(&*final(self)),
    {
        if self.receivers_count < usize::MAX {
            self.receivers_count = self.receivers_count + 1;
        }
    }

    pub fn try_reserve(&mut self, count: usize) -> (res: Result<NodeRef<Spot<T>>, TryReserveError>)
        requires
            old(self).wf(),
        ensures
            final(self).id() == old(self).id(),
            final(self).wf(),
            old(self).reserved(count, res, &*final(self)),
    {
        if self.disconnected {
            Err(TryReserveError::Disconnected)
        } else {
            match self.queue.try_reserve(count) {
                Some(r) => Ok(r),
                None => Err(TryReserveError::Full),
            }
        }
    }

    fn mark_disconnected_and_take_send_futures(&mut self) -> (taken: LinkedList<SendWaker>)
        requires
            old(self).wf(),
        ensures
            final(self).id() == old(self).id(),
            final(self).wf(),
            taken == old(self).send_waiters(),
            taken.wf(),
            final(self).disconnected(),
            final(self).send_waiters()@ == Seq::<SendWaker>::empty(),
            final(self).senders() == old(self).senders(),
            final(self).receivers() == old(self).receivers(),
            final(self).queue() == old(self).queue(),
            final(self).recv_waiters() == old(self).recv_waiters(),
    {
        self.disconnected = true;
        let mut taken = LinkedList::new();
        std::mem::swap(&mut taken, &mut self.send_futures);
        taken
    }

    fn mark_disconnected_and_take_recv_futures(&mut self) -> (taken: LinkedList<Waker>)
        requires
            old(self).wf(),
        ensures
            final(self).id() == old(self).id(),
            final(self).wf(),
            taken == old(self).recv_waiters(),
            taken.wf(),
            final(self).disconnected(),
            final(self).recv_waiters()@ == Seq::<Waker>::empty(),
            final(self).senders() == old(self).senders(),
            final(self).receivers() == old(self).receivers(),
            final(self).queue() == old(self).queue(),
            final(self).send_waiters() == old(self).send_waiters(),
    {
        self.disconnected = true;
        let mut taken = LinkedList::new();
        std::mem::swap(&mut taken, &mut self.recv_futures);
        taken
    }
}


impl<T> InnerState<T> {
    /// `after` and `outcome` are what a reservation of `count` places made without waiting
    /// makes of this state: an error when the channel is disconnected or has no room, and
    /// otherwise a reservation at the back of the queue under a new handle.
    pub open spec fn reserved(
        &self,
        count: usize,
        outcome: Result<NodeRef<Spot<T>>, TryReserveError>,
        after: &Self,
    ) -> bool {
        let q = self.queue();
        &&& self.disconnected() ==> outcome == Err::<NodeRef<Spot<T>>, TryReserveError>(
            TryReserveError::Disconnected,
        ) && *after == *self
        &&& !self.disconnected() && occupied(q@) + count > q.capacity() ==> outcome == Err::<
            NodeRef<Spot<T>>,
            TryReserveError,
        >(TryReserveError::Full) && *after == *self
        &&& !self.disconnected() && occupied(q@) + count <= q.capacity() ==> (outcome matches Ok(r)
            && after.queue()@ == q@.push(Spot::Reserved(count))
            && after.queue().keys() == q.keys().push(r.key()) && !q.spots().issued(r))
        &&& after.queue().capacity() == q.capacity()
        &&& q.spots().keeps_handles(&after.queue().spots())
        &&& after.same_ends(self)
        &&& after.send_waiters() == self.send_waiters()
        &&& after.recv_waiters() == self.recv_waiters()
    }

    /// `after`, `outcome` and `after_vec` are what receiving up to `count` values without
    /// waiting makes of this state and of `before_vec`: the ready values at the front of the
    /// queue, as many as `count` allows, move to the back of the vector; when there is none
    /// (and `count` is not zero) nothing changes and the error tells whether more can come.
    /// `woken` is handed out when values were taken and the first waiting sender now fits.
    pub open spec fn received_many(
        &self,
        count: usize,
        before_vec: Seq<T>,
        outcome: Result<usize, TryRecvError>,
        woken: Option<Waker>,
        after_vec: Seq<T>,
        after: &Self,
    ) -> bool {
        let q = self.queue()@;
        let n = if count <= ready_prefix(q) {
            count as nat
        } else {
            ready_prefix(q)
        };
        &&& (n > 0 || count == 0) ==> outcome == Ok::<usize, TryRecvError>(n as usize)
            && after.queue()@ == q.subrange(n as int, q.len() as int)
            && after.queue().keys() == self.queue().keys().subrange(n as int, q.len() as int)
            && after_vec == before_vec + values_of(q.subrange(0, n as int))
            && (n > 0 ==> after.wakes_first_sender(woken)) && (n == 0 ==> woken is None)
        &&& !(n > 0 || count == 0) ==> woken is None && *after == *self && after_vec == before_vec
            && outcome == Err::<usize, TryRecvError>(
            if q.len() == 0 && self.disconnected() {
                TryRecvError::Disconnected
            } else {
                TryRecvError::Empty
            },
        )
        &&& after.queue().capacity() == self.queue().capacity()
        &&& self.queue().spots().keeps_handles(&after.queue().spots())
        &&& after.same_ends(self)
        &&& after.send_waiters() == self.send_waiters()
        &&& after.recv_waiters() == self.recv_waiters()
    }

    /// `after`, `outcome` and `after_send_future` are what a poll for a reservation of `count`
    /// places makes of this state and of the poller's registration `before_send_future`.
    pub open spec fn reserve_polled(
        &self,
        count: usize,
        waker: Waker,
        before_send_future: Option<NodeRef<SendWaker>>,
        outcome: Poll<Result<NodeRef<Spot<T>>, ReserveError>>,
        after_send_future: Option<NodeRef<SendWaker>>,
        after: &Self,
    ) -> bool {
        let q = self.queue();
        &&& self.disconnected() ==> outcome == Poll::Ready(
            Err::<NodeRef<Spot<T>>, ReserveError>(ReserveError),
        ) && *after == *self && after_send_future == before_send_future
        &&& !self.disconnected() && occupied(q@) + count > q.capacity() ==> outcome is Pending
            && after.queue() == q && (before_send_future is None ==> (after_send_future matches Some(
            f,
        ) && self.sender_registered(count, waker, f, after))) && (before_send_future is Some
            ==> after_send_future == before_send_future && *after == *self)
        &&& !self.disconnected() && occupied(q@) + count <= q.capacity() ==> (outcome matches Poll::Ready(
            Ok(r),
        ) && after.queue()@ == q@.push(Spot::Reserved(count)) && after.queue().keys()
            == q.keys().push(r.key()) && !q.spots().issued(r) && after_send_future is None
            && self.sender_unregistered(before_send_future, after))
        &&& after.queue().capacity() == q.capacity()
        &&& q.spots().keeps_handles(&after.queue().spots())
        &&& after.same_ends(self)
        &&& after.recv_waiters() == self.recv_waiters()
    }

    /// `after`, `outcome`, `woken`, `after_value` and `after_waiting` are what a poll to send
    /// `before_value` makes of this state and of the poller's registration `before_waiting`.
    pub open spec fn send_polled(
        &self,
        waker: Waker,
        before_value: Option<T>,
        before_waiting: Option<NodeRef<SendWaker>>,
        outcome: Poll<Result<(), SendError<T>>>,
        woken: Option<Waker>,
        after_value: Option<T>,
        after_waiting: Option<NodeRef<SendWaker>>,
        after: &Self,
    ) -> bool {
        let q = self.queue();
        &&& before_value is None ==> outcome == Poll::Ready(Ok::<(), SendError<T>>(())) && woken is None
            && *after == *self && after_value is None && after_waiting == before_waiting
        &&& before_value is Some && self.disconnected() ==> outcome == Poll::Ready(
            Err::<(), SendError<T>>(SendError(before_value->0)),
        ) && woken is None && *after == *self && after_value is None && after_waiting
            == before_waiting
        &&& before_value is Some && !self.disconnected() && occupied(q@) + 1 > q.capacity()
            ==> outcome is Pending && woken is None && after_value == before_value && after.queue()
            == q && (before_waiting is None ==> (after_waiting matches Some(f)
            && self.sender_registered(1, waker, f, after))) && (before_waiting is Some ==> after_waiting
            == before_waiting && *after == *self)
        &&& before_value is Some && !self.disconnected() && occupied(q@) + 1 <= q.capacity()
            ==> outcome == Poll::Ready(Ok::<(), SendError<T>>(())) && after_value is None
            && after.queue()@ == q@.push(Spot::Value(before_value->0)) && (exists|r: NodeRef<
            Spot<T>,
        >| after.queue().keys() == q.keys().push(r.key()) && !q.spots().issued(r))
            && after_waiting is None
            && self.sender_unregistered(before_waiting, after) && (self.recv_waiters()@.len() == 0
            ==> woken is None && after.recv_waiters() == self.recv_waiters()) && (
        self.recv_waiters()@.len() > 0 ==> woken == Some(self.recv_waiters()@[0])
            && after.recv_waiters()@ == self.recv_waiters()@.drop_first())
        &&& after.queue().capacity() == q.capacity()
        &&& q.spots().keeps_handles(&after.queue().spots())
        &&& after.same_ends(self)
    }

    /// `after`, `outcome`, `woken` and the poller's flag and registration after the poll are
    /// what a poll to receive a value makes of this state and of the poller's
    /// `before_has_received` and `before_waker_ref`.
    pub open spec fn recv_polled(
        &self,
        waker: Waker,
        before_has_received: bool,
        before_waker_ref: Option<NodeRef<Waker>>,
        outcome: Poll<Result<T, RecvError>>,
        woken: Option<Waker>,
        after_has_received: bool,
        after_waker_ref: Option<NodeRef<Waker>>,
        after: &Self,
    ) -> bool {
        let q = self.queue()@;
        &&& q.len() > 0 && q[0] is Value ==> outcome == Poll::Ready(Ok::<T, RecvError>(q[0]->Value_0))
            && after.queue()@ == q.drop_first() && after.queue().keys()
            == self.queue().keys().drop_first() && after_has_received && after_waker_ref is None
            && self.receiver_unregistered(before_waker_ref, after) && after.wakes_first_sender(woken)
        &&& q.len() == 0 && self.disconnected() ==> outcome == Poll::Ready(
            Err::<T, RecvError>(RecvError),
        ) && woken is None && after.queue() == self.queue() && after_has_received
            == before_has_received && after_waker_ref is None && self.receiver_unregistered(
            before_waker_ref,
            after,
        )
        &&& !(q.len() > 0 && q[0] is Value) && !(q.len() == 0 && self.disconnected()) ==> outcome is Pending
            && woken is None && after.queue() == self.queue() && after_has_received
            == before_has_received && (waiting_in(self.recv_waiters(), before_waker_ref)
            ==> after_waker_ref == before_waker_ref && *after == *self) && (!waiting_in(
            self.recv_waiters(),
            before_waker_ref,
        ) ==> (after_waker_ref matches Some(f) && self.receiver_registered(waker, f, after)))
        &&& after.queue().capacity() == self.queue().capacity()
        &&& self.queue().spots().keeps_handles(&after.queue().spots())
        &&& after.same_ends(self)
        &&& after.send_waiters() == self.send_waiters()
    }

    /// What a poll to receive up to `count` values into the vector makes of this state, of the
    /// vector and of the poller's flag and registration, as [InnerState::recv_polled] says for
    /// one value.
    pub open spec fn recv_many_polled(
        &self,
        count: usize,
        waker: Waker,
        before_has_received: bool,
        before_waker_ref: Option<NodeRef<Waker>>,
        before_vec: Seq<T>,
        outcome: Poll<Result<usize, RecvError>>,
        woken: Option<Waker>,
        after_has_received: bool,
        after_waker_ref: Option<NodeRef<Waker>>,
        after_vec: Seq<T>,
        after: &Self,
    ) -> bool {
        let q = self.queue()@;
        let n = if count <= ready_prefix(q) {
            count as nat
        } else {
            ready_prefix(q)
        };
        &&& (n > 0 || count == 0) ==> outcome == Poll::Ready(Ok::<usize, RecvError>(n as usize))
            && after.queue()@ == q.subrange(n as int, q.len() as int) && after.queue().keys()
            == self.queue().keys().subrange(n as int, q.len() as int) && after_vec == before_vec
            + values_of(q.subrange(0, n as int)) && after_has_received == (before_has_received || n
            > 0) && after_waker_ref is None && self.receiver_unregistered(before_waker_ref, after)
            && (n > 0 ==> after.wakes_first_sender(woken)) && (n == 0 ==> woken is None)
        &&& !(n > 0 || count == 0) && q.len() == 0 && self.disconnected() ==> outcome == Poll::Ready(
            Err::<usize, RecvError>(RecvError),
        ) && woken is None && after.queue() == self.queue() && after_vec == before_vec
            && after_has_received == before_has_received && after_waker_ref is None
            && self.receiver_unregistered(before_waker_ref, after)
        &&& !(n > 0 || count == 0) && !(q.len() == 0 && self.disconnected()) ==> outcome is Pending
            && woken is None && after.queue() == self.queue() && after_vec == before_vec
            && after_has_received == before_has_received && (waiting_in(
            self.recv_waiters(),
            before_waker_ref,
        ) ==> after_waker_ref == before_waker_ref && *after == *self) && (!waiting_in(
            self.recv_waiters(),
            before_waker_ref,
        ) ==> (after_waker_ref matches Some(f) && self.receiver_registered(waker, f, after)))
        &&& after.queue().capacity() == self.queue().capacity()
        &&& self.queue().spots().keeps_handles(&after.queue().spots())
        &&& after.same_ends(self)
        &&& after.send_waiters() == self.send_waiters()
    }
}

/// Past the first `n` ready values, the spots start with the rest of the ready values.
pub proof fn lemma_ready_prefix<T>(s: Seq<Spot<T>>, n: int)
    requires
        0 <= n <= ready_prefix(s),
    ensures
        n <= s.len(),
        ready_prefix(s.subrange(n, s.len() as int)) == ready_prefix(s) - n,
        forall|i: int| 0 <= i < n ==> #[trigger] s[i] is Value,
    decreases n,
{
    if n > 0 {
        lemma_ready_prefix(s.drop_first(), n - 1);
        assert(s.drop_first().subrange(n - 1, s.drop_first().len() as int) =~= s.subrange(n, s.len() as int));
        assert forall|i: int| 0 <= i < n implies #[trigger] s[i] is Value by {
            if i > 0 {
                assert(s[i] == s.drop_first()[i - 1]);
            }
        }
    } else {
        assert(s.subrange(0, s.len() as int) =~= s);
    }
}

impl<T> InnerState<T> {
    /// Disconnects the channel and hands out every waiting sender and receiver.
    pub fn close_all_receivers(&mut self) -> (taken: (LinkedList<SendWaker>, LinkedList<Waker>))
        requires
            old(self).wf(),
        ensures
            final(self).id() == old(self).id(),
            final(self).wf(),
            taken.0 == old(self).send_waiters(),
            taken.1 == old(self).recv_waiters(),
            taken.0.wf(),
            taken.1.wf(),
            final(self).disconnected(),
            final(self).send_waiters()@ == Seq::<SendWaker>::empty(),
            final(self).recv_waiters()@ == Seq::<Waker>::empty(),
            final(self).senders() == old(self).senders(),
            final(self).receivers() == old(self).receivers(),
            final(self).queue() == old(self).queue(),
            old(self).all_receivers_closed(&*final(self)),
    {
        let send_futures = self.mark_disconnected_and_take_send_futures();
        let recv_futures = self.mark_disconnected_and_take_recv_futures();
        (send_futures, recv_futures)
    }

    /// Counts one sender less; when none is left the channel is disconnected and the waiting
    /// receivers are handed out.
    pub fn drop_sender(&mut self) -> (taken: Option<LinkedList<Waker>>)
        requires
            old(self).wf(),
        ensures
            final(self).id() == old(self).id(),
            final(self).wf(),
            final(self).senders() == (if old(self).senders() > 0 {
                old(self).senders() - 1
            } else {
                0
            }),
            final(self).senders() == 0 ==> taken == Some(old(self).recv_waiters())
                && final(self).disconnected() && final(self).recv_waiters()@ == Seq::<Waker>::empty(),
            final(self).senders() > 0 ==> taken is None && final(self).disconnected() == old(self).disconnected() && final(self).recv_waiters() == old(self).recv_waiters(),
            taken matches Some(l) ==> l.wf(),
            final(self).receivers() == old(self).receivers(),
            final(self).queue() == old(self).queue(),
            final(self).send_waiters() == old(self).send_waiters(),
            old(self).sender_dropped(&*final(self)),
    {
        if self.senders_count > 0 {
            self.senders_count = self.senders_count - 1;
        }
        if self.senders_count == 0 {
            Some(self.mark_disconnected_and_take_recv_futures())
        } else {
            None
        }
    }

    /// Counts one receiver less; when none is left the channel is disconnected and the waiting
    /// senders are handed out.
    pub fn drop_receiver(&mut self) -> (taken: Option<LinkedList<SendWaker>>)
        requires
            old(self).wf(),
        ensures
            final(self).id() == old(self).id(),
            final(self).wf(),
            final(self).receivers() == (if old(self).receivers() > 0 {
                old(self).receivers() - 1
            } else {
                0
            }),
            final(self).receivers() == 0 ==> taken == Some(old(self).send_waiters())
                && final(self).disconnected() && final(self).send_waiters()@
                == Seq::<SendWaker>::empty(),
            final(self).receivers() > 0 ==> taken is None && final(self).disconnected() == old(self).disconnected() && final(self).send_waiters() == old(self).send_waiters(),
            taken matches Some(l) ==> l.wf(),
            final(self).senders() == old(self).senders(),
            final(self).queue() == old(self).queue(),
            final(self).recv_waiters() == old(self).recv_waiters(),
            old(self).receiver_dropped(&*final(self)),
    {
        if self.receivers_count > 0 {
            self.receivers_count = self.receivers_count - 1;
        }
        if self.receivers_count == 0 {
            Some(self.mark_disconnected_and_take_send_futures())
        } else {
            None
        }
    }

    /// A copy of the waker of the first waiting sender, when the queue has room for it.
    fn sender_to_wake(&self) -> (w: Option<Waker>)
        requires
            self.wf(),
        ensures
            self.wakes_first_sender(w),
    {
        match self.send_futures.head() {
            Some(send_waker) => {
                if self.queue.has_room_for(send_waker.count) {
                    Some(clone_waker(&send_waker.waker))
                } else {
                    None
                }
            },
            None => None,
        }
    }

    /// Takes the first waiting receiver, if any.
    fn pop_receiver(&mut self) -> (w: Option<Waker>)
        requires
            old(self).wf(),
        ensures
            final(self).id() == old(self).id(),
            final(self).wf(),
            old(self).recv_waiters()@.len() == 0 ==> w is None && final(self).recv_waiters()
                == old(self).recv_waiters(),
            old(self).recv_waiters()@.len() > 0 ==> w == Some(old(self).recv_waiters()@[0])
                && final(self).recv_waiters()@ == old(self).recv_waiters()@.drop_first()
                && final(self).recv_waiters().keys() == old(self).recv_waiters().keys().drop_first(),
            old(self).recv_waiters().keeps_handles(&final(self).recv_waiters()),
            final(self).same_ends(&*old(self)),
            final(self).queue() == old(self).queue(),
            final(self).send_waiters() == old(self).send_waiters(),
    {
        self.recv_futures.pop_head()
    }

    /// Fills one place of the reservation with the value and hands out the first waiting
    /// receiver. A handle that does not hold a reservation of at least one place is answered
    /// with the value, and nothing changes.
    pub fn send_with_permit(&mut self, reservation: NodeRef<Spot<T>>, value: T) -> (res: Result<Option<Waker>, T>)
        requires
            old(self).wf(),
        ensures
            final(self).id() == old(self).id(),
            final(self).wf(),
            old(self).permit_sent(reservation, value, res, &*final(self)),
    {
        match self.queue.reserved_count(&reservation) {
            Some(count) => {
                if count >= 1 {
                    self.queue.write(&reservation, value);
                    Ok(self.pop_receiver())
                } else {
                    Err(value)
                }
            },
            None => Err(value),
        }
    }

    /// Whether a receiver has something to act on.
    fn receiver_can_proceed_exec(&self) -> (b: bool)
        requires
            self.wf(),
        ensures
            b == self.receiver_can_proceed(),
    {
        self.queue.next_is_value() || (self.queue.is_empty() && self.disconnected)
    }

    /// `after` and `woken` are what giving back `count` places of `reservation` makes of this
    /// state: the places leave the reservation (and the reservation leaves the queue when it
    /// has none left), and a copy of the first waiting sender's waker is handed out when
    /// places were given back and it now fits. A handle that does not reserve `count` places
    /// changes nothing.
    pub open spec fn permit_dropped(
        &self,
        reservation: NodeRef<Spot<T>>,
        count: usize,
        woken: Option<Waker>,
        after: &Self,
    ) -> bool {
        let q = self.queue();
        let ok = q.contains_ref(reservation) && q@[q.position(reservation)] is Reserved && count
            <= q@[q.position(reservation)]->Reserved_0;
        &&& ok ==> q.released(reservation, Release::Count(count), after.queue())
            && q.spots().keeps_handles(&after.queue().spots()) && (count > 0
            ==> after.wakes_first_sender(woken)) && (count == 0 ==> woken is None)
        &&& !ok ==> woken is None && *after == *self
        &&& after.queue().capacity() == q.capacity()
        &&& after.same_ends(self)
        &&& after.send_waiters() == self.send_waiters()
        &&& after.recv_waiters() == self.recv_waiters()
    }

    /// Gives back `count` places of the reservation, and answers with the first waiting sender
    /// when places were given back and it now fits.
    pub fn drop_permit(&mut self, reservation: NodeRef<Spot<T>>, count: usize) -> (wake: Option<Waker>)
        requires
            old(self).wf(),
        ensures
            final(self).id() == old(self).id(),
            final(self).wf(),
            old(self).permit_dropped(reservation, count, wake, &*final(self)),
    {
        match self.queue.reserved_count(&reservation) {
            Some(reserved) => {
                if count <= reserved {
                    self.queue.release(reservation, Release::Count(count));
                    if count > 0 {
                        self.sender_to_wake()
                    } else {
                        None
                    }
                } else {
                    None
                }
            },
            None => None,
        }
    }

    /// Sends without waiting: the value goes to the back of the queue when there is room, and
    /// the first waiting receiver is handed out.
    pub fn try_send(&mut self, value: T) -> (res: Result<Option<Waker>, TrySendError<T>>)
        requires
            old(self).wf(),
        ensures
            final(self).id() == old(self).id(),
            final(self).wf(),
            old(self).sent(value, res, &*final(self)),
            old(self).queue().spots().keeps_handles(&final(self).queue().spots()),
    {
        if self.disconnected {
            return Err(TrySendError::Disconnected(value));
        }
        if !self.queue.has_room_for(1) {
            return Err(TrySendError::Full(value));
        }
        let reservation = match self.queue.try_reserve(1) {
            Some(r) => r,
            None => {
                proof {
                    assert(false);
                }
                return Err(TrySendError::Full(value));
            },
        };
        let ghost mid = self.queue;
        proof {
            mid.lemma_model();
            mid.spots().lemma_model();
            assert(mid.keys()[mid@.len() - 1] == reservation.key());
            assert(mid.position(reservation) == mid@.len() - 1);
        }
        self.queue.write(&reservation, value);
        proof {
            assert(old(self).queue()@.push(Spot::Reserved(1)).update(
                old(self).queue()@.len() as int,
                Spot::Value(value),
            ) =~= old(self).queue()@.push(Spot::Value(value)));
            assert(old(self).queue().spots().keeps_handles(&self.queue.spots())) by {
                assert forall|r2: NodeRef<Spot<T>>| #![trigger self.queue.spots().issued(r2)]
                    old(self).queue().spots().issued(r2) implies self.queue.spots().issued(r2) && (
                    !old(self).queue().spots().contains_ref(r2) ==> !self.queue.spots().contains_ref(
                        r2,
                    )) by {
                    assert(mid.spots().issued(r2));
                }
            }
        }
        Ok(self.pop_receiver())
    }

    /// Receives without waiting: reads the next value when it is ready, and then hands out a
    /// copy of the first waiting sender's waker when the queue has room for it.
    pub fn try_recv(&mut self) -> (res: (Result<T, TryRecvError>, Option<Waker>))
        requires
            old(self).wf(),
        ensures
            final(self).id() == old(self).id(),
            final(self).wf(),
            old(self).received(res.0, &*final(self)),
            res.0 is Ok ==> final(self).wakes_first_sender(res.1),
            res.0 is Err ==> res.1 is None,
            old(self).queue().spots().keeps_handles(&final(self).queue().spots()),
    {
        match self.queue.read_next_value() {
            Some(value) => {
                let w = self.sender_to_wake();
                (Ok(value), w)
            },
            None => {
                if self.queue.is_empty() && self.disconnected {
                    (Err(TryRecvError::Disconnected), None)
                } else {
                    (Err(TryRecvError::Empty), None)
                }
            },
        }
    }

    /// Receives up to `count` ready values without waiting, appending them to `vec`; then
    /// hands out a copy of the first waiting sender's waker when the queue has room for it.
    pub fn try_recv_many(&mut self, vec: &mut Vec<T>, count: usize) -> (res: (Result<usize, TryRecvError>, Option<Waker>))
        requires
            old(self).wf(),
        ensures
            final(self).id() == old(self).id(),
            final(self).wf(),
            res.0 matches Ok(k) ==> k <= count && final(vec)@.len() == old(vec)@.len() + k
                && final(vec)@.subrange(0, old(vec)@.len() as int) == old(vec)@,
            res.0 is Err ==> final(vec)@ == old(vec)@,
            old(self).received_many(count, old(vec)@, res.0, res.1, final(vec)@, &*final(self)),
    {
        let ghost q0 = self.queue@;
        let ghost v0 = vec@;
        let ghost start = *self;
        let mut n: usize = 0;
        let mut done = false;
        proof {
            start.queue.lemma_model();
            assert(q0.subrange(0, q0.len() as int) =~= q0);
            assert(q0.subrange(0, 0) =~= Seq::<Spot<T>>::empty());
            assert(v0 + values_of(q0.subrange(0, 0)) =~= v0);
        }
        while n < count && !done
            invariant
                self.wf(),
                n <= count,
                n <= ready_prefix(q0),
                n <= q0.len(),
                done ==> n == ready_prefix(q0),
                self.queue@ == q0.subrange(n as int, q0.len() as int),
                vec@ == v0 + values_of(q0.subrange(0, n as int)),
                self.queue.capacity() == start.queue.capacity(),
                start.queue.spots().keeps_handles(&self.queue.spots()),
                n == 0 ==> *self == start,
                self.same_ends(&start),
                self.id == start.id,
                self.send_waiters() == start.send_waiters(),
                self.recv_waiters() == start.recv_waiters(),
                n > 0 ==> self.queue.keys() == start.queue.keys().subrange(n as int, q0.len() as int),
                start.queue.keys().len() == q0.len(),
            decreases count - n, (if done { 0int } else { 1int }),
        {
            let ghost before = self.queue;
            proof {
                lemma_ready_prefix(q0, n as int);
                before.lemma_model();
            }
            match self.queue.read_next_value() {
                Some(value) => {
                    vec.push(value);
                    proof {
                        let rest = q0.subrange(n as int, q0.len() as int);
                        assert(rest.drop_first() =~= q0.subrange(n + 1, q0.len() as int));
                        assert(q0.subrange(0, n + 1) =~= q0.subrange(0, n as int).push(q0[n as int]));
                        assert(values_of(q0.subrange(0, n + 1)) =~= values_of(q0.subrange(0, n as int)).push(q0[n as int]->Value_0));
                        assert(before.keys().drop_first() =~= start.queue.keys().subrange(n + 1, q0.len() as int));
                        assert forall|r2: NodeRef<Spot<T>>| #![trigger self.queue.spots().issued(r2)]
                            start.queue.spots().issued(r2) implies self.queue.spots().issued(r2) && (
                            !start.queue.spots().contains_ref(r2) ==> !self.queue.spots().contains_ref(r2)) by {
                            assert(before.spots().issued(r2));
                        }
                    }
                    n = n + 1;
                },
                None => {
                    done = true;
                },
            }
        }
        proof {
            lemma_ready_prefix(q0, n as int);
            assert(vec@.subrange(0, v0.len() as int) =~= v0);
            assert(start.queue.keys().subrange(0, q0.len() as int) =~= start.queue.keys());
        }
        if n > 0 {
            let w = self.sender_to_wake();
            (Ok(n), w)
        } else if count == 0 {
            (Ok(0), None)
        } else if self.queue.is_empty() && self.disconnected {
            (Err(TryRecvError::Disconnected), None)
        } else {
            (Err(TryRecvError::Empty), None)
        }
    }
}


impl<T> InnerState<T> {
    /// `after` differs from this state in the waiting senders only by the removal of the
    /// entry of `fut`, when it is one of them.
    pub open spec fn sender_unregistered(&self, fut: Option<NodeRef<SendWaker>>, after: &Self) -> bool {
        let l = self.send_waiters();
        &&& waiting_in(l, fut) ==> after.send_waiters()@ == l@.remove(
            l.position(fut->0),
        ) && after.send_waiters().keys() == l.keys().remove(l.position(fut->0))
        &&& !waiting_in(l, fut) ==> after.send_waiters() == l
        &&& l.keeps_handles(&after.send_waiters())
    }

    /// `after` adds a sender waiting for `count` places, under the handle `fut`, to the back
    /// of this state's waiting senders.
    pub open spec fn sender_registered(&self, count: usize, waker: Waker, fut: NodeRef<SendWaker>, after: &Self) -> bool {
        let l = self.send_waiters();
        &&& after.send_waiters()@.len() == l@.len() + 1
        &&& after.send_waiters()@.drop_last() == l@
        &&& after.send_waiters()@.last().waiting_count() == count
        &&& cloned::<Waker>(waker, after.send_waiters()@.last().waker())
        &&& after.send_waiters().keys() == l.keys().push(fut.key())
        &&& !l.issued(fut)
        &&& l.keeps_handles(&after.send_waiters())
    }

    /// `after` differs from this state in the waiting receivers only by the removal of the
    /// entry of `fut`, when it is one of them.
    pub open spec fn receiver_unregistered(&self, fut: Option<NodeRef<Waker>>, after: &Self) -> bool {
        let l = self.recv_waiters();
        &&& waiting_in(l, fut) ==> after.recv_waiters()@ == l@.remove(
            l.position(fut->0),
        ) && after.recv_waiters().keys() == l.keys().remove(l.position(fut->0))
        &&& !waiting_in(l, fut) ==> after.recv_waiters() == l
        &&& l.keeps_handles(&after.recv_waiters())
    }

    /// `after` adds a waiting receiver, under the handle `fut`, to the back of this state's
    /// waiting receivers.
    pub open spec fn receiver_registered(&self, waker: Waker, fut: NodeRef<Waker>, after: &Self) -> bool {
        let l = self.recv_waiters();
        &&& after.recv_waiters()@.len() == l@.len() + 1
        &&& after.recv_waiters()@.drop_last() == l@
        &&& cloned::<Waker>(waker, after.recv_waiters()@.last())
        &&& after.recv_waiters().keys() == l.keys().push(fut.key())
        &&& !l.issued(fut)
        &&& l.keeps_handles(&after.recv_waiters())
    }

    /// Takes the entry of `fut` out of the waiting senders, if it is still there.
    fn unregister_sender(&mut self, fut: &mut Option<NodeRef<SendWaker>>)
        requires
            old(self).wf(),
        ensures
            final(self).id() == old(self).id(),
            final(self).wf(),
            old(self).sender_unregistered(*old(fut), &*final(self)),
            *final(fut) is None,
            final(self).same_ends(&*old(self)),
            final(self).queue() == old(self).queue(),
            final(self).recv_waiters() == old(self).recv_waiters(),
    {
        match fut.take() {
            Some(f) => {
                self.send_futures.remove(f);
            },
            None => {},
        }
    }

    /// Takes the entry of `fut` out of the waiting receivers, if it is still there; answers
    /// whether it was.
    fn unregister_receiver(&mut self, fut: &mut Option<NodeRef<Waker>>) -> (was_waiting: bool)
        requires
            old(self).wf(),
        ensures
            final(self).id() == old(self).id(),
            final(self).wf(),
            old(self).receiver_unregistered(*old(fut), &*final(self)),
            was_waiting == waiting_in(old(self).recv_waiters(), *old(fut)),
            *final(fut) is None,
            final(self).same_ends(&*old(self)),
            final(self).queue() == old(self).queue(),
            final(self).send_waiters() == old(self).send_waiters(),
    {
        match fut.take() {
            Some(f) => self.recv_futures.remove(f).is_some(),
            None => false,
        }
    }

    /// Registers a receiver unless its entry is still waiting.
    fn register_receiver(&mut self, waker: &Waker, fut: &mut Option<NodeRef<Waker>>)
        requires
            old(self).wf(),
        ensures
            final(self).id() == old(self).id(),
            final(self).wf(),
            waiting_in(old(self).recv_waiters(), *old(fut)) ==> *final(fut)
                == *old(fut) && *final(self) == *old(self),
            !waiting_in(old(self).recv_waiters(), *old(fut)) ==> (*final(fut) matches Some(f)
                && old(self).receiver_registered(*waker, f, &*final(self))),
            final(self).same_ends(&*old(self)),
            final(self).queue() == old(self).queue(),
            final(self).send_waiters() == old(self).send_waiters(),
    {
        let waiting = match fut {
            Some(f) => self.recv_futures.get(f).is_some(),
            None => false,
        };
        if !waiting {
            let f = self.recv_futures.push_tail(clone_waker(waker));
            *fut = Some(f);
            proof {
                assert(self.recv_futures@.drop_last() =~= old(self).recv_futures@);
            }
        }
    }

    /// Polls for a reservation of `count` places: the reservation when there is room, a
    /// registration as a waiting sender (once) when there is none, and an error when the
    /// channel is disconnected.
    pub fn reserve(&mut self, count: usize, waker: &Waker, send_future: &mut Option<NodeRef<SendWaker>>) -> (res: Poll<Result<NodeRef<Spot<T>>, ReserveError>>)
        requires
            old(self).wf(),
        ensures
            final(self).id() == old(self).id(),
            final(self).wf(),
            old(self).reserve_polled(count, *waker, *old(send_future), res, *final(send_future), &*final(self)),
    {
        match self.try_reserve(count) {
            Ok(reservation) => {
                self.unregister_sender(send_future);
                Poll::Ready(Ok(reservation))
            },
            Err(TryReserveError::Full) => {
                if send_future.is_none() {
                    let f = self.send_futures.push_tail(SendWaker::new(count, clone_waker(waker)));
                    *send_future = Some(f);
                    proof {
                        assert(self.send_futures@.drop_last() =~= old(self).send_futures@);
                    }
                }
                Poll::Pending
            },
            Err(TryReserveError::Disconnected) => Poll::Ready(Err(ReserveError)),
        }
    }

    /// Polls to send the value: it goes to the back of the queue when there is room (and the
    /// first waiting receiver is handed out), the sender registers as waiting (once) when there
    /// is none, and the value comes back in an error when the channel is disconnected.
    #[verifier::rlimit(30)]
    pub fn send(&mut self, value: &mut Option<T>, waker: &Waker, waiting: &mut Option<NodeRef<SendWaker>>) -> (res: (Poll<Result<(), SendError<T>>>, Option<Waker>))
        requires
            old(self).wf(),
        ensures
            final(self).id() == old(self).id(),
            final(self).wf(),
            old(self).send_polled(*waker, *old(value), *old(waiting), res.0, res.1, *final(value), *final(waiting), &*final(self)),
    {
        if value.is_none() {
            return (Poll::Ready(Ok(())), None);
        }
        if self.disconnected {
            let v = value.take().unwrap();
            return (Poll::Ready(Err(SendError(v))), None);
        }
        let ghost s0 = *self;
        match self.reserve(1, waker, waiting) {
            Poll::Ready(Ok(reservation)) => {
                let ghost mid = self.queue;
                proof {
                    mid.lemma_model();
                    mid.spots().lemma_model();
                    assert(mid.keys()[mid@.len() - 1] == reservation.key());
                    assert(mid.position(reservation) == mid@.len() - 1);
                }
                let v = value.take().unwrap();
                self.queue.write(&reservation, v);
                proof {
                    assert(s0.queue()@.push(Spot::Reserved(1)).update(
                        s0.queue()@.len() as int,
                        Spot::Value(v),
                    ) =~= s0.queue()@.push(Spot::Value(v)));
                    assert(s0.queue().spots().keeps_handles(&self.queue.spots())) by {
                        assert forall|r2: NodeRef<Spot<T>>| #![trigger self.queue.spots().issued(r2)]
                            s0.queue().spots().issued(r2) implies self.queue.spots().issued(r2) && (
                            !s0.queue().spots().contains_ref(r2) ==> !self.queue.spots().contains_ref(
                                r2,
                            )) by {
                            assert(mid.spots().issued(r2));
                        }
                    }
                    assert(self.queue.keys() == s0.queue().keys().push(reservation.key()));
                }
                let w = self.pop_receiver();
                (Poll::Ready(Ok(())), w)
            },
            Poll::Ready(Err(_)) => {
                proof {
                    assert(false);
                }
                (Poll::Pending, None)
            },
            Poll::Pending => (Poll::Pending, None),
        }
    }

    /// Polls to receive a value: the next value when it is ready (and a copy of the first
    /// waiting sender's waker when the queue now has room for it), an error when the queue is
    /// empty and the channel disconnected, and otherwise a registration as a waiting receiver
    /// unless the receiver's entry is still waiting.
    pub fn recv(&mut self, waker: &Waker, has_received: &mut bool, waker_ref: &mut Option<NodeRef<Waker>>) -> (res: (Poll<Result<T, RecvError>>, Option<Waker>))
        requires
            old(self).wf(),
        ensures
            final(self).id() == old(self).id(),
            final(self).wf(),
            old(self).recv_polled(*waker, *old(has_received), *old(waker_ref), res.0, res.1, *final(has_received), *final(waker_ref), &*final(self)),
    {
        let (result, w) = self.try_recv();
        match result {
            Ok(value) => {
                *has_received = true;
                self.unregister_receiver(waker_ref);
                (Poll::Ready(Ok(value)), w)
            },
            Err(TryRecvError::Disconnected) => {
                self.unregister_receiver(waker_ref);
                (Poll::Ready(Err(RecvError)), None)
            },
            Err(TryRecvError::Empty) => {
                self.register_receiver(waker, waker_ref);
                (Poll::Pending, None)
            },
        }
    }

    /// Polls to receive up to `count` values into `vec`, as [InnerState::recv] does for one.
    pub fn recv_many(&mut self, waker: &Waker, has_received: &mut bool, waker_ref: &mut Option<NodeRef<Waker>>, vec: &mut Vec<T>, count: usize) -> (res: (Poll<Result<usize, RecvError>>, Option<Waker>))
        requires
            old(self).wf(),
        ensures
            final(self).id() == old(self).id(),
            final(self).wf(),
            res.0 matches Poll::Ready(Ok(k)) ==> k <= count && final(vec)@.len() == old(vec)@.len() + k
                && final(vec)@.subrange(0, old(vec)@.len() as int) == old(vec)@,
            !(res.0 matches Poll::Ready(Ok(_))) ==> final(vec)@ == old(vec)@,
            old(self).recv_many_polled(count, *waker, *old(has_received), *old(waker_ref), old(vec)@, res.0, res.1, *final(has_received), *final(waker_ref), final(vec)@, &*final(self)),
    {
        let (result, w) = self.try_recv_many(vec, count);
        match result {
            Ok(n) => {
                if n > 0 {
                    *has_received = true;
                }
                self.unregister_receiver(waker_ref);
                (Poll::Ready(Ok(n)), w)
            },
            Err(TryRecvError::Disconnected) => {
                self.unregister_receiver(waker_ref);
                (Poll::Ready(Err(RecvError)), None)
            },
            Err(TryRecvError::Empty) => {
                self.register_receiver(waker, waker_ref);
                (Poll::Pending, None)
            },
        }
    }

    /// A sending or reserving future is dropped: its entry leaves the waiting senders, and a
    /// copy of the new first waiting sender's waker is handed out when the queue has room for
    /// it.
    /// `after` and `woken` are what dropping a sending or reserving future registered under
    /// `waiting` makes of this state: its entry leaves the waiting senders, and a copy of the
    /// new first waiting sender's waker is handed out when the queue has room for it.
    pub open spec fn send_future_dropped(&self, waiting: Option<NodeRef<SendWaker>>, woken: Option<Waker>, after: &Self) -> bool {
        &&& self.sender_unregistered(waiting, after)
        &&& after.wakes_first_sender(woken)
        &&& after.same_ends(self)
        &&& after.queue() == self.queue()
        &&& after.recv_waiters() == self.recv_waiters()
    }

    /// `after` and `woken` are what dropping a receiving future, registered under `waker_ref`,
    /// makes of this state: its entry leaves the waiting receivers; when the entry had already
    /// been taken out to be woken but the future received nothing, the first waiting receiver
    /// is handed out in its place, if a receiver can proceed.
    pub open spec fn recv_future_dropped(
        &self,
        has_received: bool,
        waker_ref: Option<NodeRef<Waker>>,
        woken: Option<Waker>,
        after: &Self,
    ) -> bool {
        let l = self.recv_waiters();
        let pass_on = (waker_ref is Some && !waiting_in(l, waker_ref)) && !has_received
            && self.receiver_can_proceed() && l@.len() > 0;
        &&& waiting_in(l, waker_ref) ==> woken is None && after.recv_waiters()@ == l@.remove(
            l.position(waker_ref->0),
        )
        &&& pass_on ==> woken == Some(l@[0]) && after.recv_waiters()@ == l@.drop_first()
        &&& !waiting_in(l, waker_ref) && !pass_on ==> woken is None && after.recv_waiters() == l
        &&& after.same_ends(self)
        &&& after.queue() == self.queue()
        &&& after.send_waiters() == self.send_waiters()
    }

    pub fn drop_send_future(&mut self, waiting: &mut Option<NodeRef<SendWaker>>) -> (w: Option<Waker>)
        requires
            old(self).wf(),
        ensures
            final(self).id() == old(self).id(),
            final(self).wf(),
            *final(waiting) is None,
            old(self).send_future_dropped(*old(waiting), w, &*final(self)),
    {
        self.unregister_sender(waiting);
        self.sender_to_wake()
    }

    /// A receiving future is dropped: its entry leaves the waiting receivers. When the entry
    /// had already been taken out to be woken but the future received nothing, the wake is
    /// passed on to the next waiting receiver, if a receiver can proceed.
    pub fn drop_recv_future(&mut self, has_received: bool, waker_ref: &mut Option<NodeRef<Waker>>) -> (w: Option<Waker>)
        requires
            old(self).wf(),
        ensures
            final(self).id() == old(self).id(),
            final(self).wf(),
            *final(waker_ref) is None,
            old(self).recv_future_dropped(has_received, *old(waker_ref), w, &*final(self)),
    {
        let had_entry = waker_ref.is_some();
        let was_waiting = self.unregister_receiver(waker_ref);
        if had_entry && !was_waiting && !has_received && self.receiver_can_proceed_exec() {
            self.pop_receiver()
        } else {
            None
        }
    }
}


/// A receive reports disconnection only when the queue is empty: over any run of receives,
/// every value and every reservation still queued is delivered (or waited for) first.
pub proof fn law_no_disconnect_while_queued<T>(states: Seq<InnerState<T>>, results: Seq<Result<T, TryRecvError>>)
    requires
        states.len() == results.len() + 1,
        forall|i: int| #![trigger results[i]] 0 <= i < results.len() ==> states[i].received(results[i], &states[i + 1]),
    ensures
        forall|i: int|
            0 <= i < results.len() && #[trigger] results[i] == Err::<T, TryRecvError>(TryRecvError::Disconnected)
                ==> states[i].queue()@.len() == 0 && states[i].disconnected(),
{
    assert forall|i: int|
        0 <= i < results.len() && #[trigger] results[i] == Err::<T, TryRecvError>(TryRecvError::Disconnected)
            implies states[i].queue()@.len() == 0 && states[i].disconnected() by {
        assert(states[i].received(results[i], &states[i + 1]));
    }
}

/// Each queued value is received exactly once, in order: a run of receives on a queue of
/// values gives the values one by one, and then the error, which is `Disconnected` when the
/// channel is disconnected (by `close_all`, or by the last sender or receiver leaving) and
/// `Empty` otherwise.
pub proof fn law_drain<T>(states: Seq<InnerState<T>>, results: Seq<Result<T, TryRecvError>>)
    requires
        states.len() == results.len() + 1,
        forall|k: int| 0 <= k < states[0].queue()@.len() ==> #[trigger] states[0].queue()@[k] is Value,
        forall|i: int| #![trigger results[i]] 0 <= i < results.len() ==> states[i].received(results[i], &states[i + 1]),
    ensures
        forall|i: int|
            0 <= i < results.len() && i < states[0].queue()@.len() ==> #[trigger] results[i]
                == Ok::<T, TryRecvError>(states[0].queue()@[i]->Value_0),
        forall|i: int|
            0 <= i < results.len() && i >= states[0].queue()@.len() ==> #[trigger] results[i]
                == Err::<T, TryRecvError>(
                if states[0].disconnected() {
                    TryRecvError::Disconnected
                } else {
                    TryRecvError::Empty
                },
            ),
    decreases results.len(),
{
    let q = states[0].queue()@;
    if results.len() > 0 {
        assert(states[0].received(results[0], &states[1]));
        let rest_states = states.drop_first();
        let rest_results = results.drop_first();
        assert forall|i: int| #![trigger rest_results[i]] 0 <= i < rest_results.len() implies rest_states[i].received(
            rest_results[i],
            &rest_states[i + 1],
        ) by {
            assert(results[i + 1] == rest_results[i]);
        }
        assert(rest_states[0].disconnected() == states[0].disconnected());
        if q.len() > 0 {
            assert(rest_states[0].queue()@ == q.drop_first());
            assert forall|k: int| 0 <= k < rest_states[0].queue()@.len() implies #[trigger] rest_states[0].queue()@[k] is Value by {
                assert(q[k + 1] is Value);
            }
        } else {
            assert(rest_states[0] == states[0]);
        }
        law_drain(rest_states, rest_results);
        assert forall|i: int|
            0 <= i < results.len() && i < q.len() implies #[trigger] results[i] == Ok::<T, TryRecvError>(q[i]->Value_0) by {
            if i > 0 {
                assert(rest_results[i - 1] == results[i]);
                assert(rest_states[0].queue()@[i - 1] == q[i]);
            }
        }
        assert forall|i: int|
            0 <= i < results.len() && i >= q.len() implies #[trigger] results[i] == Err::<T, TryRecvError>(
            if states[0].disconnected() {
                TryRecvError::Disconnected
            } else {
                TryRecvError::Empty
            },
        ) by {
            if i > 0 {
                assert(rest_results[i - 1] == results[i]);
                if q.len() > 0 {
                    assert(rest_states[0].queue()@.len() == q.len() - 1);
                }
            }
        }
    }
}

/// First in, first out through the channel: two values sent into an empty, open channel with
/// room for both are received in the order they were sent.
pub proof fn law_fifo<T>(
    s0: InnerState<T>,
    s1: InnerState<T>,
    s2: InnerState<T>,
    s3: InnerState<T>,
    s4: InnerState<T>,
    a: T,
    b: T,
    in1: Result<Option<Waker>, TrySendError<T>>,
    in2: Result<Option<Waker>, TrySendError<T>>,
    out1: Result<T, TryRecvError>,
    out2: Result<T, TryRecvError>,
)
    requires
        s0.queue()@ == Seq::<Spot<T>>::empty(),
        !s0.disconnected(),
        s0.queue().capacity() >= 2,
        s0.sent(a, in1, &s1),
        s1.sent(b, in2, &s2),
        s2.received(out1, &s3),
        s3.received(out2, &s4),
    ensures
        out1 == Ok::<T, TryRecvError>(a),
        out2 == Ok::<T, TryRecvError>(b),
        s4.queue()@ == Seq::<Spot<T>>::empty(),
{
    reveal_with_fuel(occupied, 3);
    assert(s1.queue()@ == seq![Spot::Value(a)]);
    assert(occupied(s1.queue()@) == 1) by {
        assert(s1.queue()@.drop_last() =~= Seq::<Spot<T>>::empty());
    }
    assert(s2.queue()@ == seq![Spot::Value(a), Spot::Value(b)]);
    assert(s3.queue()@ =~= seq![Spot::Value(b)]);
    assert(s4.queue()@ =~= Seq::<Spot<T>>::empty());
}

/// A reserved place keeps its turn: when a value is sent without waiting after a reservation of
/// one place was made, and the place is then filled, the place's value is read first.
pub proof fn law_reservation_keeps_turn<T>(
    s0: InnerState<T>,
    s1: InnerState<T>,
    s2: InnerState<T>,
    s3: InnerState<T>,
    r: NodeRef<Spot<T>>,
    first: T,
    second: T,
    sent_outcome: Result<Option<Waker>, TrySendError<T>>,
    outcome: Result<Option<Waker>, T>,
)
    requires
        s0.wf(),
        s1.wf(),
        s2.wf(),
        s3.wf(),
        s0.reserved(1, Ok(r), &s1),
        s1.sent(second, sent_outcome, &s2),
        sent_outcome is Ok,
        s2.permit_sent(r, first, outcome, &s3),
    ensures
        outcome is Ok,
        s3.queue()@ == s0.queue()@ + seq![Spot::Value(first), Spot::Value(second)],
{
    s0.lemma_model();
    s1.lemma_model();
    s2.lemma_model();
    s1.queue().lemma_model();
    s2.queue().lemma_model();
    s1.queue().spots().lemma_model();
    s2.queue().spots().lemma_model();
    let n = s0.queue()@.len() as int;
    assert(s1.queue().keys()[n] == r.key());
    assert(s2.queue().keys()[n] == r.key());
    assert(s2.queue().position(r) == n);
    assert(s2.queue().holds_reservation(r));
    assert(s3.queue()@ =~= s0.queue()@ + seq![Spot::Value(first), Spot::Value(second)]);
}

/// Once the receivers are gone (closed together, or the last one left), no sender is left
/// waiting, since every waiting sender was handed out to be woken, and every later poll for a
/// reservation is answered with an error, leaving the poller's registration as it was.
pub proof fn law_disconnect_answers_reserve<T>(
    s0: InnerState<T>,
    s1: InnerState<T>,
    s2: InnerState<T>,
    count: usize,
    waker: Waker,
    before_send_future: Option<NodeRef<SendWaker>>,
    outcome: Poll<Result<NodeRef<Spot<T>>, ReserveError>>,
    after_send_future: Option<NodeRef<SendWaker>>,
)
    requires
        s0.wf(),
        s0.all_receivers_closed(&s1) || (s0.receiver_dropped(&s1) && s1.receivers() == 0),
        s1.reserve_polled(count, waker, before_send_future, outcome, after_send_future, &s2),
    ensures
        s1.send_waiters()@.len() == 0,
        outcome == Poll::Ready(Err::<NodeRef<Spot<T>>, ReserveError>(ReserveError)),
        after_send_future == before_send_future,
        s2 == s1,
{
}

/// A value goes to one receiver only: when two polls to receive, by the same receiver or by
/// two, follow each other on a queue that starts with two values, the first poll gets the
/// first value and the second poll the second.
pub proof fn law_each_value_received_once<T>(
    s0: InnerState<T>,
    s1: InnerState<T>,
    s2: InnerState<T>,
    waker: (Waker, Waker),
    has_received: (bool, bool),
    waker_ref: (Option<NodeRef<Waker>>, Option<NodeRef<Waker>>),
    outcome: (Poll<Result<T, RecvError>>, Poll<Result<T, RecvError>>),
    woken: (Option<Waker>, Option<Waker>),
    after_has_received: (bool, bool),
    after_waker_ref: (Option<NodeRef<Waker>>, Option<NodeRef<Waker>>),
)
    requires
        s0.wf(),
        s0.queue()@.len() >= 2,
        s0.queue()@[0] is Value,
        s0.queue()@[1] is Value,
        s0.recv_polled(waker.0, has_received.0, waker_ref.0, outcome.0, woken.0, after_has_received.0, after_waker_ref.0, &s1),
        s1.recv_polled(waker.1, has_received.1, waker_ref.1, outcome.1, woken.1, after_has_received.1, after_waker_ref.1, &s2),
    ensures
        outcome.0 == Poll::Ready(Ok::<T, RecvError>(s0.queue()@[0]->Value_0)),
        outcome.1 == Poll::Ready(Ok::<T, RecvError>(s0.queue()@[1]->Value_0)),
        s2.queue()@ == s0.queue()@.subrange(2, s0.queue()@.len() as int),
{
    assert(s1.queue()@[0] == s0.queue()@[1]);
    assert(s2.queue()@ =~= s0.queue()@.subrange(2, s0.queue()@.len() as int));
}

/// A single spot takes its own weight.
proof fn lemma_occupied_one<T>(x: Spot<T>)
    ensures
        occupied(seq![x]) == crate::queue::weight(x),
{
    assert(seq![x].drop_last() =~= Seq::<Spot<T>>::empty());
    assert(seq![x].last() == x);
    assert(occupied(Seq::<Spot<T>>::empty()) == 0);
}

/// A send is refused only on a disconnected channel, and the value comes back in the error.
pub proof fn law_send_refused_only_when_disconnected<T>(
    s: InnerState<T>,
    waker: Waker,
    before_value: Option<T>,
    before_waiting: Option<NodeRef<SendWaker>>,
    outcome: Poll<Result<(), SendError<T>>>,
    woken: Option<Waker>,
    after_value: Option<T>,
    after_waiting: Option<NodeRef<SendWaker>>,
    after: InnerState<T>,
)
    requires
        s.send_polled(waker, before_value, before_waiting, outcome, woken, after_value, after_waiting, &after),
    ensures
        outcome matches Poll::Ready(Err(SendError(v))) ==> s.disconnected() && before_value == Some(v),
        outcome is Pending ==> after_value == before_value && before_value is Some
            && !s.disconnected() && after.queue() == s.queue(),
{
}

/// A send waits for room: on an open channel without room for the value, a poll to send keeps
/// the value with the poller and answers `Pending`; once a receive has taken a value, the next
/// poll puts the value at the back of the queue and answers `Ok`.
pub proof fn law_send_waits_for_room<T>(
    s0: InnerState<T>,
    s1: InnerState<T>,
    s2: InnerState<T>,
    s3: InnerState<T>,
    waker: Waker,
    v: T,
    fut0: Option<NodeRef<SendWaker>>,
    first: (Poll<Result<(), SendError<T>>>, Option<Waker>, Option<T>, Option<NodeRef<SendWaker>>),
    taken: Result<T, TryRecvError>,
    second: (Poll<Result<(), SendError<T>>>, Option<Waker>, Option<T>, Option<NodeRef<SendWaker>>),
)
    requires
        s0.wf(),
        !s0.disconnected(),
        occupied(s0.queue()@) + 1 > s0.queue().capacity(),
        s0.send_polled(waker, Some(v), fut0, first.0, first.1, first.2, first.3, &s1),
        s1.received(taken, &s2),
        taken is Ok,
        s2.send_polled(waker, first.2, first.3, second.0, second.1, second.2, second.3, &s3),
    ensures
        first.0 is Pending,
        first.2 == Some(v),
        second.0 == Poll::Ready(Ok::<(), SendError<T>>(())),
        second.2 is None,
        s3.queue()@ == s0.queue()@.drop_first().push(Spot::Value(v)),
{
    let q = s0.queue()@;
    s0.lemma_model();
    s0.queue().lemma_model();
    assert(s1.queue() == s0.queue());
    assert(q.len() > 0 && q[0] is Value);
    assert(q =~= seq![q[0]] + q.drop_first());
    lemma_occupied_concat(seq![q[0]], q.drop_first());
    lemma_occupied_one(q[0]);
    assert(s2.queue()@ == q.drop_first());
    assert(occupied(s2.queue()@) + 1 <= s2.queue().capacity());
    assert(!s2.disconnected());
}

/// A receive fails only once the queue is empty and the channel disconnected.
pub proof fn law_recv_fails_only_when_drained<T>(
    s: InnerState<T>,
    waker: Waker,
    before_has_received: bool,
    before_waker_ref: Option<NodeRef<Waker>>,
    outcome: Poll<Result<T, RecvError>>,
    woken: Option<Waker>,
    after_has_received: bool,
    after_waker_ref: Option<NodeRef<Waker>>,
    after: InnerState<T>,
)
    requires
        s.recv_polled(
            waker,
            before_has_received,
            before_waker_ref,
            outcome,
            woken,
            after_has_received,
            after_waker_ref,
            &after,
        ),
    ensures
        outcome matches Poll::Ready(Err(_)) ==> s.queue()@.len() == 0 && s.disconnected(),
        s.queue()@.len() > 0 && s.queue()@[0] is Reserved ==> outcome is Pending,
{
}

/// A reserved place is waited for, even on a closed channel: a poll to receive whose next spot
/// is a reservation of one place answers `Pending`, and once the place is filled the next poll
/// gets its value.
pub proof fn law_recv_waits_for_reservation<T>(
    s0: InnerState<T>,
    s1: InnerState<T>,
    s2: InnerState<T>,
    s3: InnerState<T>,
    waker: Waker,
    r: NodeRef<Spot<T>>,
    x: T,
    filled: Result<Option<Waker>, T>,
    poll: (bool, Option<NodeRef<Waker>>),
    first: (Poll<Result<T, RecvError>>, Option<Waker>, bool, Option<NodeRef<Waker>>),
    second: (Poll<Result<T, RecvError>>, Option<Waker>, bool, Option<NodeRef<Waker>>),
)
    requires
        s0.wf(),
        s0.queue().contains_ref(r),
        s0.queue().position(r) == 0,
        s0.queue()@[0] == Spot::<T>::Reserved(1),
        s0.recv_polled(waker, poll.0, poll.1, first.0, first.1, first.2, first.3, &s1),
        s1.permit_sent(r, x, filled, &s2),
        s2.recv_polled(waker, first.2, first.3, second.0, second.1, second.2, second.3, &s3),
    ensures
        first.0 is Pending,
        filled is Ok,
        second.0 == Poll::Ready(Ok::<T, RecvError>(x)),
{
    s0.lemma_model();
    s0.queue().lemma_model();
    let q = s0.queue()@;
    assert(q.len() > 0);
    assert(!(q[0] is Value));
    assert(first.0 is Pending);
    assert(s1.queue() == s0.queue());
    assert(s1.queue().holds_reservation(r));
    assert(s2.queue()@ == q.update(0, Spot::Value(x)));
    assert(s2.queue()@[0] == Spot::Value(x));
}

/// A reservation of several places holds all of them: a poll that reserves `count` places adds
/// exactly `count` taken places, and filling two of them through the handle puts both values,
/// in the order written, where the reservation stood.
pub proof fn law_reserve_holds_all_places<T>(
    s0: InnerState<T>,
    s1: InnerState<T>,
    s2: InnerState<T>,
    s3: InnerState<T>,
    count: usize,
    waker: Waker,
    fut: (Option<NodeRef<SendWaker>>, Option<NodeRef<SendWaker>>),
    r: NodeRef<Spot<T>>,
    a: T,
    b: T,
    filled: (Result<Option<Waker>, T>, Result<Option<Waker>, T>),
)
    requires
        s0.wf(),
        s1.wf(),
        s2.wf(),
        count >= 2,
        s0.reserve_polled(count, waker, fut.0, Poll::Ready(Ok(r)), fut.1, &s1),
        s1.permit_sent(r, a, filled.0, &s2),
        s2.permit_sent(r, b, filled.1, &s3),
    ensures
        occupied(s1.queue()@) == occupied(s0.queue()@) + count,
        filled.0 is Ok,
        filled.1 is Ok,
        count == 2 ==> s3.queue()@ == s0.queue()@ + seq![Spot::Value(a), Spot::Value(b)],
        count > 2 ==> s3.queue()@ == s0.queue()@ + seq![
            Spot::Value(a),
            Spot::Value(b),
            Spot::Reserved((count - 2) as usize),
        ],
{
    let q = s0.queue()@;
    let n = q.len() as int;
    s0.lemma_model();
    s1.lemma_model();
    s2.lemma_model();
    s0.queue().lemma_model();
    s1.queue().lemma_model();
    s2.queue().lemma_model();
    s1.queue().spots().lemma_model();
    s2.queue().spots().lemma_model();
    assert(q.push(Spot::Reserved(count)) =~= q + seq![Spot::<T>::Reserved(count)]);
    lemma_occupied_concat(q, seq![Spot::<T>::Reserved(count)]);
    lemma_occupied_one(Spot::<T>::Reserved(count));
    assert(s1.queue().keys()[n] == r.key());
    assert(s1.queue().position(r) == n);
    assert(s1.queue().holds_reservation(r));
    let r2 = choose|r2: NodeRef<Spot<T>>|
        s2.queue()@ == s1.queue()@.update(n, Spot::Reserved((count - 1) as usize)).insert(
            n,
            Spot::Value(a),
        ) && s2.queue().keys() == s1.queue().keys().insert(n, r2.key()) && !s1.queue().spots().issued(r2)
            && s2.queue().spots().issued(r2);
    assert(s2.queue().keys()[n + 1] == r.key());
    assert(s2.queue().position(r) == n + 1);
    assert(s2.queue()@[n + 1] == Spot::<T>::Reserved((count - 1) as usize));
    assert(s2.queue().holds_reservation(r));
    if count == 2 {
        assert(s3.queue()@ =~= q + seq![Spot::Value(a), Spot::Value(b)]);
    } else {
        assert(s3.queue()@ =~= q + seq![
            Spot::Value(a),
            Spot::Value(b),
            Spot::Reserved((count - 2) as usize),
        ]);
    }
}

/// Dropping a receiver takes exactly one off the count, and disconnects the channel only when
/// none is left; a receiver cloned and then dropped leaves the channel as it was.
pub proof fn law_receiver_clone_then_drop<T>(s0: InnerState<T>, s1: InnerState<T>, s2: InnerState<T>)
    requires
        s0.receivers() >= 1,
        s0.receivers() < usize::MAX,
        s0.receiver_added(&s1),
        s1.receiver_dropped(&s2),
    ensures
        s2.receivers() == s0.receivers(),
        s2.disconnected() == s0.disconnected(),
        s2.senders() == s0.senders(),
        s2.queue() == s0.queue(),
        s2.send_waiters() == s0.send_waiters(),
        s2.recv_waiters() == s0.recv_waiters(),
{
}

/// Dropping a receiver disconnects an open channel only when it was the last one.
pub proof fn law_receiver_drop_disconnects_only_the_last<T>(s: InnerState<T>, after: InnerState<T>)
    requires
        s.receiver_dropped(&after),
    ensures
        s.receivers() > 0 ==> after.receivers() == s.receivers() - 1,
        !s.disconnected() && after.disconnected() ==> after.receivers() == 0,
        s.receivers() > 1 ==> after.disconnected() == s.disconnected(),
{
}

/// A poll to receive several values takes every ready value at the front of the queue, up to
/// `count`, whether or not the channel is disconnected; it fails only once the queue is empty
/// and the channel disconnected.
pub proof fn law_recv_many_takes_ready_values<T>(
    s: InnerState<T>,
    count: usize,
    waker: Waker,
    before_has_received: bool,
    before_waker_ref: Option<NodeRef<Waker>>,
    before_vec: Seq<T>,
    outcome: Poll<Result<usize, RecvError>>,
    woken: Option<Waker>,
    after_has_received: bool,
    after_waker_ref: Option<NodeRef<Waker>>,
    after_vec: Seq<T>,
    after: InnerState<T>,
)
    requires
        s.recv_many_polled(
            count,
            waker,
            before_has_received,
            before_waker_ref,
            before_vec,
            outcome,
            woken,
            after_has_received,
            after_waker_ref,
            after_vec,
            &after,
        ),
    ensures
        outcome matches Poll::Ready(Err(_)) ==> s.queue()@.len() == 0 && s.disconnected(),
        count > 0 && ready_prefix(s.queue()@) > 0 ==> ({
            let n = if count <= ready_prefix(s.queue()@) {
                count as int
            } else {
                ready_prefix(s.queue()@) as int
            };
            &&& outcome == Poll::Ready(Ok::<usize, RecvError>(n as usize))
            &&& after_vec.len() == before_vec.len() + n
            &&& after_vec.subrange(0, before_vec.len() as int) == before_vec
            &&& forall|i: int|
                0 <= i < n ==> #[trigger] after_vec[before_vec.len() + i] == s.queue()@[i]->Value_0
            &&& after.queue()@ == s.queue()@.subrange(n, s.queue()@.len() as int)
        }),
{
    let q = s.queue()@;
    if count > 0 && ready_prefix(q) > 0 {
        let n = if count <= ready_prefix(q) {
            count as int
        } else {
            ready_prefix(q) as int
        };
        lemma_ready_prefix(q, n);
        assert(after_vec == before_vec + values_of(q.subrange(0, n)));
        assert(after_vec.subrange(0, before_vec.len() as int) =~= before_vec);
    }
}

} // verus!
