//! A multi-producer, multi-consumer async channel with reservations.
pub mod delivery;
pub mod linked_list;
pub mod queue;
pub mod shared;
pub mod state;

use vstd::prelude::*;

verus! {

/// Occurs when all receivers have been dropped.
#[derive(PartialEq, Eq, Clone, Copy, Debug)]
pub struct SendError<T>(pub T);

/// TrySendError occurs when the channel is empty or all receivers have been dropped.
#[derive(PartialEq, Eq, Clone, Copy, Debug)]
pub enum TrySendError<T> {
    /// Channel full
    Full(T),
    /// Disconnected
    Disconnected(T),
}

/// Occurs when all receivers have been dropped.
#[derive(PartialEq, Eq, Clone, Copy, Debug)]
pub struct ReserveError;

/// Occurs when the channel is full, or all receivers have been dropped.
#[derive(PartialEq, Eq, Clone, Copy, Debug)]
pub enum TryReserveError {
    /// Channel full
    Full,
    /// Disconnected
    Disconnected,
}

/// Occurs when all senders have been dropped.
#[derive(PartialEq, Eq, Clone, Copy, Debug)]
pub struct RecvError;

/// Occurs when channel is empty or all senders have been dropped.
#[derive(PartialEq, Eq, Clone, Copy, Debug)]
pub enum TryRecvError {
    /// Channel is empty
    Empty,
    /// Disconnected
    Disconnected,
}

use crate::linked_list::NodeRef;
use crate::queue::Spot;
use crate::state::{InnerState, State};

/// The capacity a channel gets: `cap`, or one when `cap` is zero.
pub open spec fn effective_capacity(cap: usize) -> nat {
    if cap == 0 {
        1
    } else {
        cap as nat
    }
}

/// Creates a new bounded channel. When `cap` is 0 it will be increased to 1.
pub fn channel<T>(cap: usize) -> (ends: (Sender<T>, Receiver<T>))
    ensures
        ends.0.state() == ends.1.state(),
        ends.0.state().capacity() == effective_capacity(cap),
{
    let mut cap = cap;
    if cap == 0 {
        cap = 1;
    }
    let state = State::new(cap);
    (state.new_sender(), state.new_receiver())
}

/// Receives messages sent by [Sender].
pub struct Receiver<T> {
    state: State<T>,
}

/// Cloning creates new a instance with the shared state  and increases the internal reference
/// counter. It is guaranteed that a single message will be distributed to exacly one receiver
/// future awaited after calling `recv()`.
impl<T> Clone for Receiver<T> {
    fn clone(&self) -> (r: Self)
        ensures
            r.state() == self.state(),
            exists|s: InnerState<T>, after: InnerState<T>| #![trigger s.receiver_added(&after)]
                self.state().can_hold(s) && self.state().can_hold(after) && s.receiver_added(&after),
    {
        self.state.new_receiver()
    }
}

impl<T> Receiver<T> {
    /// The state of the channel the receiver belongs to.
    pub closed spec fn state(&self) -> State<T> {
        self.state
    }

    pub(crate) fn new(state: State<T>) -> (r: Self)
        ensures
            r.state() == state,
    {
        Self { state }
    }

    /// The shared state, for the futures that wait on it.
    pub fn shared(&self) -> (s: &State<T>)
        ensures
            *s == self.state(),
    {
        &self.state
    }

    /// Disconnects all receivers from senders. The receivers will still receive all buffered
    /// or reserved messages before returning an error, allowing a graceful teardown.
    pub fn close_all(&self)
        ensures
            exists|s: InnerState<T>, after: InnerState<T>| #![trigger s.all_receivers_closed(&after)]
                self.state().can_hold(s) && self.state().can_hold(after) && s.all_receivers_closed(&after),
    {
        self.state.close_all_receivers();
    }

    /// Checks if there's a message to be read and returns immediately. Returns an error when the
    /// channel is disconnected or empty.
    pub fn try_recv(&self) -> (res: Result<T, TryRecvError>)
        ensures
            exists|s: InnerState<T>, after: InnerState<T>| #![trigger s.received(res, &after)]
                self.state().can_hold(s) && self.state().can_hold(after) && s.received(res, &after),
    {
        self.state.try_recv()
    }

    /// Receives up to `count` ready messages into `vec` and returns how many came, or an error
    /// when there is none (`Empty`) or none will come (`Disconnected`).
    pub fn try_recv_many(&self, vec: &mut Vec<T>, count: usize) -> (res: Result<usize, TryRecvError>)
        ensures
            exists|s: InnerState<T>, w: Option<std::task::Waker>, after: InnerState<T>|
                #![trigger s.received_many(count, old(vec)@, res, w, final(vec)@, &after)]
                self.state().can_hold(s) && self.state().can_hold(after) && s.received_many(
                    count,
                    old(vec)@,
                    res,
                    w,
                    final(vec)@,
                    &after,
                ),
            res matches Ok(n) ==> n <= count && final(vec)@.len() == old(vec)@.len() + n
                && final(vec)@.subrange(0, old(vec)@.len() as int) == old(vec)@,
            res is Err ==> final(vec)@ == old(vec)@,
    {
        self.state.try_recv_many(vec, count)
    }

    /// The receiver leaves the channel; the last one to leave disconnects it.
    fn leave(&mut self)
        ensures
            final(self).state() == old(self).state(),
            exists|s: InnerState<T>, after: InnerState<T>| #![trigger s.receiver_dropped(&after)]
                old(self).state().can_hold(s) && old(self).state().can_hold(after)
                    && s.receiver_dropped(&after),
    {
        self.state.drop_receiver();
    }
}

/// The last reciever that's dropped will mark the channel as disconnected.
impl<T> Drop for Receiver<T> {
    /// A destructor is declared to open no invariant and not to unwind, and nothing else is
    /// accepted for it. This one takes the channel's lock, whose atomics open invariants of
    /// their own, and wakes tasks, which runs the executor's code; neither declaration can be
    /// shown of it, so it is trusted. All it does is call the method below it, whose contract is
    /// proved.
    #[verifier::external_body]
    fn drop(&mut self)
        opens_invariants none
        no_unwind
    {
        self.leave();
    }
}

/// Producers messages to be read by [Receiver]s.
pub struct Sender<T> {
    state: State<T>,
}

/// Cloning creates new a instance with the shared state  and increases the internal reference
/// counter.
impl<T> Clone for Sender<T> {
    fn clone(&self) -> (s: Self)
        ensures
            s.state() == self.state(),
            exists|st: InnerState<T>, after: InnerState<T>| #![trigger st.sender_added(&after)]
                self.state().can_hold(st) && self.state().can_hold(after) && st.sender_added(&after),
    {
        self.state.new_sender()
    }
}

impl<T> Sender<T> {
    /// The state of the channel the sender belongs to.
    pub closed spec fn state(&self) -> State<T> {
        self.state
    }

    pub(crate) fn new(state: State<T>) -> (s: Sender<T>)
        ensures
            s.state() == state,
    {
        Self { state }
    }

    /// The shared state, for the futures that wait on it.
    pub fn shared(&self) -> (s: &State<T>)
        ensures
            *s == self.state(),
    {
        &self.state
    }

    /// Sends without blocking or returns an when all receivers have been dropped.
    pub fn try_send(&self, value: T) -> (res: Result<(), TrySendError<T>>)
        ensures
            exists|s: InnerState<T>, o: Result<Option<std::task::Waker>, TrySendError<T>>, after: InnerState<T>|
                #![trigger s.sent(value, o, &after)]
                self.state().can_hold(s) && self.state().can_hold(after) && s.sent(value, o, &after)
                    && res == crate::state::without_waker(o),
            res matches Err(TrySendError::Full(v)) ==> v == value,
            res matches Err(TrySendError::Disconnected(v)) ==> v == value,
    {
        self.state.try_send(value)
    }

    /// Reserves a permit or returns an when all receivers have been dropped.
    pub fn try_reserve(&self) -> (res: Result<Permit<'_, T>, TryReserveError>)
        ensures
            res matches Ok(p) ==> p.wf() && p.sender() == *self && exists|s: InnerState<T>, after: InnerState<T>|
                #![trigger s.reserved(1, Ok(p.reservation()->0), &after)]
                self.state().can_hold(s) && self.state().can_hold(after) && s.reserved(
                    1,
                    Ok(p.reservation()->0),
                    &after,
                ),
            res matches Err(e) ==> exists|s: InnerState<T>, after: InnerState<T>|
                #![trigger s.reserved(1, Err(e), &after)]
                self.state().can_hold(s) && self.state().can_hold(after) && s.reserved(1, Err(e), &after),
    {
        let r = self.state.try_reserve(1);
        let ghost w = choose|s: InnerState<T>, after: InnerState<T>|
            self.state().can_hold(s) && self.state().can_hold(after) && s.reserved(1, r, &after);
        match r {
            Ok(reservation) => {
                let p = Permit::new(self, reservation);
                proof {
                    assert(w.0.reserved(1, Ok(p.reservation()->0), &w.1));
                }
                Ok(p)
            },
            Err(e) => Err(e),
        }
    }

    /// Reserves multiple Permits in the queue, or errors out when there's no room.
    pub fn try_reserve_many(&self, count: usize) -> (res: Result<PermitIterator<'_, T>, TryReserveError>)
        ensures
            count > self.state().capacity() ==> res is Err,
            res matches Ok(p) ==> p.wf() && p.remaining() == count && p.sender() == *self
                && exists|s: InnerState<T>, after: InnerState<T>|
                #![trigger s.reserved(count, Ok(p.reservation()->0), &after)]
                self.state().can_hold(s) && self.state().can_hold(after) && s.reserved(
                    count,
                    Ok(p.reservation()->0),
                    &after,
                ),
            res matches Err(e) ==> exists|s: InnerState<T>, after: InnerState<T>|
                #![trigger s.reserved(count, Err(e), &after)]
                self.state().can_hold(s) && self.state().can_hold(after) && s.reserved(
                    count,
                    Err(e),
                    &after,
                ),
    {
        let r = self.state.try_reserve(count);
        let ghost w = choose|s: InnerState<T>, after: InnerState<T>|
            self.state().can_hold(s) && self.state().can_hold(after) && s.reserved(count, r, &after);
        match r {
            Ok(reservation) => {
                let it = PermitIterator::new(self, reservation, count);
                proof {
                    assert(w.0.reserved(count, Ok(it.reservation()->0), &w.1));
                }
                Ok(it)
            },
            Err(e) => Err(e),
        }
    }

    /// Reserves a permit or returns an when all receivers have been dropped.
    pub fn try_reserve_owned(self) -> (res: Result<OwnedPermit<T>, TrySendError<Self>>)
        ensures
            res matches Ok(p) ==> p.wf() && p.sender() == self && exists|s: InnerState<T>, after: InnerState<T>|
                #![trigger s.reserved(1, Ok(p.reservation()->0), &after)]
                self.state().can_hold(s) && self.state().can_hold(after) && s.reserved(
                    1,
                    Ok(p.reservation()->0),
                    &after,
                ),
            res matches Err(TrySendError::Full(t)) ==> t == self && exists|s: InnerState<T>, after: InnerState<T>|
                #![trigger s.reserved(1, Err(TryReserveError::Full), &after)]
                self.state().can_hold(s) && self.state().can_hold(after) && s.reserved(
                    1,
                    Err(TryReserveError::Full),
                    &after,
                ),
            res matches Err(TrySendError::Disconnected(t)) ==> t == self && exists|s: InnerState<T>, after: InnerState<T>|
                #![trigger s.reserved(1, Err(TryReserveError::Disconnected), &after)]
                self.state().can_hold(s) && self.state().can_hold(after) && s.reserved(
                    1,
                    Err(TryReserveError::Disconnected),
                    &after,
                ),
    {
        let r = self.state.try_reserve(1);
        let ghost w = choose|s: InnerState<T>, after: InnerState<T>|
            self.state().can_hold(s) && self.state().can_hold(after) && s.reserved(1, r, &after);
        match r {
            Ok(reservation) => {
                let p = OwnedPermit::new(self, reservation);
                proof {
                    assert(w.0.reserved(1, Ok(p.reservation()->0), &w.1));
                }
                Ok(p)
            },
            Err(TryReserveError::Disconnected) => {
                proof {
                    assert(w.0.reserved(1, Err(TryReserveError::Disconnected), &w.1));
                }
                Err(TrySendError::Disconnected(self))
            },
            Err(TryReserveError::Full) => {
                proof {
                    assert(w.0.reserved(1, Err(TryReserveError::Full), &w.1));
                }
                Err(TrySendError::Full(self))
            },
        }
    }

    /// The sender leaves the channel; the last one to leave disconnects it.
    fn leave(&mut self)
        ensures
            final(self).state() == old(self).state(),
            exists|s: InnerState<T>, after: InnerState<T>| #![trigger s.sender_dropped(&after)]
                old(self).state().can_hold(s) && old(self).state().can_hold(after)
                    && s.sender_dropped(&after),
    {
        self.state.drop_sender();
    }
}

/// The last sender that's dropped will mark the channel as disconnected.
impl<T> Drop for Sender<T> {
    /// A destructor is declared to open no invariant and not to unwind, and nothing else is
    /// accepted for it. This one takes the channel's lock, whose atomics open invariants of
    /// their own, and wakes tasks, which runs the executor's code; neither declaration can be
    /// shown of it, so it is trusted. All it does is call the method below it, whose contract is
    /// proved.
    #[verifier::external_body]
    fn drop(&mut self)
        opens_invariants none
        no_unwind
    {
        self.leave();
    }
}

/// Permit holds a spot in the internal buffer so the message can be sent without awaiting.
pub struct Permit<'a, T> {
    sender: &'a Sender<T>,
    reservation: Option<NodeRef<Spot<T>>>,
}

impl<'a, T> Permit<'a, T> {
    /// The permit has not been used yet.
    pub closed spec fn wf(&self) -> bool {
        self.reservation is Some
    }

    pub closed spec fn sender(&self) -> Sender<T> {
        *self.sender
    }

    /// The reserved place, while the permit holds it.
    pub closed spec fn reservation(&self) -> Option<NodeRef<Spot<T>>> {
        self.reservation
    }

    pub fn new(sender: &'a Sender<T>, reservation: NodeRef<Spot<T>>) -> (p: Self)
        ensures
            p.wf(),
            p.sender() == *sender,
            p.reservation() == Some(reservation),
    {
        Self { sender, reservation: Some(reservation) }
    }

    /// Writes a message to the internal buffer.
    pub fn send(self, value: T)
        requires
            self.wf(),
        ensures
            exists|s: InnerState<T>, o: Result<Option<std::task::Waker>, T>, after: InnerState<T>|
                #![trigger s.permit_sent(self.reservation()->0, value, o, &after)]
                self.sender().state().can_hold(s) && self.sender().state().can_hold(after)
                    && s.permit_sent(self.reservation()->0, value, o, &after),
    {
        let mut this = self;
        match this.reservation.take() {
            Some(reservation) => this.sender.state.send_with_permit(reservation, value),
            None => {},
        }
    }

    /// Gives the reserved place back, unless the permit was used.
    fn release_unused(&mut self)
        ensures
            final(self).reservation() is None,
            final(self).sender() == old(self).sender(),
            old(self).reservation() matches Some(r) ==> exists|s: InnerState<T>, w: Option<std::task::Waker>, after: InnerState<T>|
                #![trigger s.permit_dropped(r, 1, w, &after)]
                old(self).sender().state().can_hold(s) && old(self).sender().state().can_hold(after)
                    && s.permit_dropped(r, 1, w, &after),
    {
        match self.reservation.take() {
            Some(reservation) => self.sender.state.drop_permit(reservation, 1),
            None => {},
        }
    }
}

impl<'a, T> Drop for Permit<'a, T> {
    /// A destructor is declared to open no invariant and not to unwind, and nothing else is
    /// accepted for it. This one takes the channel's lock, whose atomics open invariants of
    /// their own, and wakes tasks, which runs the executor's code; neither declaration can be
    /// shown of it, so it is trusted. All it does is call the method below it, whose contract is
    /// proved.
    #[verifier::external_body]
    fn drop(&mut self)
        opens_invariants none
        no_unwind
    {
        self.release_unused();
    }
}

/// Hands out the permits of a reservation of several places, one at a time.
pub struct PermitIterator<'a, T> {
    sender: &'a Sender<T>,
    reservation: Option<NodeRef<Spot<T>>>,
    count: usize,
}

impl<'a, T> PermitIterator<'a, T> {
    /// Permits are left only while the reservation is held.
    pub closed spec fn wf(&self) -> bool {
        self.count > 0 ==> self.reservation is Some
    }

    /// The number of permits left.
    pub closed spec fn remaining(&self) -> usize {
        self.count
    }

    pub closed spec fn sender(&self) -> Sender<T> {
        *self.sender
    }

    /// The reserved places, while the iterator holds them.
    pub closed spec fn reservation(&self) -> Option<NodeRef<Spot<T>>> {
        self.reservation
    }

    pub fn new(sender: &'a Sender<T>, reservation: NodeRef<Spot<T>>, count: usize) -> (it: Self)
        ensures
            it.wf(),
            it.remaining() == count,
            it.sender() == *sender,
            it.reservation() == Some(reservation),
    {
        Self { sender, reservation: Some(reservation), count }
    }

    /// The next permit, while any is left.
    pub fn next(&mut self) -> (p: Option<Permit<'a, T>>)
        requires
            old(self).wf(),
        ensures
            final(self).wf(),
            old(self).remaining() == 0 ==> p is None && final(self).remaining() == 0,
            old(self).remaining() > 0 ==> (p matches Some(permit) && permit.wf()
                && permit.sender() == old(self).sender() && permit.reservation()
                == old(self).reservation()) && final(self).remaining() == old(self).remaining() - 1,
            final(self).sender() == old(self).sender(),
            final(self).remaining() > 0 ==> final(self).reservation() == old(self).reservation(),
    {
        if self.count == 0 {
            None
        } else {
            self.count = self.count - 1;
            let reservation = if self.count == 0 {
                self.reservation.take()
            } else {
                match &self.reservation {
                    Some(r) => Some(r.clone()),
                    None => None,
                }
            };
            match reservation {
                Some(r) => Some(Permit::new(self.sender, r)),
                None => None,
            }
        }
    }

    /// Gives back the places of the permits that were not handed out.
    fn release_rest(&mut self)
        ensures
            final(self).reservation() is None,
            final(self).remaining() == old(self).remaining(),
            final(self).sender() == old(self).sender(),
            old(self).reservation() matches Some(r) ==> exists|s: InnerState<T>, w: Option<std::task::Waker>, after: InnerState<T>|
                #![trigger s.permit_dropped(r, old(self).remaining(), w, &after)]
                old(self).sender().state().can_hold(s) && old(self).sender().state().can_hold(after)
                    && s.permit_dropped(r, old(self).remaining(), w, &after),
    {
        match self.reservation.take() {
            Some(reservation) => self.sender.state.drop_permit(reservation, self.count),
            None => {},
        }
    }
}

impl<'a, T> Drop for PermitIterator<'a, T> {
    /// A destructor is declared to open no invariant and not to unwind, and nothing else is
    /// accepted for it. This one takes the channel's lock, whose atomics open invariants of
    /// their own, and wakes tasks, which runs the executor's code; neither declaration can be
    /// shown of it, so it is trusted. All it does is call the method below it, whose contract is
    /// proved.
    #[verifier::external_body]
    fn drop(&mut self)
        opens_invariants none
        no_unwind
    {
        self.release_rest();
    }
}

/// Like [Permit], but holds the [Sender] until the message is sent or the place released.
pub struct OwnedPermit<T> {
    sender_and_reservation: Option<(Sender<T>, NodeRef<Spot<T>>)>,
}

impl<T> OwnedPermit<T> {
    /// The permit has not been used yet.
    pub closed spec fn wf(&self) -> bool {
        self.sender_and_reservation is Some
    }

    pub closed spec fn sender(&self) -> Sender<T> {
        (self.sender_and_reservation->0).0
    }

    /// The reserved place, while the permit holds it.
    pub closed spec fn reservation(&self) -> Option<NodeRef<Spot<T>>> {
        match self.sender_and_reservation {
            Some((_, r)) => Some(r),
            None => None,
        }
    }

    pub fn new(sender: Sender<T>, reservation: NodeRef<Spot<T>>) -> (p: Self)
        ensures
            p.wf(),
            p.sender() == sender,
            p.reservation() == Some(reservation),
    {
        Self { sender_and_reservation: Some((sender, reservation)) }
    }

    /// Writes a message to the internal buffer.
    pub fn send(self, value: T) -> (s: Sender<T>)
        requires
            self.wf(),
        ensures
            s == self.sender(),
            exists|st: InnerState<T>, o: Result<Option<std::task::Waker>, T>, after: InnerState<T>|
                #![trigger st.permit_sent(self.reservation()->0, value, o, &after)]
                s.state().can_hold(st) && s.state().can_hold(after) && st.permit_sent(
                    self.reservation()->0,
                    value,
                    o,
                    &after,
                ),
    {
        let ghost r0 = self.reservation()->0;
        let mut this = self;
        match this.sender_and_reservation.take() {
            Some((sender, reservation)) => {
                sender.state.send_with_permit(reservation, value);
                proof {
                    let w = choose|st: InnerState<T>, o: Result<Option<std::task::Waker>, T>, after: InnerState<T>|
                        sender.state.can_hold(st) && sender.state.can_hold(after) && st.permit_sent(
                            reservation,
                            value,
                            o,
                            &after,
                        );
                    assert(reservation == r0);
                    assert(w.0.permit_sent(r0, value, w.1, &w.2));
                }
                sender
            },
            None => vstd::pervasive::unreached(),
        }
    }

    /// Gives the reserved place back and returns the sender.
    pub fn release(self) -> (s: Sender<T>)
        requires
            self.wf(),
        ensures
            s == self.sender(),
            exists|st: InnerState<T>, w: Option<std::task::Waker>, after: InnerState<T>|
                #![trigger st.permit_dropped(self.reservation()->0, 1, w, &after)]
                s.state().can_hold(st) && s.state().can_hold(after) && st.permit_dropped(
                    self.reservation()->0,
                    1,
                    w,
                    &after,
                ),
    {
        let ghost r0 = self.reservation()->0;
        let mut this = self;
        match this.sender_and_reservation.take() {
            Some((sender, reservation)) => {
                sender.state.drop_permit(reservation, 1);
                proof {
                    let w = choose|st: InnerState<T>, w: Option<std::task::Waker>, after: InnerState<T>|
                        sender.state.can_hold(st) && sender.state.can_hold(after) && st.permit_dropped(
                            reservation,
                            1,
                            w,
                            &after,
                        );
                    assert(reservation == r0);
                    assert(w.0.permit_dropped(r0, 1, w.1, &w.2));
                }
                sender
            },
            None => vstd::pervasive::unreached(),
        }
    }

    /// Gives the reserved place back, unless the permit was used.
    fn release_unused(&mut self)
        ensures
            !final(self).wf(),
            old(self).reservation() matches Some(r) ==> exists|s: InnerState<T>, w: Option<std::task::Waker>, after: InnerState<T>|
                #![trigger s.permit_dropped(r, 1, w, &after)]
                old(self).sender().state().can_hold(s) && old(self).sender().state().can_hold(after)
                    && s.permit_dropped(r, 1, w, &after),
    {
        match self.sender_and_reservation.take() {
            Some((sender, reservation)) => {
                sender.state.drop_permit(reservation, 1);
                proof {
                    let w = choose|st: InnerState<T>, w: Option<std::task::Waker>, after: InnerState<T>|
                        sender.state.can_hold(st) && sender.state.can_hold(after) && st.permit_dropped(
                            reservation,
                            1,
                            w,
                            &after,
                        );
                    assert(old(self).sender() == sender);
                    assert(old(self).reservation()->0 == reservation);
                    assert(w.0.permit_dropped(old(self).reservation()->0, 1, w.1, &w.2));
                }
            },
            None => {},
        }
    }
}

impl<T> Drop for OwnedPermit<T> {
    /// A destructor is declared to open no invariant and not to unwind, and nothing else is
    /// accepted for it. This one takes the channel's lock, whose atomics open invariants of
    /// their own, and wakes tasks, which runs the executor's code; neither declaration can be
    /// shown of it, so it is trusted. All it does is call the method below it, whose contract is
    /// proved.
    #[verifier::external_body]
    fn drop(&mut self)
        opens_invariants none
        no_unwind
    {
        self.release_unused();
    }
}

} // verus!
