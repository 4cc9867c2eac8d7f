//! Delivery through the channel: no value is lost and none is received twice.
//!
//! Every operation on the channel's state is one [Step]; [step_holds] says that a step is
//! what its operation's contract allows. Over any run of such steps, the values received plus
//! the values still queued are, as a multiset, the values queued at the start plus the values
//! the channel accepted.
use crate::linked_list::NodeRef;
use crate::queue::Spot;
use crate::state::{lemma_ready_prefix, values_of, InnerState, Poll, SendWaker};
use crate::{RecvError, ReserveError, SendError, TryRecvError, TryReserveError, TrySendError};
use std::task::Waker;
use vstd::multiset::Multiset;
use vstd::prelude::*;

verus! {

broadcast use vstd::multiset::group_multiset_axioms;

/// The values in the spots, as a multiset; reservations hold none.
pub open spec fn queued<T>(s: Seq<Spot<T>>) -> Multiset<T>
    decreases s.len(),
{
    if s.len() == 0 {
        Multiset::empty()
    } else {
        let rest = queued(s.drop_last());
        match s.last() {
            Spot::Value(v) => rest.insert(v),
            Spot::Reserved(_) => rest,
        }
    }
}

/// One operation on the channel's state, with its arguments and what it gave back.
pub enum Step<T> {
    Send { value: T, outcome: Result<Option<Waker>, TrySendError<T>> },
    SendPoll {
        waker: Waker,
        before_value: Option<T>,
        before_waiting: Option<NodeRef<SendWaker>>,
        outcome: Poll<Result<(), SendError<T>>>,
        woken: Option<Waker>,
        after_value: Option<T>,
        after_waiting: Option<NodeRef<SendWaker>>,
    },
    Reserve { count: usize, outcome: Result<NodeRef<Spot<T>>, TryReserveError> },
    ReservePoll {
        count: usize,
        waker: Waker,
        before_send_future: Option<NodeRef<SendWaker>>,
        outcome: Poll<Result<NodeRef<Spot<T>>, ReserveError>>,
        after_send_future: Option<NodeRef<SendWaker>>,
    },
    Fill { reservation: NodeRef<Spot<T>>, value: T, outcome: Result<Option<Waker>, T> },
    Release { reservation: NodeRef<Spot<T>>, count: usize, woken: Option<Waker> },
    Receive { outcome: Result<T, TryRecvError> },
    ReceiveMany {
        count: usize,
        before_vec: Seq<T>,
        outcome: Result<usize, TryRecvError>,
        woken: Option<Waker>,
        after_vec: Seq<T>,
    },
    RecvPoll {
        waker: Waker,
        before_has_received: bool,
        before_waker_ref: Option<NodeRef<Waker>>,
        outcome: Poll<Result<T, RecvError>>,
        woken: Option<Waker>,
        after_has_received: bool,
        after_waker_ref: Option<NodeRef<Waker>>,
    },
    RecvManyPoll {
        count: usize,
        waker: Waker,
        before_has_received: bool,
        before_waker_ref: Option<NodeRef<Waker>>,
        before_vec: Seq<T>,
        outcome: Poll<Result<usize, RecvError>>,
        woken: Option<Waker>,
        after_has_received: bool,
        after_waker_ref: Option<NodeRef<Waker>>,
        after_vec: Seq<T>,
    },
    AddSender,
    AddReceiver,
    DropSender,
    DropReceiver,
    CloseAll,
    DropSendFuture { waiting: Option<NodeRef<SendWaker>>, woken: Option<Waker> },
    DropRecvFuture { has_received: bool, waker_ref: Option<NodeRef<Waker>>, woken: Option<Waker> },
}

/// `after` is what the step's operation makes of `s`, as its contract says.
pub open spec fn step_holds<T>(s: InnerState<T>, step: Step<T>, after: InnerState<T>) -> bool {
    match step {
        Step::Send { value, outcome } => s.sent(value, outcome, &after),
        Step::SendPoll {
            waker,
            before_value,
            before_waiting,
            outcome,
            woken,
            after_value,
            after_waiting,
        } => s.send_polled(
            waker,
            before_value,
            before_waiting,
            outcome,
            woken,
            after_value,
            after_waiting,
            &after,
        ),
        Step::Reserve { count, outcome } => s.reserved(count, outcome, &after),
        Step::ReservePoll { count, waker, before_send_future, outcome, after_send_future } =>
            s.reserve_polled(count, waker, before_send_future, outcome, after_send_future, &after),
        Step::Fill { reservation, value, outcome } => s.permit_sent(reservation, value, outcome, &after),
        Step::Release { reservation, count, woken } => s.permit_dropped(reservation, count, woken, &after),
        Step::Receive { outcome } => s.received(outcome, &after),
        Step::ReceiveMany { count, before_vec, outcome, woken, after_vec } => s.received_many(
            count,
            before_vec,
            outcome,
            woken,
            after_vec,
            &after,
        ),
        Step::RecvPoll {
            waker,
            before_has_received,
            before_waker_ref,
            outcome,
            woken,
            after_has_received,
            after_waker_ref,
        } => s.recv_polled(
            waker,
            before_has_received,
            before_waker_ref,
            outcome,
            woken,
            after_has_received,
            after_waker_ref,
            &after,
        ),
        Step::RecvManyPoll {
            count,
            waker,
            before_has_received,
            before_waker_ref,
            before_vec,
            outcome,
            woken,
            after_has_received,
            after_waker_ref,
            after_vec,
        } => s.recv_many_polled(
            count,
            waker,
            before_has_received,
            before_waker_ref,
            before_vec,
            outcome,
            woken,
            after_has_received,
            after_waker_ref,
            after_vec,
            &after,
        ),
        Step::AddSender => s.sender_added(&after),
        Step::AddReceiver => s.receiver_added(&after),
        Step::DropSender => s.sender_dropped(&after),
        Step::DropReceiver => s.receiver_dropped(&after),
        Step::CloseAll => s.all_receivers_closed(&after),
        Step::DropSendFuture { waiting, woken } => s.send_future_dropped(waiting, woken, &after),
        Step::DropRecvFuture { has_received, waker_ref, woken } => s.recv_future_dropped(
            has_received,
            waker_ref,
            woken,
            &after,
        ),
    }
}

/// The values the step hands to the channel: the value of a send or of a filled place that
/// was accepted.
pub open spec fn step_in<T>(step: Step<T>) -> Multiset<T> {
    match step {
        Step::Send { value, outcome } => if outcome is Ok {
            Multiset::singleton(value)
        } else {
            Multiset::empty()
        },
        Step::SendPoll { before_value, outcome, .. } => if before_value is Some && outcome
            == Poll::Ready(Ok::<(), SendError<T>>(())) {
            Multiset::singleton(before_value->0)
        } else {
            Multiset::empty()
        },
        Step::Fill { value, outcome, .. } => if outcome is Ok {
            Multiset::singleton(value)
        } else {
            Multiset::empty()
        },
        _ => Multiset::empty(),
    }
}

/// The values the step hands to a receiver.
pub open spec fn step_out<T>(step: Step<T>) -> Multiset<T> {
    match step {
        Step::Receive { outcome } => match outcome {
            Ok(v) => Multiset::singleton(v),
            Err(_) => Multiset::empty(),
        },
        Step::ReceiveMany { before_vec, outcome, after_vec, .. } => if outcome is Ok {
            after_vec.subrange(before_vec.len() as int, after_vec.len() as int).to_multiset()
        } else {
            Multiset::empty()
        },
        Step::RecvPoll { outcome, .. } => match outcome {
            Poll::Ready(Ok(v)) => Multiset::singleton(v),
            _ => Multiset::empty(),
        },
        Step::RecvManyPoll { before_vec, outcome, after_vec, .. } => if outcome matches Poll::Ready(
            Ok(_),
        ) {
            after_vec.subrange(before_vec.len() as int, after_vec.len() as int).to_multiset()
        } else {
            Multiset::empty()
        },
        _ => Multiset::empty(),
    }
}

/// All the values a run of steps hands to the channel.
pub open spec fn total_in<T>(steps: Seq<Step<T>>) -> Multiset<T>
    decreases steps.len(),
{
    if steps.len() == 0 {
        Multiset::empty()
    } else {
        total_in(steps.drop_last()).add(step_in(steps.last()))
    }
}

/// All the values a run of steps hands to receivers.
pub open spec fn total_out<T>(steps: Seq<Step<T>>) -> Multiset<T>
    decreases steps.len(),
{
    if steps.len() == 0 {
        Multiset::empty()
    } else {
        total_out(steps.drop_last()).add(step_out(steps.last()))
    }
}

/// The values of two runs of spots, one after the other.
proof fn lemma_queued_concat<T>(a: Seq<Spot<T>>, b: Seq<Spot<T>>)
    ensures
        queued(a + b) =~= queued(a).add(queued(b)),
    decreases b.len(),
{
    if b.len() == 0 {
        assert(a + b =~= a);
    } else {
        lemma_queued_concat(a, b.drop_last());
        assert((a + b).drop_last() =~= a + b.drop_last());
        assert((a + b).last() == b.last());
    }
}

/// The values of a single spot.
proof fn lemma_queued_one<T>(x: Spot<T>)
    ensures
        queued(seq![x]) =~= (match x {
            Spot::Value(v) => Multiset::singleton(v),
            Spot::Reserved(_) => Multiset::empty(),
        }),
{
    let s = seq![x];
    assert(s.drop_last() =~= Seq::<Spot<T>>::empty());
    assert(s.last() == x);
    assert(queued(s.drop_last()) == Multiset::<T>::empty());
    match x {
        Spot::Value(v) => {
            assert(queued(s) == Multiset::<T>::empty().insert(v));
            assert(Multiset::<T>::empty().insert(v) =~= Multiset::singleton(v));
        },
        Spot::Reserved(_) => {
            assert(queued(s) == Multiset::<T>::empty());
        },
    }
}

/// The spots, cut around position `p`.
proof fn lemma_queued_around<T>(s: Seq<Spot<T>>, p: int)
    requires
        0 <= p < s.len(),
    ensures
        queued(s) =~= queued(s.subrange(0, p)).add(queued(seq![s[p]])).add(
            queued(s.subrange(p + 1, s.len() as int)),
        ),
{
    assert(s =~= s.subrange(0, p) + seq![s[p]] + s.subrange(p + 1, s.len() as int));
    lemma_queued_concat(s.subrange(0, p) + seq![s[p]], s.subrange(p + 1, s.len() as int));
    lemma_queued_concat(s.subrange(0, p), seq![s[p]]);
}

/// Replacing the spot at `p` by `x` trades its values for those of `x`.
proof fn lemma_queued_update<T>(s: Seq<Spot<T>>, p: int, x: Spot<T>)
    requires
        0 <= p < s.len(),
    ensures
        queued(s.update(p, x)).add(queued(seq![s[p]])) =~= queued(s).add(queued(seq![x])),
{
    let t = s.update(p, x);
    lemma_queued_around(s, p);
    lemma_queued_around(t, p);
    assert(t.subrange(0, p) =~= s.subrange(0, p));
    assert(t.subrange(p + 1, t.len() as int) =~= s.subrange(p + 1, s.len() as int));
}

/// Inserting `x` at `p` adds the values of `x`.
proof fn lemma_queued_insert<T>(s: Seq<Spot<T>>, p: int, x: Spot<T>)
    requires
        0 <= p <= s.len(),
    ensures
        queued(s.insert(p, x)) =~= queued(s).add(queued(seq![x])),
{
    let t = s.insert(p, x);
    assert(t =~= s.subrange(0, p) + seq![x] + s.subrange(p, s.len() as int));
    assert(s =~= s.subrange(0, p) + s.subrange(p, s.len() as int));
    lemma_queued_concat(s.subrange(0, p) + seq![x], s.subrange(p, s.len() as int));
    lemma_queued_concat(s.subrange(0, p), seq![x]);
    lemma_queued_concat(s.subrange(0, p), s.subrange(p, s.len() as int));
}

/// Removing the spot at `p` takes away its values.
proof fn lemma_queued_remove<T>(s: Seq<Spot<T>>, p: int)
    requires
        0 <= p < s.len(),
    ensures
        queued(s.remove(p)).add(queued(seq![s[p]])) =~= queued(s),
{
    let t = s.remove(p);
    lemma_queued_around(s, p);
    assert(t =~= s.subrange(0, p) + s.subrange(p + 1, s.len() as int));
    lemma_queued_concat(s.subrange(0, p), s.subrange(p + 1, s.len() as int));
}

/// Spots that all hold values hold exactly those values.
proof fn lemma_queued_values<T>(s: Seq<Spot<T>>)
    requires
        forall|i: int| 0 <= i < s.len() ==> #[trigger] s[i] is Value,
    ensures
        queued(s) =~= values_of(s).to_multiset(),
    decreases s.len(),
{
    broadcast use vstd::seq_lib::group_to_multiset_ensures;

    if s.len() > 0 {
        let d = s.drop_last();
        assert forall|i: int| 0 <= i < d.len() implies #[trigger] d[i] is Value by {
            assert(d[i] == s[i]);
        }
        lemma_queued_values(d);
        assert(s[s.len() - 1] is Value);
        assert(values_of(s) =~= values_of(d).push(s.last()->Value_0));
    } else {
        assert(values_of(s) =~= Seq::<T>::empty());
    }
}

/// Taking the first `n` ready values of `q`: the values taken and the values left make up
/// the values of `q`.
proof fn lemma_queued_take<T>(q: Seq<Spot<T>>, n: int)
    requires
        0 <= n <= crate::state::ready_prefix(q),
    ensures
        queued(q) =~= values_of(q.subrange(0, n)).to_multiset().add(queued(q.subrange(n, q.len() as int))),
{
    lemma_ready_prefix(q, n);
    let pre = q.subrange(0, n);
    assert forall|i: int| 0 <= i < pre.len() implies #[trigger] pre[i] is Value by {
        assert(pre[i] == q[i]);
    }
    lemma_queued_values(pre);
    assert(q =~= pre + q.subrange(n, q.len() as int));
    lemma_queued_concat(pre, q.subrange(n, q.len() as int));
}

/// Filling a place of a reservation that holds at least one adds the value.
proof fn lemma_queued_filled<T>(q: Seq<Spot<T>>, p: int, v: T)
    requires
        0 <= p < q.len(),
        q[p] matches Spot::Reserved(c) && c >= 1,
    ensures
        queued(crate::queue::filled(q, p, v)) =~= queued(q).insert(v),
{
    let c = q[p]->Reserved_0;
    lemma_queued_one(q[p]);
    lemma_queued_one(Spot::Value(v));
    assert(queued(seq![q[p]]) =~= Multiset::<T>::empty());
    assert(queued(seq![Spot::Value(v)]) =~= Multiset::singleton(v));
    let f = crate::queue::filled(q, p, v);
    if c == 1 {
        let u = q.update(p, Spot::Value(v));
        lemma_queued_update(q, p, Spot::Value(v));
        assert(f == u);
        assert forall|x: T| #[trigger] queued(f).count(x) == queued(q).insert(v).count(x) by {
            assert(queued(u).add(queued(seq![q[p]])).count(x) == queued(q).add(
                queued(seq![Spot::Value(v)]),
            ).count(x));
        }
    } else {
        let r = Spot::<T>::Reserved((c - 1) as usize);
        let u = q.update(p, r);
        lemma_queued_one(r);
        assert(queued(seq![r]) =~= Multiset::<T>::empty());
        lemma_queued_update(q, p, r);
        lemma_queued_insert(u, p, Spot::Value(v));
        assert(f == u.insert(p, Spot::Value(v)));
        assert forall|x: T| #[trigger] queued(f).count(x) == queued(q).insert(v).count(x) by {
            assert(queued(u).add(queued(seq![q[p]])).count(x) == queued(q).add(queued(seq![r])).count(
                x,
            ));
            assert(queued(f).count(x) == queued(u).add(queued(seq![Spot::Value(v)])).count(x));
        }
    }
}

/// One step keeps the count: the values it hands out plus the values left queued are the
/// values queued before plus the values it takes in.
pub proof fn law_step_delivers<T>(s: InnerState<T>, step: Step<T>, after: InnerState<T>)
    requires
        s.wf(),
        step_holds(s, step, after),
    ensures
        queued(after.queue()@).add(step_out(step)) =~= queued(s.queue()@).add(step_in(step)),
{
    s.lemma_model();
    s.queue().lemma_model();
    let q = s.queue()@;
    match step {
        Step::Send { value, outcome } => {
            if outcome is Ok {
                assert(q.push(Spot::Value(value)) =~= q + seq![Spot::Value(value)]);
                lemma_queued_concat(q, seq![Spot::Value(value)]);
                lemma_queued_one(Spot::Value(value));
            }
        },
        Step::SendPoll { before_value, outcome, .. } => {
            if before_value is Some && outcome == Poll::Ready(Ok::<(), SendError<T>>(())) && !s.disconnected() {
                let v = before_value->0;
                assert(q.push(Spot::Value(v)) =~= q + seq![Spot::Value(v)]);
                lemma_queued_concat(q, seq![Spot::Value(v)]);
                lemma_queued_one(Spot::Value(v));
            }
        },
        Step::Reserve { count, outcome } => {
            if outcome is Ok {
                assert(q.push(Spot::Reserved(count)) =~= q + seq![Spot::<T>::Reserved(count)]);
                lemma_queued_concat(q, seq![Spot::<T>::Reserved(count)]);
                lemma_queued_one(Spot::<T>::Reserved(count));
            }
        },
        Step::ReservePoll { count, outcome, .. } => {
            if outcome matches Poll::Ready(Ok(_)) {
                assert(q.push(Spot::Reserved(count)) =~= q + seq![Spot::<T>::Reserved(count)]);
                lemma_queued_concat(q, seq![Spot::<T>::Reserved(count)]);
                lemma_queued_one(Spot::<T>::Reserved(count));
            }
        },
        Step::Fill { reservation, value, outcome } => {
            if s.queue().holds_reservation(reservation) {
                let p = s.queue().position(reservation);
                crate::queue::lemma_written_filled(s.queue(), reservation, value, after.queue());
                lemma_queued_filled(q, p, value);
            }
        },
        Step::Release { reservation, count, .. } => {
            let qq = s.queue();
            if qq.contains_ref(reservation) && q[qq.position(reservation)] is Reserved && count
                <= q[qq.position(reservation)]->Reserved_0 {
                let p = qq.position(reservation);
                let c = q[p]->Reserved_0;
                lemma_queued_one(q[p]);
                if count == c {
                    lemma_queued_remove(q, p);
                } else {
                    let r = Spot::<T>::Reserved((c - count) as usize);
                    lemma_queued_one(r);
                    lemma_queued_update(q, p, r);
                }
            }
        },
        Step::Receive { outcome } => {
            if q.len() > 0 && q[0] is Value {
                lemma_queued_take(q, 1);
                assert(values_of(q.subrange(0, 1)) =~= seq![q[0]->Value_0]);
                assert(q.drop_first() =~= q.subrange(1, q.len() as int));
                broadcast use vstd::seq_lib::group_to_multiset_ensures;
                assert(seq![q[0]->Value_0] =~= Seq::<T>::empty().push(q[0]->Value_0));
            }
        },
        Step::ReceiveMany { count, before_vec, outcome, after_vec, .. } => {
            let n = if count <= crate::state::ready_prefix(q) {
                count as nat
            } else {
                crate::state::ready_prefix(q)
            };
            if n > 0 || count == 0 {
                lemma_queued_take(q, n as int);
                assert(after_vec.subrange(before_vec.len() as int, after_vec.len() as int)
                    =~= values_of(q.subrange(0, n as int)));
            }
        },
        Step::RecvPoll { outcome, .. } => {
            if q.len() > 0 && q[0] is Value {
                lemma_queued_take(q, 1);
                assert(values_of(q.subrange(0, 1)) =~= seq![q[0]->Value_0]);
                assert(q.drop_first() =~= q.subrange(1, q.len() as int));
                broadcast use vstd::seq_lib::group_to_multiset_ensures;
                assert(seq![q[0]->Value_0] =~= Seq::<T>::empty().push(q[0]->Value_0));
            }
        },
        Step::RecvManyPoll { count, before_vec, outcome, after_vec, .. } => {
            let n = if count <= crate::state::ready_prefix(q) {
                count as nat
            } else {
                crate::state::ready_prefix(q)
            };
            if n > 0 || count == 0 {
                lemma_queued_take(q, n as int);
                assert(after_vec.subrange(before_vec.len() as int, after_vec.len() as int)
                    =~= values_of(q.subrange(0, n as int)));
            }
        },
        _ => {},
    }
}

/// No value is lost and none is received twice: over any run of steps, each allowed by its
/// operation's contract, the values handed to receivers plus the values still queued are, as
/// a multiset, the values queued at the start plus the values the channel accepted.
pub proof fn law_delivery<T>(states: Seq<InnerState<T>>, steps: Seq<Step<T>>)
    requires
        states.len() == steps.len() + 1,
        forall|i: int| 0 <= i < states.len() ==> #[trigger] states[i].wf(),
        forall|i: int|
            #![trigger steps[i]]
            0 <= i < steps.len() ==> step_holds(states[i], steps[i], states[i + 1]),
    ensures
        queued(states.last().queue()@).add(total_out(steps)) =~= queued(states[0].queue()@).add(
            total_in(steps),
        ),
    decreases steps.len(),
{
    if steps.len() > 0 {
        let k = steps.len() - 1;
        let states0 = states.drop_last();
        let steps0 = steps.drop_last();
        assert forall|i: int| 0 <= i < states0.len() implies #[trigger] states0[i].wf() by {
            assert(states0[i] == states[i]);
        }
        assert forall|i: int| #![trigger steps0[i]] 0 <= i < steps0.len() implies step_holds(
            states0[i],
            steps0[i],
            states0[i + 1],
        ) by {
            assert(steps0[i] == steps[i]);
            assert(states0[i] == states[i]);
            assert(states0[i + 1] == states[i + 1]);
        }
        law_delivery(states0, steps0);
        assert(states[k].wf());
        assert(step_holds(states[k], steps[k], states[k + 1]));
        law_step_delivers(states[k], steps[k], states[k + 1]);
        assert(states0.last() == states[k]);
        assert(states.last() == states[k + 1]);
        assert(steps.last() == steps[k]);
        assert(states0[0] == states[0]);
        assert(total_in(steps) == total_in(steps0).add(step_in(steps[k])));
        assert(total_out(steps) == total_out(steps0).add(step_out(steps[k])));
        let first = queued(states[0].queue()@);
        let mid = queued(states[k].queue()@);
        let last = queued(states[k + 1].queue()@);
        assert forall|x: T| #[trigger] last.add(total_out(steps)).count(x) == first.add(
            total_in(steps),
        ).count(x) by {
            assert(mid.add(total_out(steps0)).count(x) == first.add(total_in(steps0)).count(x));
            assert(last.add(step_out(steps[k])).count(x) == mid.add(step_in(steps[k])).count(x));
        }
    } else {
        assert(states.last() == states[0]);
        assert(total_in(steps) == Multiset::<T>::empty());
        assert(total_out(steps) == Multiset::<T>::empty());
    }
}

/// Every value sent is received by exactly one receiver or is still queued: over any run of
/// steps that starts with no value queued, the values handed to receivers plus the values
/// still queued are exactly the values the channel accepted.
pub proof fn law_each_value_delivered_once<T>(states: Seq<InnerState<T>>, steps: Seq<Step<T>>)
    requires
        states.len() == steps.len() + 1,
        queued(states[0].queue()@) == Multiset::<T>::empty(),
        forall|i: int| 0 <= i < states.len() ==> #[trigger] states[i].wf(),
        forall|i: int|
            #![trigger steps[i]]
            0 <= i < steps.len() ==> step_holds(states[i], steps[i], states[i + 1]),
    ensures
        total_out(steps).add(queued(states.last().queue()@)) =~= total_in(steps),
{
    law_delivery(states, steps);
    let last = queued(states.last().queue()@);
    assert forall|x: T| #[trigger] total_out(steps).add(last).count(x) == total_in(steps).count(x) by {
        assert(last.add(total_out(steps)).count(x) == queued(states[0].queue()@).add(total_in(steps)).count(x));
    }
}

} // verus!
