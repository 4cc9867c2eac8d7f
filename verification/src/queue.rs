//! The channel's buffer: a list of spots, each holding a value that is ready to be read or a
//! number of places reserved for values still to come.
use crate::linked_list::{LinkedList, NodeRef};
use vstd::prelude::*;

verus! {

/// A spot in the queue.
pub enum Spot<T> {
    /// An actual value that is meant to be read.
    Value(T),
    /// A reserved spot which will block the reads once it is the until a value is written or the
    /// spot released.
    Reserved(usize),
}

/// Describes how many reserved spots to release.
pub enum Release {
    /// Uesd to release all reserved spots for the reference (e.g. in case of dropping an
    /// iterator).
    All,
    /// Used to release a single reserved spot for the reference (e.g. for a single permit).
    Count(usize),
}

/// How many places of the queue a spot takes: one for a value, and as many as were reserved
/// for a reservation.
pub open spec fn weight<T>(spot: Spot<T>) -> nat {
    match spot {
        Spot::Value(_) => 1,
        Spot::Reserved(count) => count as nat,
    }
}

/// How many places of the queue the spots take together.
pub open spec fn occupied<T>(spots: Seq<Spot<T>>) -> nat
    decreases spots.len(),
{
    if spots.len() == 0 {
        0
    } else {
        occupied(spots.drop_last()) + weight(spots.last())
    }
}

/// The places taken by two runs of spots add up.
pub proof fn lemma_occupied_concat<T>(a: Seq<Spot<T>>, b: Seq<Spot<T>>)
    ensures
        occupied(a + b) == occupied(a) + occupied(b),
    decreases b.len(),
{
    if b.len() == 0 {
        assert(a + b =~= a);
    } else {
        lemma_occupied_concat(a, b.drop_last());
        assert((a + b).drop_last() =~= a + b.drop_last());
    }
}

/// The places taken by the spots before, at, and after position `i`.
pub proof fn lemma_occupied_split<T>(s: Seq<Spot<T>>, i: int)
    requires
        0 <= i < s.len(),
    ensures
        occupied(s) == occupied(s.subrange(0, i)) + weight(s[i]) + occupied(
            s.subrange(i + 1, s.len() as int),
        ),
{
    let a = s.subrange(0, i);
    let b = s.subrange(i + 1, s.len() as int);
    assert(s =~= a + seq![s[i]] + b);
    lemma_occupied_concat(a + seq![s[i]], b);
    lemma_occupied_concat(a, seq![s[i]]);
    assert(seq![s[i]].drop_last() =~= Seq::<Spot<T>>::empty());
    assert(occupied(Seq::<Spot<T>>::empty()) == 0);
    assert(occupied(seq![s[i]]) == weight(s[i]));
}

/// Replacing the spot at `i` changes the places taken by the difference in weight.
pub proof fn lemma_occupied_update<T>(s: Seq<Spot<T>>, i: int, x: Spot<T>)
    requires
        0 <= i < s.len(),
    ensures
        occupied(s.update(i, x)) + weight(s[i]) == occupied(s) + weight(x),
{
    let t = s.update(i, x);
    lemma_occupied_split(s, i);
    lemma_occupied_split(t, i);
    assert(t.subrange(0, i) =~= s.subrange(0, i));
    assert(t.subrange(i + 1, t.len() as int) =~= s.subrange(i + 1, s.len() as int));
}

/// Inserting a spot adds its weight.
pub proof fn lemma_occupied_insert<T>(s: Seq<Spot<T>>, i: int, x: Spot<T>)
    requires
        0 <= i <= s.len(),
    ensures
        occupied(s.insert(i, x)) == occupied(s) + weight(x),
{
    let t = s.insert(i, x);
    lemma_occupied_split(t, i);
    assert(t.subrange(0, i) =~= s.subrange(0, i));
    assert(t.subrange(i + 1, t.len() as int) =~= s.subrange(i, s.len() as int));
    lemma_occupied_concat(s.subrange(0, i), s.subrange(i, s.len() as int));
    assert(s =~= s.subrange(0, i) + s.subrange(i, s.len() as int));
}

/// Removing a spot takes its weight away.
pub proof fn lemma_occupied_remove<T>(s: Seq<Spot<T>>, i: int)
    requires
        0 <= i < s.len(),
    ensures
        occupied(s.remove(i)) + weight(s[i]) == occupied(s),
{
    let t = s.remove(i);
    lemma_occupied_split(s, i);
    assert(t =~= s.subrange(0, i) + s.subrange(i + 1, s.len() as int));
    lemma_occupied_concat(s.subrange(0, i), s.subrange(i + 1, s.len() as int));
}

/// A wrapper around [LinkedList] that processes reservations, writes and reads.
///
/// The places taken by values and reservations never exceed the capacity.
pub struct Queue<T> {
    list: LinkedList<Spot<T>>,
    len: usize,
    cap: usize,
}

impl<T> Queue<T> {
    /// The spots, from the one read next to the one pushed last.
    pub closed spec fn view(&self) -> Seq<Spot<T>> {
        self.list@
    }

    /// The keys of the handles of the spots, in the same order.
    pub closed spec fn keys(&self) -> Seq<(u64, usize, u64)> {
        self.list.keys()
    }

    /// The list that holds the spots.
    pub closed spec fn spots(&self) -> LinkedList<Spot<T>> {
        self.list
    }

    /// The maximum number of places.
    pub closed spec fn capacity(&self) -> nat {
        self.cap as nat
    }

    pub closed spec fn wf(&self) -> bool {
        &&& self.list.wf()
        &&& self.len == occupied(self.list@)
        &&& self.len <= self.cap
    }

    /// The handle refers to a spot of the queue.
    pub open spec fn contains_ref(&self, r: NodeRef<Spot<T>>) -> bool {
        self.spots().contains_ref(r)
    }

    /// The position of the handle's spot, counted from the next one to be read.
    pub open spec fn position(&self, r: NodeRef<Spot<T>>) -> int {
        self.spots().position(r)
    }

    /// The handle refers to a reservation of at least one place.
    pub open spec fn holds_reservation(&self, r: NodeRef<Spot<T>>) -> bool {
        &&& self.contains_ref(r)
        &&& self@[self.position(r)] matches Spot::Reserved(c) && c >= 1
    }

    /// `after` is this queue with one place of the reservation filled by `value`: the value
    /// takes the reservation's spot when it was the last place, and goes just before it
    /// otherwise, under a new handle.
    pub open spec fn written(&self, reservation: NodeRef<Spot<T>>, value: T, after: Self) -> bool {
        let p = self.position(reservation);
        let c = self@[p]->Reserved_0;
        &&& c == 1 ==> after@ == self@.update(p, Spot::Value(value)) && after.keys() == self.keys()
        &&& c > 1 ==> exists|r: NodeRef<Spot<T>>|
            after@ == self@.update(p, Spot::Reserved((c - 1) as usize)).insert(p, Spot::Value(value))
                && after.keys() == self.keys().insert(p, r.key()) && !self.spots().issued(r)
                && after.spots().issued(r)
    }

    /// The number of places a release gives back.
    pub open spec fn release_count(&self, reservation: NodeRef<Spot<T>>, release: Release) -> nat {
        match release {
            Release::All => self@[self.position(reservation)]->Reserved_0 as nat,
            Release::Count(n) => n as nat,
        }
    }

    /// `after` is this queue with the places given back: the reservation leaves the queue when
    /// all its places go, and holds the rest otherwise.
    pub open spec fn released(&self, reservation: NodeRef<Spot<T>>, release: Release, after: Self) -> bool {
        let p = self.position(reservation);
        let c = self@[p]->Reserved_0;
        let n = self.release_count(reservation, release);
        &&& n == c ==> after@ == self@.remove(p) && after.keys() == self.keys().remove(p)
        &&& n < c ==> after@ == self@.update(p, Spot::Reserved((c - n) as usize))
            && after.keys() == self.keys()
        &&& occupied(after@) + n == occupied(self@)
    }

    /// Facts about a well-formed queue.
    pub proof fn lemma_model(&self)
        requires
            self.wf(),
        ensures
            occupied(self@) <= self.capacity(),
            self.spots().wf(),
            self.spots()@ == self@,
            self.spots().keys() == self.keys(),
            self.keys().len() == self@.len(),
            forall|r: NodeRef<Spot<T>>|
                #[trigger] self.contains_ref(r) ==> 0 <= self.position(r) < self@.len(),
    {
        self.list.lemma_model();
    }

    /// Creates a new instance with the provided capacity.
    pub fn new(cap: usize) -> (q: Self)
        ensures
            q.wf(),
            q@ == Seq::<Spot<T>>::empty(),
            q.capacity() == cap,
    {
        Queue { list: LinkedList::new(), len: 0, cap }
    }

    /// Returns the number of queued items, including values and reserved spots.
    pub fn len(&self) -> (n: usize)
        requires
            self.wf(),
        ensures
            n == occupied(self@),
    {
        self.len
    }

    /// Returns the maximum number of items in the Queue. This value never changes.
    pub fn cap(&self) -> (n: usize)
        ensures
            n == self.capacity(),
    {
        self.cap
    }

    /// Whether the queue holds no spot at all.
    pub fn is_empty(&self) -> (b: bool)
        requires
            self.wf(),
        ensures
            b == (self@.len() == 0),
    {
        self.list.is_empty()
    }

    /// Whether the next spot holds a value that can be read.
    pub fn next_is_value(&self) -> (b: bool)
        requires
            self.wf(),
        ensures
            b == (self@.len() > 0 && self@[0] is Value),
    {
        match self.list.head() {
            Some(Spot::Value(_)) => true,
            _ => false,
        }
    }

    /// Whether `count` more places fit in the queue.
    pub fn has_room_for(&self, count: usize) -> (b: bool)
        requires
            self.wf(),
        ensures
            b == (occupied(self@) + count <= self.capacity()),
    {
        count <= self.cap - self.len
    }

    /// The number of places the handle still reserves, when it refers to a reservation of
    /// this queue.
    pub fn reserved_count(&self, reservation: &NodeRef<Spot<T>>) -> (res: Option<usize>)
        requires
            self.wf(),
        ensures
            res == (if self.contains_ref(*reservation) {
                match self@[self.position(*reservation)] {
                    Spot::Reserved(c) => Some(c),
                    Spot::Value(_) => None,
                }
            } else {
                None
            }),
    {
        match self.list.get(reservation) {
            Some(Spot::Reserved(count)) => Some(*count),
            _ => None,
        }
    }

    /// Attempts to reserve a number of spots in the queue if there is room.
    pub fn try_reserve(&mut self, count: usize) -> (res: Option<NodeRef<Spot<T>>>)
        requires
            old(self).wf(),
        ensures
            final(self).wf(),
            final(self).capacity() == old(self).capacity(),
            old(self).spots().keeps_handles(&final(self).spots()),
            occupied(old(self)@) + count > old(self).capacity() ==> res is None && *final(self)
                == *old(self),
            occupied(old(self)@) + count <= old(self).capacity() ==> (res matches Some(r)
                && final(self)@ == old(self)@.push(Spot::Reserved(count))
                && final(self).keys() == old(self).keys().push(r.key())
                && !old(self).spots().issued(r) && final(self).spots().issued(r)),
    {
        if count > self.cap - self.len {
            return None;
        }
        let reservation = self.list.push_tail(Spot::Reserved(count));
        self.len = self.len + count;
        proof {
            assert(old(self).list@.push(Spot::Reserved(count)).drop_last() =~= old(self).list@);
        }
        Some(reservation)
    }

    /// Reads the next ready value, if any.
    pub fn read_next_value(&mut self) -> (res: Option<T>)
        requires
            old(self).wf(),
        ensures
            final(self).wf(),
            final(self).capacity() == old(self).capacity(),
            old(self).spots().keeps_handles(&final(self).spots()),
            (old(self)@.len() > 0 && old(self)@[0] is Value) ==> res == Some(old(self)@[0]->Value_0)
                && final(self)@ == old(self)@.drop_first()
                && final(self).keys() == old(self).keys().drop_first(),
            !(old(self)@.len() > 0 && old(self)@[0] is Value) ==> res is None && *final(self)
                == *old(self),
    {
        match self.list.head() {
            Some(Spot::Value(_)) => {},
            _ => {
                return None;
            },
        }
        let spot = self.list.pop_head();
        proof {
            lemma_occupied_remove(old(self).list@, 0);
            assert(old(self).list@.remove(0) =~= old(self).list@.drop_first());
        }
        match spot {
            Some(Spot::Value(value)) => {
                self.len = self.len - 1;
                Some(value)
            },
            _ => {
                proof {
                    assert(false);
                }
                None
            },
        }
    }

    /// Replaces a single reserved spots with a value.
    pub fn write(&mut self, reservation: &NodeRef<Spot<T>>, value: T)
        requires
            old(self).wf(),
            old(self).holds_reservation(*reservation),
        ensures
            final(self).wf(),
            final(self).capacity() == old(self).capacity(),
            old(self).spots().keeps_handles(&final(self).spots()),
            occupied(final(self)@) == occupied(old(self)@),
            old(self).written(*reservation, value, *final(self)),
    {
        let ghost p = self.position(*reservation);
        proof {
            self.list.lemma_model();
        }
        let count = match self.list.get(reservation) {
            Some(Spot::Reserved(count)) => *count,
            _ => 0,
        };
        if count == 1 {
            match self.list.get_mut(reservation) {
                Some(spot) => {
                    *spot = Spot::Value(value);
                },
                None => {},
            }
            proof {
                lemma_occupied_update(old(self).list@, p, Spot::Value(value));
            }
        } else {
            let ghost mid = self.list;
            match self.list.get_mut(reservation) {
                Some(spot) => {
                    *spot = Spot::Reserved(count - 1);
                },
                None => {},
            }
            proof {
                lemma_occupied_update(old(self).list@, p, Spot::Reserved((count - 1) as usize));
                mid.lemma_model();
                self.list.lemma_model();
                assert(self.list.contains_ref(*reservation));
            }
            let ghost mid2 = self.list;
            let res = self.list.push_before(reservation, Spot::Value(value));
            proof {
                lemma_occupied_insert(mid2@, p, Spot::Value(value));
                let r = res->Ok_0;
                assert(old(self).spots().keeps_handles(&self.spots())) by {
                    assert forall|r2: NodeRef<Spot<T>>| #![trigger self.spots().issued(r2)]
                        old(self).spots().issued(r2) implies self.spots().issued(r2) && (
                        !old(self).spots().contains_ref(r2) ==> !self.spots().contains_ref(r2)) by {
                        assert(mid.issued(r2));
                        assert(mid2.issued(r2));
                    }
                }
                assert(!old(self).spots().issued(r)) by {
                    if old(self).spots().issued(r) {
                        assert(mid2.issued(r));
                    }
                }
            }
        }
    }

    /// Gives back reserved places: all that the reservation still holds, or a number of them.
    pub fn release(&mut self, reservation: NodeRef<Spot<T>>, release: Release)
        requires
            old(self).wf(),
            old(self).contains_ref(reservation),
            old(self)@[old(self).position(reservation)] is Reserved,
            release matches Release::Count(n) ==> n <= old(self)@[old(self).position(
                reservation,
            )]->Reserved_0,
        ensures
            final(self).wf(),
            final(self).capacity() == old(self).capacity(),
            old(self).spots().keeps_handles(&final(self).spots()),
            old(self).released(reservation, release, *final(self)),
    {
        let ghost p = self.position(reservation);
        proof {
            self.list.lemma_model();
        }
        let count = match self.list.get(&reservation) {
            Some(Spot::Reserved(count)) => *count,
            _ => 0,
        };
        let to_remove = match release {
            Release::All => count,
            Release::Count(n) => n,
        };
        proof {
            lemma_occupied_split(old(self).list@, p);
        }
        if to_remove == count {
            self.list.remove(reservation);
            proof {
                lemma_occupied_remove(old(self).list@, p);
            }
        } else {
            match self.list.get_mut(&reservation) {
                Some(spot) => {
                    *spot = Spot::Reserved(count - to_remove);
                },
                None => {},
            }
            proof {
                lemma_occupied_update(old(self).list@, p, Spot::Reserved((count - to_remove) as usize));
            }
        }
        self.len = self.len - to_remove;
    }
}


/// The values and reservations in a queue never take more places than its capacity.
pub proof fn law_within_capacity<T>(q: Queue<T>)
    requires
        q.wf(),
    ensures
        occupied(q@) <= q.capacity(),
{
    q.lemma_model();
}

/// Values are read in the order of their reservations, whatever the order of the writes: two
/// reservations of one place each, filled last-first, give their values first-first.
pub proof fn law_reservation_order<T>(
    q0: Queue<T>,
    q1: Queue<T>,
    q2: Queue<T>,
    q3: Queue<T>,
    q4: Queue<T>,
    r1: NodeRef<Spot<T>>,
    r2: NodeRef<Spot<T>>,
    x: T,
    y: T,
)
    requires
        q0.wf(),
        q1.wf(),
        q2.wf(),
        q3.wf(),
        q4.wf(),
        q1@ == q0@.push(Spot::Reserved(1)),
        q1.keys() == q0.keys().push(r1.key()),
        q2@ == q1@.push(Spot::Reserved(1)),
        q2.keys() == q1.keys().push(r2.key()),
        q2.holds_reservation(r2),
        q2.written(r2, y, q3),
        q3.holds_reservation(r1),
        q3.written(r1, x, q4),
    ensures
        q4@ == q0@ + seq![Spot::Value(x), Spot::Value(y)],
{
    q0.lemma_model();
    q1.lemma_model();
    q2.lemma_model();
    q3.lemma_model();
    q2.spots().lemma_model();
    q3.spots().lemma_model();
    let n = q0@.len() as int;
    assert(q2.keys()[n + 1] == r2.key());
    assert(q2.position(r2) == n + 1);
    assert(q3.keys() == q2.keys());
    assert(q3.keys()[n] == r1.key());
    assert(q3.position(r1) == n);
    assert(q4@ =~= q0@ + seq![Spot::Value(x), Spot::Value(y)]);
}

/// The spots `s` with one place of the reservation at position `p` filled by `v`: the value
/// takes the reservation's spot when it was the last place, and goes just before it otherwise.
pub open spec fn filled<T>(s: Seq<Spot<T>>, p: int, v: T) -> Seq<Spot<T>> {
    let c = s[p]->Reserved_0;
    if c == 1 {
        s.update(p, Spot::Value(v))
    } else {
        s.update(p, Spot::Reserved((c - 1) as usize)).insert(p, Spot::Value(v))
    }
}

/// A write fills the reservation's place as [filled] says, and every handle ahead of the
/// reservation keeps its position.
proof fn lemma_write_shape<T>(q: Queue<T>, r: NodeRef<Spot<T>>, v: T, after: Queue<T>, h: NodeRef<Spot<T>>)
    requires
        q.wf(),
        after.wf(),
        q.holds_reservation(r),
        q.written(r, v, after),
        q.contains_ref(h),
        q.position(h) < q.position(r),
    ensures
        after@ == filled(q@, q.position(r), v),
        after.contains_ref(h),
        after.position(h) == q.position(h),
{
    q.lemma_model();
    after.lemma_model();
    q.spots().lemma_model();
    after.spots().lemma_model();
    let p = q.position(r);
    let i = q.position(h);
    let c = q@[p]->Reserved_0;
    if c == 1 {
        assert(after.keys()[i] == h.key());
    } else {
        let r2 = choose|r2: NodeRef<Spot<T>>|
            after@ == q@.update(p, Spot::Reserved((c - 1) as usize)).insert(p, Spot::Value(v))
                && after.keys() == q.keys().insert(p, r2.key()) && !q.spots().issued(r2)
                && after.spots().issued(r2);
        assert(after.keys()[i] == h.key());
    }
}

/// A write through a reservation at position `p`, with another reservation `h` behind it:
/// `h` moves back by one place when the write leaves part of the reservation, and stays
/// otherwise.
proof fn lemma_write_shifts<T>(q: Queue<T>, r: NodeRef<Spot<T>>, v: T, after: Queue<T>, h: NodeRef<Spot<T>>)
    requires
        q.wf(),
        after.wf(),
        q.holds_reservation(r),
        q.written(r, v, after),
        q.contains_ref(h),
        q.position(h) > q.position(r),
    ensures
        after@ == filled(q@, q.position(r), v),
        after.contains_ref(h),
        after.position(h) == q.position(h) + (if q@[q.position(r)]->Reserved_0 == 1 {
            0int
        } else {
            1int
        }),
{
    q.lemma_model();
    after.lemma_model();
    q.spots().lemma_model();
    after.spots().lemma_model();
    let p = q.position(r);
    let i = q.position(h);
    let c = q@[p]->Reserved_0;
    if c == 1 {
        assert(after.keys()[i] == h.key());
    } else {
        let r2 = choose|r2: NodeRef<Spot<T>>|
            after@ == q@.update(p, Spot::Reserved((c - 1) as usize)).insert(p, Spot::Value(v))
                && after.keys() == q.keys().insert(p, r2.key()) && !q.spots().issued(r2)
                && after.spots().issued(r2);
        assert(after.keys()[i + 1] == h.key());
    }
}

/// Values are read in the order of their reservations, whatever the order of the writes:
/// filling two reservations, `r1` ahead of `r2`, leaves the same queue whichever is filled
/// first, with `r1`'s value at `r1`'s place, ahead of `r2`'s value.
pub proof fn law_writes_commute<T>(
    q0: Queue<T>,
    a1: Queue<T>,
    a2: Queue<T>,
    b1: Queue<T>,
    b2: Queue<T>,
    r1: NodeRef<Spot<T>>,
    r2: NodeRef<Spot<T>>,
    x: T,
    y: T,
)
    requires
        q0.wf(),
        a1.wf(),
        a2.wf(),
        b1.wf(),
        b2.wf(),
        q0.holds_reservation(r1),
        q0.holds_reservation(r2),
        q0.position(r1) < q0.position(r2),
        q0.written(r2, y, a1),
        a1.written(r1, x, a2),
        q0.written(r1, x, b1),
        b1.written(r2, y, b2),
    ensures
        a2@ == b2@,
        a2@ == filled(filled(q0@, q0.position(r2), y), q0.position(r1), x),
        a2@[q0.position(r1)] == Spot::Value(x),
        a2@[q0.position(r2) + (if q0@[q0.position(r1)]->Reserved_0 == 1 {
            0int
        } else {
            1int
        })] == Spot::Value(y),
{
    q0.lemma_model();
    let p1 = q0.position(r1);
    let p2 = q0.position(r2);
    let c1 = q0@[p1]->Reserved_0;
    let c2 = q0@[p2]->Reserved_0;
    lemma_write_shape(q0, r2, y, a1, r1);
    lemma_write_shifts(q0, r1, x, b1, r2);
    assert(a1@[p1] == q0@[p1]);
    assert(a1.holds_reservation(r1));
    lemma_written_filled(a1, r1, x, a2);
    let p2b = b1.position(r2);
    assert(b1@[p2b] == q0@[p2]);
    assert(b1.holds_reservation(r2));
    lemma_written_filled(b1, r2, y, b2);
    assert(a2@ =~= b2@);
}

/// A write fills the reservation's place as [filled] says.
pub proof fn lemma_written_filled<T>(q: Queue<T>, r: NodeRef<Spot<T>>, v: T, after: Queue<T>)
    requires
        q.wf(),
        q.holds_reservation(r),
        q.written(r, v, after),
    ensures
        after@ == filled(q@, q.position(r), v),
{
}

/// Releasing all the places of a reservation right after making it gives the queue back as it
/// was.
pub proof fn law_release_undoes_reserve<T>(q0: Queue<T>, q1: Queue<T>, q2: Queue<T>, r: NodeRef<Spot<T>>, count: usize)
    requires
        q0.wf(),
        q1.wf(),
        q1@ == q0@.push(Spot::Reserved(count)),
        q1.keys() == q0.keys().push(r.key()),
        q1.released(r, Release::All, q2),
    ensures
        q2@ == q0@,
        q2.keys() == q0.keys(),
        occupied(q2@) == occupied(q0@),
{
    q0.lemma_model();
    q1.lemma_model();
    q1.spots().lemma_model();
    let n = q0@.len() as int;
    assert(q1.keys()[n] == r.key());
    assert(q1.position(r) == n);
    assert(q2@ =~= q0@);
    assert(q2.keys() =~= q0.keys());
}

} // verus!
