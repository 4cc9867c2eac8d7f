//! A doubly linked list with handles: any entry can be removed, read, changed, or used as an
//! anchor for new neighbours in O(1) through the [NodeRef] returned when it was pushed.
//!
//! The nodes live in a vector of slots and link to each other by slot index. A slot that is
//! emptied goes to a free stack and is reused; every reuse bumps the slot's stamp, so a handle
//! to an entry that was removed never resolves to a later entry in the same slot.
use std::marker::PhantomData;
use vstd::prelude::*;
use vstd::std_specs::iter::IteratorSpec;

verus! {

/// A handle to an entry pushed into a [LinkedList].
///
/// The handle stays valid until its entry leaves the list (by [LinkedList::remove],
/// [LinkedList::pop_head] or [LinkedList::pop_tail]); from then on the list answers every
/// request made with it with `None` or `Err`. The handle carries the identity of the list that
/// issued it, a random 64-bit number drawn when the list was made, and a list with another
/// identity answers it in the same way. Two lists draw the same identity only by a chance of
/// about one in 2^64; the contracts speak of the identities, not of the lists.
pub struct NodeRef<T> {
    list: u64,
    index: usize,
    stamp: u64,
    marker: PhantomData<T>,
}

impl<T> NodeRef<T> {
    /// The identity of the handle: the list that issued it, the slot it points to and the
    /// stamp that slot had when the entry was pushed.
    pub closed spec fn key(self) -> (u64, usize, u64) {
        (self.list, self.index, self.stamp)
    }

    fn new(list: u64, index: usize, stamp: u64) -> (r: Self)
        ensures
            r.key() == (list, index, stamp),
    {
        NodeRef { list, index, stamp, marker: PhantomData }
    }
}

impl<T> Clone for NodeRef<T> {
    fn clone(&self) -> (r: Self)
        ensures
            r == *self,
    {
        NodeRef { list: self.list, index: self.index, stamp: self.stamp, marker: PhantomData }
    }
}

/// Calls `RandomState::new`, which makes a hasher builder with keys of its own, drawn at
/// random. Nothing is stated: the keys depend on the process.
#[verifier::external_body]
pub(crate) fn new_random_state() -> std::collections::hash_map::RandomState {
    std::collections::hash_map::RandomState::new()
}

/// Calls `BuildHasher::hash_one` on the unit value: a number that depends on the builder's
/// random keys. Nothing is stated of it.
#[verifier::external_body]
pub(crate) fn hash_unit(state: &std::collections::hash_map::RandomState) -> u64 {
    std::hash::BuildHasher::hash_one(state, ())
}

struct Node<T> {
    value: T,
    prev: Option<usize>,
    next: Option<usize>,
}

impl<T> Node<T> {
    fn new(value: T) -> (n: Self)
        ensures
            n.value == value,
            n.prev is None,
            n.next is None,
    {
        Node { value, prev: None, next: None }
    }
}

struct Slot<T> {
    stamp: u64,
    node: Option<Node<T>>,
}

/// A doubly linked list; see the module documentation.
pub struct LinkedList<T> {
    slots: Vec<Slot<T>>,
    free: Vec<usize>,
    head: Option<usize>,
    tail: Option<usize>,
    len: usize,
    /// The identity the list gives its handles.
    id: u64,
    /// The occupied slots, from head to tail.
    order: Ghost<Seq<usize>>,
}

/// Iterator over references to the values of a [LinkedList], from head to tail.
pub type Iter<'a, T> = std::vec::IntoIter<&'a T>;

/// Iterator over the values taken out of a [LinkedList], from head to tail.
pub type IntoIter<T> = std::vec::IntoIter<T>;

/// The slot before position `i` in `order`, if any.
spec fn prev_at(order: Seq<usize>, i: int) -> Option<usize> {
    if i == 0 {
        None
    } else {
        Some(order[i - 1])
    }
}

/// The slot at position `i` in `order`, if any (`i == order.len()` gives `None`).
spec fn next_at(order: Seq<usize>, i: int) -> Option<usize> {
    if i >= order.len() {
        None
    } else {
        Some(order[i])
    }
}

spec fn link_ok<T>(slots: Seq<Slot<T>>, order: Seq<usize>, i: int) -> bool {
    let j = order[i] as int;
    &&& j < slots.len()
    &&& slots[j].node is Some
    &&& slots[j].node->0.prev == prev_at(order, i)
    &&& slots[j].node->0.next == next_at(order, i + 1)
}

spec fn links_ok<T>(slots: Seq<Slot<T>>, order: Seq<usize>) -> bool {
    forall|i: int| 0 <= i < order.len() ==> #[trigger] link_ok(slots, order, i)
}

spec fn free_ok<T>(slots: Seq<Slot<T>>, free: Seq<usize>) -> bool {
    &&& free.no_duplicates()
    &&& forall|k: int|
        0 <= k < free.len() ==> {
            let j = #[trigger] free[k] as int;
            &&& j < slots.len()
            &&& slots[j].node is None
            &&& slots[j].stamp < u64::MAX
        }
}

spec fn values_of<T>(slots: Seq<Slot<T>>, order: Seq<usize>) -> Seq<T> {
    Seq::new(order.len(), |i: int| slots[order[i] as int].node->0.value)
}

spec fn keys_of<T>(id: u64, slots: Seq<Slot<T>>, order: Seq<usize>) -> Seq<(u64, usize, u64)> {
    Seq::new(order.len(), |i: int| (id, order[i], slots[order[i] as int].stamp))
}

/// `slots` differs from `before` at most in the value held in slot `j`.
spec fn value_only_changed<T>(before: Seq<Slot<T>>, j: int, slots: Seq<Slot<T>>) -> bool {
    &&& slots.len() == before.len()
    &&& 0 <= j < slots.len()
    &&& slots[j].node is Some
    &&& before[j].node is Some
    &&& slots[j].stamp == before[j].stamp
    &&& slots[j].node->0.prev == before[j].node->0.prev
    &&& slots[j].node->0.next == before[j].node->0.next
    &&& forall|i: int| 0 <= i < slots.len() && i != j ==> slots[i] == before[i]
}

spec fn occupied_listed<T>(slots: Seq<Slot<T>>, order: Seq<usize>) -> bool {
    forall|j: int|
        0 <= j < slots.len() && (#[trigger] slots[j]).node is Some ==> order.contains(j as usize)
}

impl<T> LinkedList<T> {
    /// The values in the list, from head to tail.
    pub closed spec fn view(&self) -> Seq<T> {
        values_of(self.slots@, self.order@)
    }

    /// The keys of the handles of the entries, from head to tail.
    pub closed spec fn keys(&self) -> Seq<(u64, usize, u64)> {
        keys_of(self.id, self.slots@, self.order@)
    }

    /// Well-formedness: the links agree with the order of the entries, and the free stack
    /// holds only empty slots.
    pub closed spec fn wf(&self) -> bool {
        &&& self.len == self.order@.len()
        &&& self.order@.no_duplicates()
        &&& links_ok(self.slots@, self.order@)
        &&& occupied_listed(self.slots@, self.order@)
        &&& free_ok(self.slots@, self.free@)
        &&& self.len + self.free@.len() <= self.slots@.len()
        &&& self.head == next_at(self.order@, 0)
        &&& self.tail == (if self.order@.len() == 0 {
            None
        } else {
            Some(self.order@.last())
        })
    }

    /// The handle was handed out by this list: it names one of its slots, with a stamp that the
    /// slot has had.
    pub closed spec fn issued(&self, r: NodeRef<T>) -> bool {
        &&& r.list == self.id
        &&& (r.index as int) < self.slots@.len()
        &&& r.stamp <= self.slots@[r.index as int].stamp
    }

    /// The handle refers to an entry that is in the list.
    pub open spec fn contains_ref(&self, r: NodeRef<T>) -> bool {
        self.keys().contains(r.key())
    }

    /// The position of the handle's entry, counted from the head.
    pub open spec fn position(&self, r: NodeRef<T>) -> int {
        self.keys().index_of(r.key())
    }

    /// Every handle handed out before is still counted as handed out, and a handle whose entry
    /// had left the list does not come back to it.
    pub open spec fn keeps_handles(&self, after: &Self) -> bool {
        forall|r: NodeRef<T>|
            #![trigger after.issued(r)]
            self.issued(r) ==> after.issued(r) && (!self.contains_ref(r) ==> !after.contains_ref(r))
    }

    /// Facts about the model of a well-formed list.
    pub proof fn lemma_model(&self)
        requires
            self.wf(),
        ensures
            self.keys().len() == self@.len(),
            self.keys().no_duplicates(),
            forall|r: NodeRef<T>| #[trigger] self.contains_ref(r) ==> self.issued(r),
            forall|r: NodeRef<T>|
                #[trigger] self.contains_ref(r) ==> 0 <= self.position(r) < self@.len()
                    && self.keys()[self.position(r)] == r.key(),
            forall|i: int|
                0 <= i < self@.len() ==> #[trigger] self.keys().index_of(self.keys()[i]) == i,
    {
        assert forall|r: NodeRef<T>| #[trigger] self.contains_ref(r) implies self.issued(r)
            && 0 <= self.position(r) < self@.len() && self.keys()[self.position(r)] == r.key() by {
            let i = self.keys().index_of(r.key());
            assert(link_ok(self.slots@, self.order@, i));
        }
        assert forall|i: int| 0 <= i < self@.len() implies #[trigger] self.keys().index_of(
            self.keys()[i],
        ) == i by {
            let q = self.keys().index_of(self.keys()[i]);
            assert(self.keys()[q].1 == self.order@[q]);
        }
    }

    /// A handle is in the list exactly when its slot is occupied under the handle's stamp; the
    /// entry's position is then the position of the slot.
    proof fn lemma_contains(&self, r: NodeRef<T>)
        requires
            self.wf(),
        ensures
            self.contains_ref(r) <==> (r.list == self.id && (r.index as int) < self.slots@.len()
                && self.slots@[r.index as int].node is Some
                && self.slots@[r.index as int].stamp == r.stamp),
            self.contains_ref(r) ==> 0 <= self.position(r) < self.order@.len()
                && self.order@[self.position(r)] == r.index,
    {
        if r.list == self.id && (r.index as int) < self.slots@.len() && self.slots@[r.index as int].node is Some
            && self.slots@[r.index as int].stamp == r.stamp {
            assert(self.slots@[r.index as int].node is Some);
            assert(self.order@.contains(r.index));
            let i = choose|i: int| 0 <= i < self.order@.len() && self.order@[i] == r.index;
            assert(self.keys()[i] == r.key());
        }
        if self.contains_ref(r) {
            let i = self.keys().index_of(r.key());
            assert(link_ok(self.slots@, self.order@, i));
        }
    }

    /// Replacing the value of the entry at position `p` (in slot `j`) keeps the list
    /// well-formed and changes only that value.
    proof fn lemma_value_update(l: Self, j: int, p: int)
        requires
            l.wf(),
            0 <= p < l.order@.len(),
            l.order@[p] == j,
        ensures
            forall|slots: Seq<Slot<T>>|
                value_only_changed(l.slots@, j, slots) ==> #[trigger] links_ok(slots, l.order@),
            forall|slots: Seq<Slot<T>>|
                value_only_changed(l.slots@, j, slots) ==> #[trigger] occupied_listed(slots, l.order@),
            forall|slots: Seq<Slot<T>>|
                value_only_changed(l.slots@, j, slots) ==> #[trigger] free_ok(slots, l.free@),
            forall|slots: Seq<Slot<T>>|
                value_only_changed(l.slots@, j, slots) ==> #[trigger] values_of(slots, l.order@)
                    == l@.update(p, slots[j].node->0.value),
            forall|slots: Seq<Slot<T>>|
                value_only_changed(l.slots@, j, slots) ==> #[trigger] keys_of(l.id, slots, l.order@)
                    == l.keys(),
    {
        let order = l.order@;
        assert(link_ok(l.slots@, order, p));
        assert forall|slots: Seq<Slot<T>>|
            value_only_changed(l.slots@, j, slots) implies #[trigger] links_ok(slots, order) by {
            assert forall|i: int| 0 <= i < order.len() implies #[trigger] link_ok(slots, order, i) by {
                assert(link_ok(l.slots@, order, i));
            }
        }
        assert forall|slots: Seq<Slot<T>>|
            value_only_changed(l.slots@, j, slots) implies #[trigger] occupied_listed(slots, order) by {
            assert forall|q: int| 0 <= q < slots.len() && (#[trigger] slots[q]).node is Some implies order.contains(
                q as usize,
            ) by {
                assert(l.slots@[q].node is Some);
            }
        }
        assert forall|slots: Seq<Slot<T>>|
            value_only_changed(l.slots@, j, slots) implies #[trigger] free_ok(slots, l.free@) by {
            assert forall|k2: int| 0 <= k2 < l.free@.len() implies {
                let f = #[trigger] l.free@[k2] as int;
                &&& f < slots.len()
                &&& slots[f].node is None
                &&& slots[f].stamp < u64::MAX
            } by {
                let f = l.free@[k2] as int;
                assert(f != j);
            }
        }
        assert forall|slots: Seq<Slot<T>>|
            value_only_changed(l.slots@, j, slots) implies #[trigger] values_of(slots, order)
                == l@.update(p, slots[j].node->0.value) by {
            let x = slots[j].node->0.value;
            assert(values_of(slots, order) =~= l@.update(p, x)) by {
                assert forall|i: int| 0 <= i < order.len() implies values_of(slots, order)[i]
                    == l@.update(p, x)[i] by {
                    assert(link_ok(l.slots@, order, i));
                    if i != p {
                        assert(order[i] != order[p]);
                        assert(slots[order[i] as int] == l.slots@[order[i] as int]);
                    }
                }
            }
        }
        assert forall|slots: Seq<Slot<T>>|
            value_only_changed(l.slots@, j, slots) implies #[trigger] keys_of(l.id, slots, order) == l.keys() by {
            assert(keys_of(l.id, slots, order) =~= l.keys()) by {
                assert forall|i: int| 0 <= i < order.len() implies keys_of(l.id, slots, order)[i]
                    == l.keys()[i] by {
                    assert(link_ok(l.slots@, order, i));
                    if order[i] as int != j {
                        assert(slots[order[i] as int] == l.slots@[order[i] as int]);
                    }
                }
            }
        }
    }

    /// Creates an empty list.
    pub fn new() -> (l: Self)
        ensures
            l.wf(),
            l@ == Seq::<T>::empty(),
            l.keys() == Seq::<(u64, usize, u64)>::empty(),
            forall|r: NodeRef<T>| !#[trigger] l.issued(r),
    {
        let l = LinkedList {
            slots: Vec::new(),
            free: Vec::new(),
            head: None,
            tail: None,
            len: 0,
            id: hash_unit(&new_random_state()),
            order: Ghost(Seq::empty()),
        };
        assert(l@ =~= Seq::<T>::empty());
        assert(l.keys() =~= Seq::<(u64, usize, u64)>::empty());
        l
    }

    /// Returns the total number of items in the list.
    pub fn len(&self) -> (n: usize)
        requires
            self.wf(),
        ensures
            n == self@.len(),
    {
        self.len
    }

    pub fn is_empty(&self) -> (b: bool)
        requires
            self.wf(),
        ensures
            b == (self@.len() == 0),
    {
        self.len == 0
    }

    fn set_prev(&mut self, j: usize, p: Option<usize>)
        requires
            (j as int) < old(self).slots@.len(),
            old(self).slots@[j as int].node is Some,
        ensures
            final(self).slots@ == old(self).slots@.update(
                j as int,
                Slot {
                    stamp: old(self).slots@[j as int].stamp,
                    node: Some(Node { prev: p, ..old(self).slots@[j as int].node->0 }),
                },
            ),
            final(self).free == old(self).free,
            final(self).head == old(self).head,
            final(self).id == old(self).id,
            final(self).tail == old(self).tail,
            final(self).len == old(self).len,
            final(self).order == old(self).order,
    {
        match &mut self.slots[j].node {
            Some(n) => {
                n.prev = p;
            },
            None => {},
        }
    }

    fn set_next(&mut self, j: usize, p: Option<usize>)
        requires
            (j as int) < old(self).slots@.len(),
            old(self).slots@[j as int].node is Some,
        ensures
            final(self).slots@ == old(self).slots@.update(
                j as int,
                Slot {
                    stamp: old(self).slots@[j as int].stamp,
                    node: Some(Node { next: p, ..old(self).slots@[j as int].node->0 }),
                },
            ),
            final(self).free == old(self).free,
            final(self).head == old(self).head,
            final(self).id == old(self).id,
            final(self).tail == old(self).tail,
            final(self).len == old(self).len,
            final(self).order == old(self).order,
    {
        match &mut self.slots[j].node {
            Some(n) => {
                n.next = p;
            },
            None => {},
        }
    }

    /// Puts a node into a free slot, or into a new one when none is free.
    fn claim_slot(&mut self, node: Node<T>) -> (k: usize)
        requires
            free_ok(old(self).slots@, old(self).free@),
            old(self).len + old(self).free@.len() <= old(self).slots@.len(),
        ensures
            (k as int) < final(self).slots@.len(),
            final(self).slots@[k as int].node == Some(node),
            forall|j: int|
                0 <= j < old(self).slots@.len() && j != k ==> final(self).slots@[j]
                    == old(self).slots@[j],
            (k as int) < old(self).slots@.len() ==> final(self).slots@.len()
                == old(self).slots@.len() && old(self).slots@[k as int].node is None
                && old(self).slots@[k as int].stamp < final(self).slots@[k as int].stamp,
            (k as int) >= old(self).slots@.len() ==> k == old(self).slots@.len()
                && final(self).slots@.len() == old(self).slots@.len() + 1,
            free_ok(final(self).slots@, final(self).free@),
            final(self).len + final(self).free@.len() + 1 <= final(self).slots@.len(),
            final(self).free@.len() <= old(self).free@.len(),
            final(self).head == old(self).head,
            final(self).id == old(self).id,
            final(self).tail == old(self).tail,
            final(self).len == old(self).len,
            final(self).order == old(self).order,
    {
        let slot_count = self.slots.len();
        proof {
            // The number of slots is a usize, and the entry count stays within it.
            assert(self.len <= slot_count);
        }
        match self.free.pop() {
            Some(k) => {
                assert(old(self).free@[old(self).free@.len() - 1] == k);
                let stamp = self.slots[k].stamp + 1;
                self.slots.set(k, Slot { stamp, node: Some(node) });
                proof {
                    let f = self.free@;
                    assert forall|i: int| 0 <= i < f.len() implies {
                        let j = #[trigger] f[i] as int;
                        &&& j < self.slots@.len()
                        &&& self.slots@[j].node is None
                        &&& self.slots@[j].stamp < u64::MAX
                    } by {
                        assert(f[i] == old(self).free@[i]);
                        assert(old(self).free@[i] != old(self).free@[old(self).free@.len() - 1]);
                    }
                }
                k
            },
            None => {
                let k = self.slots.len();
                self.slots.push(Slot { stamp: 0, node: Some(node) });
                let slot_count = self.slots.len();
                proof {
                    // The number of slots is a usize, and the entry count stays within it.
                    assert(self.len <= slot_count);
                }
                proof {
                    let f = self.free@;
                    assert forall|i: int| 0 <= i < f.len() implies {
                        let j = #[trigger] f[i] as int;
                        &&& j < self.slots@.len()
                        &&& self.slots@[j].node is None
                        &&& self.slots@[j].stamp < u64::MAX
                    } by {
                        assert(f[i] == old(self).free@[i]);
                    }
                }
                k
            },
        }
    }

    /// Links a new entry in at position `p`, between `prev` and `next`.
    #[verifier::rlimit(100)]
    #[verifier::spinoff_prover]
    fn link_at(&mut self, value: T, prev: Option<usize>, next: Option<usize>, Ghost(p): Ghost<int>) -> (r: NodeRef<T>)
        requires
            old(self).wf(),
            0 <= p <= old(self).order@.len(),
            prev == prev_at(old(self).order@, p),
            next == next_at(old(self).order@, p),
        ensures
            final(self).wf(),
            final(self)@ == old(self)@.insert(p, value),
            final(self).keys() == old(self).keys().insert(p, r.key()),
            !old(self).issued(r),
            final(self).issued(r),
            old(self).keeps_handles(final(self)),
    {
        let ghost old_order = self.order@;
        let ghost old_slots = self.slots@;
        let mut node = Node::new(value);
        node.prev = prev;
        node.next = next;
        let k = self.claim_slot(node);
        let slot_count = self.slots.len();
        proof {
            // The number of slots is a usize, and the entry count stays within it.
            assert(self.len <= slot_count);
        }
        proof {
            assert forall|i: int| 0 <= i < old_order.len() implies old_order[i] != k by {
                assert(link_ok(old_slots, old_order, i));
            }
            if p > 0 {
                assert(link_ok(old_slots, old_order, p - 1));
            }
            if p < old_order.len() {
                assert(link_ok(old_slots, old_order, p));
            }
        }
        match prev {
            Some(q) => self.set_next(q, Some(k)),
            None => self.head = Some(k),
        }
        match next {
            Some(s) => self.set_prev(s, Some(k)),
            None => self.tail = Some(k),
        }
        self.len = self.len + 1;
        let stamp = self.slots[k].stamp;
        proof {
            self.order@ = old_order.insert(p, k);
            let order = self.order@;
            old_order.insert_ensures(p, k);
            let slots = self.slots@;
            assert(order.no_duplicates()) by {
                assert forall|a: int, b: int|
                    0 <= a < order.len() && 0 <= b < order.len() && a != b implies order[a]
                    != order[b] by {
                    if a != p && b != p {
                        let a0 = if a < p { a } else { a - 1 };
                        let b0 = if b < p { b } else { b - 1 };
                        assert(order[a] == old_order[a0]);
                        assert(order[b] == old_order[b0]);
                    } else if a == p {
                        let b0 = if b < p { b } else { b - 1 };
                        assert(order[b] == old_order[b0]);
                    } else {
                        let a0 = if a < p { a } else { a - 1 };
                        assert(order[a] == old_order[a0]);
                    }
                }
            }
            assert forall|i: int| 0 <= i < order.len() implies #[trigger] link_ok(slots, order, i) by {
                if i < p - 1 {
                    assert(link_ok(old_slots, old_order, i));
                    assert(order[i] == old_order[i]);
                    assert(order[i + 1] == old_order[i + 1]);
                } else if i == p - 1 {
                    assert(link_ok(old_slots, old_order, i));
                    assert(order[i] == old_order[i]);
                } else if i == p {
                } else if i == p + 1 {
                    assert(link_ok(old_slots, old_order, i - 1));
                    assert(order[i] == old_order[i - 1]);
                } else {
                    assert(link_ok(old_slots, old_order, i - 1));
                    assert(order[i] == old_order[i - 1]);
                    assert(order[i - 1] == old_order[i - 2]);
                    if i + 1 < order.len() {
                        assert(order[i + 1] == old_order[i]);
                    }
                }
            }
            assert forall|j: int| 0 <= j < slots.len() && (#[trigger] slots[j]).node is Some implies order.contains(
                j as usize,
            ) by {
                if j == k {
                    assert(order[p] == k);
                } else {
                    assert(old_slots[j].node is Some);
                    assert(old_order.contains(j as usize));
                    let a = choose|a: int| 0 <= a < old_order.len() && old_order[a] == j as usize;
                    if a < p {
                        assert(order[a] == j as usize);
                    } else {
                        assert(order[a + 1] == j as usize);
                    }
                }
            }
            assert forall|k2: int| 0 <= k2 < self.free@.len() implies {
                let j = #[trigger] self.free@[k2] as int;
                &&& j < slots.len()
                &&& slots[j].node is None
                &&& slots[j].stamp < u64::MAX
            } by {
                let j = self.free@[k2] as int;
                assert(j != k);
            }
            if order.len() > 0 {
                if p == old_order.len() {
                    assert(order.last() == k);
                } else {
                    assert(order.last() == old_order.last());
                }
            }
            let r = NodeRef::<T> { list: self.id, index: k, stamp, marker: PhantomData };
            assert(self@ =~= old(self)@.insert(p, value)) by {
                assert forall|i: int| 0 <= i < order.len() implies self@[i] == old(self)@.insert(p, value)[i] by {
                    if i < p {
                        assert(order[i] == old_order[i]);
                        assert(link_ok(old_slots, old_order, i));
                    } else if i > p {
                        assert(order[i] == old_order[i - 1]);
                        assert(link_ok(old_slots, old_order, i - 1));
                    }
                }
            }
            assert(self.keys() =~= old(self).keys().insert(p, (self.id, k, stamp))) by {
                assert forall|i: int| 0 <= i < order.len() implies self.keys()[i] == old(self).keys().insert(p, (self.id, k, stamp))[i] by {
                    if i < p {
                        assert(order[i] == old_order[i]);
                        assert(link_ok(old_slots, old_order, i));
                    } else if i > p {
                        assert(order[i] == old_order[i - 1]);
                        assert(link_ok(old_slots, old_order, i - 1));
                    }
                }
            }
            assert forall|r2: NodeRef<T>| #![trigger self.issued(r2)] old(self).issued(r2) implies self.issued(r2)
                && (!old(self).contains_ref(r2) ==> !self.contains_ref(r2)) by {
                old(self).lemma_contains(r2);
                self.lemma_contains(r2);
            }
        }
        NodeRef::new(self.id, k, stamp)
    }

    /// Unlinks the entry at position `p`, which is in slot `j`, and returns its value.
    fn unlink_at(&mut self, j: usize, Ghost(p): Ghost<int>) -> (v: T)
        requires
            old(self).wf(),
            0 <= p < old(self).order@.len(),
            old(self).order@[p] == j,
        ensures
            final(self).wf(),
            v == old(self)@[p],
            final(self)@ == old(self)@.remove(p),
            final(self).keys() == old(self).keys().remove(p),
            old(self).keeps_handles(final(self)),
    {
        let ghost old_order = self.order@;
        let ghost old_slots = self.slots@;
        proof {
            assert(link_ok(old_slots, old_order, p));
            if p > 0 {
                assert(link_ok(old_slots, old_order, p - 1));
            }
            if p + 1 < old_order.len() {
                assert(link_ok(old_slots, old_order, p + 1));
            }
        }
        let slot_count = self.slots.len();
        proof {
            // The number of slots is a usize, and the entry count stays within it.
            assert(self.len <= slot_count);
        }
        let taken = self.slots[j].node.take();
        let node = taken.unwrap();
        let prev = node.prev;
        let next = node.next;
        let value = node.value;
        match prev {
            Some(q) => self.set_next(q, next),
            None => self.head = next,
        }
        match next {
            Some(s) => self.set_prev(s, prev),
            None => self.tail = prev,
        }
        if self.slots[j].stamp < u64::MAX {
            self.free.push(j);
        }
        self.len = self.len - 1;
        proof {
            self.order@ = old_order.remove(p);
            let order = self.order@;
            old_order.remove_ensures(p);
            let slots = self.slots@;
            assert forall|a: int, b: int|
                0 <= a < order.len() && 0 <= b < order.len() && a != b implies order[a] != order[b] by {
                let a0 = if a < p { a } else { a + 1 };
                let b0 = if b < p { b } else { b + 1 };
                assert(order[a] == old_order[a0]);
                assert(order[b] == old_order[b0]);
            }
            assert forall|i: int| 0 <= i < order.len() implies order[i] != j by {
                let i0 = if i < p { i } else { i + 1 };
                assert(order[i] == old_order[i0]);
            }
            assert forall|i: int| 0 <= i < order.len() implies #[trigger] link_ok(slots, order, i) by {
                if i < p - 1 {
                    assert(link_ok(old_slots, old_order, i));
                    assert(order[i] == old_order[i]);
                    assert(order[i + 1] == old_order[i + 1]);
                } else if i == p - 1 {
                    assert(link_ok(old_slots, old_order, i));
                    assert(order[i] == old_order[i]);
                    if i + 1 < order.len() {
                        assert(order[i + 1] == old_order[i + 2]);
                    }
                } else if i == p {
                    assert(link_ok(old_slots, old_order, i + 1));
                    assert(order[i] == old_order[i + 1]);
                    if i + 1 < order.len() {
                        assert(order[i + 1] == old_order[i + 2]);
                    }
                } else {
                    assert(link_ok(old_slots, old_order, i + 1));
                    assert(order[i] == old_order[i + 1]);
                    assert(order[i - 1] == old_order[i]);
                    if i + 1 < order.len() {
                        assert(order[i + 1] == old_order[i + 2]);
                    }
                }
            }
            assert forall|q: int| 0 <= q < slots.len() && (#[trigger] slots[q]).node is Some implies order.contains(
                q as usize,
            ) by {
                assert(q != j);
                assert(old_slots[q].node is Some);
                assert(old_order.contains(q as usize));
                let a = choose|a: int| 0 <= a < old_order.len() && old_order[a] == q as usize;
                assert(a != p);
                if a < p {
                    assert(order[a] == q as usize);
                } else {
                    assert(order[a - 1] == q as usize);
                }
            }
            assert forall|k2: int| 0 <= k2 < self.free@.len() implies {
                let f = #[trigger] self.free@[k2] as int;
                &&& f < slots.len()
                &&& slots[f].node is None
                &&& slots[f].stamp < u64::MAX
            } by {
                if k2 < old(self).free@.len() {
                    assert(self.free@[k2] == old(self).free@[k2]);
                }
            }
            if self.free@.len() > old(self).free@.len() {
                assert forall|a: int, b: int|
                    0 <= a < self.free@.len() && 0 <= b < self.free@.len() && a != b implies self.free@[a]
                    != self.free@[b] by {
                    if a < old(self).free@.len() {
                        assert(self.free@[a] == old(self).free@[a]);
                    }
                    if b < old(self).free@.len() {
                        assert(self.free@[b] == old(self).free@[b]);
                    }
                }
            }
            if order.len() > 0 {
                if p == old_order.len() - 1 {
                    assert(order.last() == old_order[p - 1]);
                } else {
                    assert(order.last() == old_order.last());
                }
            }
            assert(self@ =~= old(self)@.remove(p)) by {
                assert forall|i: int| 0 <= i < order.len() implies self@[i] == old(self)@.remove(p)[i] by {
                    let i0 = if i < p { i } else { i + 1 };
                    assert(order[i] == old_order[i0]);
                    assert(link_ok(old_slots, old_order, i0));
                }
            }
            assert(self.keys() =~= old(self).keys().remove(p)) by {
                assert forall|i: int| 0 <= i < order.len() implies self.keys()[i] == old(self).keys().remove(p)[i] by {
                    let i0 = if i < p { i } else { i + 1 };
                    assert(order[i] == old_order[i0]);
                    assert(link_ok(old_slots, old_order, i0));
                }
            }
            assert forall|r2: NodeRef<T>| #![trigger self.issued(r2)] old(self).issued(r2) implies self.issued(r2)
                && (!old(self).contains_ref(r2) ==> !self.contains_ref(r2)) by {
                old(self).lemma_contains(r2);
                self.lemma_contains(r2);
            }
        }
        value
    }
}


impl<T> LinkedList<T> {
    /// Pushes the value to the head of the list. The resulting [NodeRef] can be used to
    /// remove the entry or add items to either side of it.
    ///
    /// Complexity: O(1)
    pub fn push_head(&mut self, value: T) -> (r: NodeRef<T>)
        requires
            old(self).wf(),
        ensures
            final(self).wf(),
            final(self)@ == seq![value] + old(self)@,
            final(self).keys() == seq![r.key()] + old(self).keys(),
            !old(self).issued(r),
            final(self).issued(r),
            old(self).keeps_handles(final(self)),
    {
        let next = self.head;
        let r = self.link_at(value, None, next, Ghost(0));
        assert(old(self)@.insert(0, value) =~= seq![value] + old(self)@);
        assert(old(self).keys().insert(0, r.key()) =~= seq![r.key()] + old(self).keys());
        r
    }

    /// Pushes the value to the tail of the list. The resulting [NodeRef] can be used to
    /// remove the entry or add items to either side of it.
    ///
    /// Complexity: O(1)
    pub fn push_tail(&mut self, value: T) -> (r: NodeRef<T>)
        requires
            old(self).wf(),
        ensures
            final(self).wf(),
            final(self)@ == old(self)@.push(value),
            final(self).keys() == old(self).keys().push(r.key()),
            !old(self).issued(r),
            final(self).issued(r),
            old(self).keeps_handles(final(self)),
    {
        let prev = self.tail;
        let ghost n = self.order@.len() as int;
        let r = self.link_at(value, prev, None, Ghost(n));
        assert(old(self)@.insert(n, value) =~= old(self)@.push(value));
        assert(old(self).keys().insert(n, r.key()) =~= old(self).keys().push(r.key()));
        r
    }

    /// Finds the slot of the handle's entry, if the entry is in the list.
    fn locate(&self, node_ref: &NodeRef<T>) -> (found: bool)
        requires
            self.wf(),
        ensures
            found == self.contains_ref(*node_ref),
            found ==> 0 <= self.position(*node_ref) < self.order@.len()
                && self.order@[self.position(*node_ref)] == node_ref.index,
    {
        proof {
            self.lemma_contains(*node_ref);
        }
        node_ref.list == self.id && node_ref.index < self.slots.len()
            && self.slots[node_ref.index].stamp == node_ref.stamp
            && self.slots[node_ref.index].node.is_some()
    }

    /// Pushes an element before the referenced item. In case the [NodeRef] is no longer a part
    /// of this list, it returns `Err(value)`.
    ///
    /// Complexity: O(1)
    pub fn push_before(&mut self, node_ref: &NodeRef<T>, value: T) -> (res: Result<NodeRef<T>, T>)
        requires
            old(self).wf(),
        ensures
            final(self).wf(),
            old(self).contains_ref(*node_ref) ==> (res matches Ok(r) && final(self)@ == old(self)@.insert(
                old(self).position(*node_ref),
                value,
            ) && final(self).keys() == old(self).keys().insert(
                old(self).position(*node_ref),
                r.key(),
            ) && !old(self).issued(r) && final(self).issued(r)),
            !old(self).contains_ref(*node_ref) ==> res == Err::<NodeRef<T>, T>(value) && *final(self)
                == *old(self),
            old(self).keeps_handles(final(self)),
    {
        if !self.locate(node_ref) {
            return Err(value);
        }
        let ghost p = self.position(*node_ref);
        let j = node_ref.index;
        proof {
            assert(link_ok(self.slots@, self.order@, p));
        }
        let prev = match &self.slots[j].node {
            Some(n) => n.prev,
            None => None,
        };
        Ok(self.link_at(value, prev, Some(j), Ghost(p)))
    }

    /// Pushes an element after the referenced item. In case the [NodeRef] is no longer a part of
    /// this list, it returns `Err(value)`.
    ///
    /// Complexity: O(1)
    pub fn push_after(&mut self, node_ref: &NodeRef<T>, value: T) -> (res: Result<NodeRef<T>, T>)
        requires
            old(self).wf(),
        ensures
            final(self).wf(),
            old(self).contains_ref(*node_ref) ==> (res matches Ok(r) && final(self)@ == old(self)@.insert(
                old(self).position(*node_ref) + 1,
                value,
            ) && final(self).keys() == old(self).keys().insert(
                old(self).position(*node_ref) + 1,
                r.key(),
            ) && !old(self).issued(r) && final(self).issued(r)),
            !old(self).contains_ref(*node_ref) ==> res == Err::<NodeRef<T>, T>(value) && *final(self)
                == *old(self),
            old(self).keeps_handles(final(self)),
    {
        if !self.locate(node_ref) {
            return Err(value);
        }
        let ghost p = self.position(*node_ref);
        let j = node_ref.index;
        proof {
            assert(link_ok(self.slots@, self.order@, p));
        }
        let next = match &self.slots[j].node {
            Some(n) => n.next,
            None => None,
        };
        Ok(self.link_at(value, Some(j), next, Ghost(p + 1)))
    }

    /// Removes the first item in the list if any and returns it.
    ///
    /// Complexity: O(1)
    pub fn pop_head(&mut self) -> (res: Option<T>)
        requires
            old(self).wf(),
        ensures
            final(self).wf(),
            old(self)@.len() == 0 ==> res is None && *final(self) == *old(self),
            old(self)@.len() > 0 ==> res == Some(old(self)@[0]) && final(self)@ == old(self)@.drop_first()
                && final(self).keys() == old(self).keys().drop_first(),
            old(self).keeps_handles(final(self)),
    {
        match self.head {
            None => None,
            Some(j) => {
                let v = self.unlink_at(j, Ghost(0));
                assert(old(self)@.remove(0) =~= old(self)@.drop_first());
                assert(old(self).keys().remove(0) =~= old(self).keys().drop_first());
                Some(v)
            },
        }
    }

    /// Removes the last item in the list if any and returns it.
    ///
    /// Complexity: O(1)
    pub fn pop_tail(&mut self) -> (res: Option<T>)
        requires
            old(self).wf(),
        ensures
            final(self).wf(),
            old(self)@.len() == 0 ==> res is None && *final(self) == *old(self),
            old(self)@.len() > 0 ==> res == Some(old(self)@.last()) && final(self)@
                == old(self)@.drop_last() && final(self).keys() == old(self).keys().drop_last(),
            old(self).keeps_handles(final(self)),
    {
        match self.tail {
            None => None,
            Some(j) => {
                let ghost n = self.order@.len() - 1;
                let v = self.unlink_at(j, Ghost(n));
                assert(old(self)@.remove(n) =~= old(self)@.drop_last());
                assert(old(self).keys().remove(n) =~= old(self).keys().drop_last());
                Some(v)
            },
        }
    }

    /// Gets a reference to the value by its ref.
    ///
    /// In case the item was removed from the list it returns [None].
    ///
    /// Complexity: O(1)
    pub fn get(&self, node_ref: &NodeRef<T>) -> (res: Option<&T>)
        requires
            self.wf(),
        ensures
            res == (if self.contains_ref(*node_ref) {
                Some(&self@[self.position(*node_ref)])
            } else {
                None
            }),
    {
        if !self.locate(node_ref) {
            return None;
        }
        proof {
            assert(link_ok(self.slots@, self.order@, self.position(*node_ref)));
        }
        match &self.slots[node_ref.index].node {
            Some(n) => Some(&n.value),
            None => None,
        }
    }

    /// Gets a mutable reference to the value by its ref.
    ///
    /// In case the item was removed from the list it returns [None].
    ///
    /// Complexity: O(1)
    pub fn get_mut(&mut self, node_ref: &NodeRef<T>) -> (res: Option<&mut T>)
        requires
            old(self).wf(),
        ensures
            old(self).contains_ref(*node_ref) ==> (res matches Some(v) && *v == old(self)@[old(self).position(*node_ref)] && final(self).wf() && final(self)@ == old(self)@.update(
                old(self).position(*node_ref),
                *final(v),
            ) && final(self).keys() == old(self).keys() && old(self).keeps_handles(final(self))),
            !old(self).contains_ref(*node_ref) ==> res is None && *final(self) == *old(self),
    {
        if !self.locate(node_ref) {
            return None;
        }
        let ghost p = self.position(*node_ref);
        proof {
            assert(link_ok(self.slots@, self.order@, p));
        }
        proof {
            Self::lemma_value_update(*self, node_ref.index as int, p);
        }
        match &mut self.slots[node_ref.index].node {
            Some(n) => Some(&mut n.value),
            None => None,
        }
    }

    /// Returns a reference to the first element, if any.
    pub fn head(&self) -> (res: Option<&T>)
        requires
            self.wf(),
        ensures
            res == (if self@.len() == 0 {
                None
            } else {
                Some(&self@[0])
            }),
    {
        match self.head {
            None => None,
            Some(j) => {
                proof {
                    assert(link_ok(self.slots@, self.order@, 0));
                }
                match &self.slots[j].node {
                    Some(n) => Some(&n.value),
                    None => None,
                }
            },
        }
    }

    /// Returns a reference to the last element, if any.
    pub fn tail(&self) -> (res: Option<&T>)
        requires
            self.wf(),
        ensures
            res == (if self@.len() == 0 {
                None
            } else {
                Some(&self@.last())
            }),
    {
        match self.tail {
            None => None,
            Some(j) => {
                proof {
                    assert(link_ok(self.slots@, self.order@, self.order@.len() - 1));
                }
                match &self.slots[j].node {
                    Some(n) => Some(&n.value),
                    None => None,
                }
            },
        }
    }

    /// Removes the element by reference.
    ///
    /// Returns [None] when the item is no longer part of the list.
    ///
    /// Complexity: O(1).
    pub fn remove(&mut self, node_ref: NodeRef<T>) -> (res: Option<T>)
        requires
            old(self).wf(),
        ensures
            final(self).wf(),
            old(self).contains_ref(node_ref) ==> res == Some(old(self)@[old(self).position(node_ref)])
                && final(self)@ == old(self)@.remove(old(self).position(node_ref))
                && final(self).keys() == old(self).keys().remove(old(self).position(node_ref)),
            !old(self).contains_ref(node_ref) ==> res is None && *final(self) == *old(self),
            !final(self).contains_ref(node_ref),
            old(self).keeps_handles(final(self)),
    {
        if !self.locate(&node_ref) {
            return None;
        }
        let ghost p = self.position(node_ref);
        let v = self.unlink_at(node_ref.index, Ghost(p));
        proof {
            self.lemma_contains(node_ref);
            old(self).lemma_contains(node_ref);
        }
        Some(v)
    }
}


impl<T> LinkedList<T> {
    /// References to the values, from head to tail.
    fn collect_refs(&self) -> (v: Vec<&T>)
        requires
            self.wf(),
        ensures
            v@.len() == self@.len(),
            forall|i: int| 0 <= i < v@.len() ==> *v@[i] == self@[i],
    {
        let mut out: Vec<&T> = Vec::new();
        let mut cur = self.head;
        let mut i: usize = 0;
        while i < self.len
            invariant
                self.wf(),
                i <= self.len,
                cur == next_at(self.order@, i as int),
                out@.len() == i,
                forall|k: int| 0 <= k < i ==> *out@[k] == self@[k],
            decreases self.len - i,
        {
            proof {
                assert(link_ok(self.slots@, self.order@, i as int));
            }
            let j = cur.unwrap();
            match &self.slots[j].node {
                Some(n) => {
                    out.push(&n.value);
                    cur = n.next;
                },
                None => {},
            }
            i = i + 1;
        }
        out
    }

    /// Returns an iterator.
    pub fn iter(&self) -> (it: Iter<'_, T>)
        requires
            self.wf(),
        ensures
            it.remaining().len() == self@.len(),
            forall|i: int| 0 <= i < self@.len() ==> *it.remaining()[i] == self@[i],
    {
        let v = self.collect_refs();
        v.into_iter()
    }

    /// The values, from head to tail, taken out of the list.
    pub fn into_vec(self) -> (v: Vec<T>)
        requires
            self.wf(),
        ensures
            v@ == self@,
    {
        let mut list = self;
        let mut out: Vec<T> = Vec::new();
        let ghost all = list@;
        while list.len > 0
            invariant
                list.wf(),
                all == out@ + list@,
            decreases list@.len(),
        {
            let ghost before = list@;
            match list.pop_head() {
                Some(v) => {
                    out.push(v);
                    assert(all =~= out@ + list@);
                },
                None => {},
            }
        }
        assert(out@ =~= all);
        out
    }

    /// Returns an iterator.
    pub fn into_iter(self) -> (it: IntoIter<T>)
        requires
            self.wf(),
        ensures
            it.remaining() == self@,
    {
        self.into_vec().into_iter()
    }

    /// A list holding the values, in their order, from head to tail.
    pub fn from_vec(values: Vec<T>) -> (l: Self)
        ensures
            l.wf(),
            l@ == values@,
    {
        let mut list = Self::new();
        let mut rest = values;
        let ghost all = rest@;
        assert(all =~= rest@ + list@);
        while rest.len() > 0
            invariant
                list.wf(),
                all == rest@ + list@,
            decreases rest@.len(),
        {
            let v = rest.pop().unwrap();
            list.push_head(v);
            assert(all =~= rest@ + list@);
        }
        assert(list@ =~= all);
        list
    }
}

impl<T> Default for LinkedList<T> {
    fn default() -> (l: Self)
        ensures
            l.wf(),
            l@ == Seq::<T>::empty(),
    {
        Self::new()
    }
}





/// Handles stay retired over any sequence of operations: if each step keeps the handles, so does
/// the whole sequence. Every operation that changes a list ensures `keeps_handles`, so a handle
/// whose entry left the list is answered with `None` (or `Err`) from then on.
pub proof fn law_handles_stay_retired<T>(a: LinkedList<T>, b: LinkedList<T>, c: LinkedList<T>)
    requires
        a.keeps_handles(&b),
        b.keeps_handles(&c),
    ensures
        a.keeps_handles(&c),
{
    assert forall|r: NodeRef<T>| #![trigger c.issued(r)] a.issued(r) implies c.issued(r) && (
    !a.contains_ref(r) ==> !c.contains_ref(r)) by {
        assert(b.issued(r));
        assert(b.keeps_handles(&c));
        assert(c.issued(r));
        assert(!a.contains_ref(r) ==> !b.contains_ref(r));
        assert(!b.contains_ref(r) ==> !c.contains_ref(r));
    }
}

/// The handle returned by `push_tail` resolves to the pushed value, at the back of the list.
pub proof fn law_get_after_push_tail<T>(before: LinkedList<T>, after: LinkedList<T>, r: NodeRef<T>, v: T)
    requires
        before.wf(),
        after.wf(),
        after@ == before@.push(v),
        after.keys() == before.keys().push(r.key()),
    ensures
        after.contains_ref(r),
        after.position(r) == before@.len(),
        after@[after.position(r)] == v,
{
    before.lemma_model();
    after.lemma_model();
    let i = before@.len() as int;
    assert(after.keys()[i] == r.key());
}

/// The handle returned by `push_head` resolves to the pushed value, at the front of the list.
pub proof fn law_get_after_push_head<T>(before: LinkedList<T>, after: LinkedList<T>, r: NodeRef<T>, v: T)
    requires
        before.wf(),
        after.wf(),
        after@ == seq![v] + before@,
        after.keys() == seq![r.key()] + before.keys(),
    ensures
        after.contains_ref(r),
        after.position(r) == 0,
        after@[after.position(r)] == v,
{
    after.lemma_model();
    assert(after.keys()[0] == r.key());
}

/// Removing the entry that `push_tail` added gives the value back and restores the list's
/// values and handles.
pub proof fn law_remove_undoes_push_tail<T>(
    before: LinkedList<T>,
    mid: LinkedList<T>,
    after: LinkedList<T>,
    r: NodeRef<T>,
    v: T,
)
    requires
        before.wf(),
        mid.wf(),
        after.wf(),
        mid@ == before@.push(v),
        mid.keys() == before.keys().push(r.key()),
        after@ == mid@.remove(mid.position(r)),
        after.keys() == mid.keys().remove(mid.position(r)),
    ensures
        mid@[mid.position(r)] == v,
        after@ == before@,
        after.keys() == before.keys(),
{
    law_get_after_push_tail(before, mid, r, v);
    assert(after@ =~= before@);
    assert(after.keys() =~= before.keys());
}

/// First in, first out: popping the head after pushing `v` to the tail gives the old head, or
/// `v` when the list was empty, and the rest keeps its order with `v` last.
pub proof fn law_fifo<T>(before: LinkedList<T>, mid: LinkedList<T>, after: LinkedList<T>, v: T, popped: T)
    requires
        mid@ == before@.push(v),
        popped == mid@[0],
        after@ == mid@.drop_first(),
    ensures
        popped == (if before@.len() == 0 {
            v
        } else {
            before@[0]
        }),
        after@ == (if before@.len() == 0 {
            Seq::<T>::empty()
        } else {
            before@.drop_first().push(v)
        }),
{
    if before@.len() == 0 {
        assert(after@ =~= Seq::<T>::empty());
    } else {
        assert(after@ =~= before@.drop_first().push(v));
    }
}

} // verus!
