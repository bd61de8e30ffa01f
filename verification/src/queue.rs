//! The queue: a binary heap of elements, a slot table that names them, and the
//! operations that keep the two in step.

use vstd::prelude::*;
use core::marker::PhantomData;
use crate::handle::TQHandle;
use crate::order::{lawful, Order};
use crate::shape::{
    best_child_of, between, exchanged, heap_around, heap_ordered, lemma_between_single,
    lemma_changed_at, lemma_exchange_down, lemma_exchange_up, lemma_front_after_rise,
    lemma_lift_step, lemma_lifted_nowhere, lemma_lower_step, lemma_lowered_nowhere,
    lemma_path_grows_up, lemma_path_le, lemma_root_is_best, lemma_rose_nowhere,
    lemma_sank_nowhere, lemma_settled_is_heap, lemma_unsettled_above_is_settled_below, lifted,
    lowered, on_path_up, parent, rests_on_parent, rose_as_owed, sank_as_owed, settled_above,
    settled_below, sifted, taken_out,
};

verus! {

/// Exchanges two elements of a vector in place, through `<[T]>::swap`.
///
/// Both indices must be in bounds, as the slice method panics otherwise.
/// Afterwards the two positions hold each other's former element and every
/// other position is untouched. This is the documented behaviour of the
/// standard library and is not proved here.
#[verifier::external_body]
fn swap_elems<E>(v: &mut Vec<E>, i: usize, j: usize)
    requires
        i < old(v)@.len(),
        j < old(v)@.len(),
    ensures
        final(v)@ == old(v)@.update(i as int, old(v)@[j as int]).update(j as int, old(v)@[i as int]),
{
    v.swap(i, j);
}

/// One queued element: its payload, its priority, its position in the heap and
/// the slot that names it.
struct TQElem<P, T> {
    priority: P,
    data: T,
    idx: usize,
    slot: usize,
}

impl<P, T> TQElem<P, T> {
    /// An element for position `idx` of the heap, named by `slot`.
    fn new(data: T, priority: P, idx: usize, slot: usize) -> (e: Self)
        ensures
            e.data == data,
            e.priority == priority,
            e.idx == idx,
            e.slot == slot,
    {
        Self { data, idx, slot, priority }
    }
}

/// One entry of the slot table: the generation that the slot is in, and the
/// heap position of the element that it names, if it names one.
#[derive(Clone, Copy)]
struct Slot {
    generation: u64,
    pos: Option<usize>,
}

/// An indexed priority queue with stable handles.
///
/// The elements lie in a binary heap, so that the one to be served next is
/// always at hand. Beside the heap stands a table of slots: each element is
/// named by one slot for as long as it is queued, and the slot records where in
/// the heap the element currently lies. A vacated slot may name a later element,
/// in a new generation, which keeps the handles of the earlier one from
/// resolving to it. A slot whose generations are used up is not given out again.
///
/// In contracts a queue is seen as the map from the handles that resolve to the
/// priority and the payload of the element that each names.
pub struct TimerQueue<P, T> {
    /// The heap, root first.
    v: Vec<TQElem<P, T>>,
    /// The slot table, indexed by slot.
    slots: Vec<Slot>,
    /// The vacant slots that may be given out again.
    free: Vec<usize>,
    /// Which priorities are served first.
    order: Order,
}

impl<P: PartialOrd + Clone, T> TimerQueue<P, T> {
    /// Which priorities this queue serves first.
    pub closed spec fn order(&self) -> Order {
        self.order
    }

    /// The number of elements in the queue.
    pub closed spec fn len(&self) -> nat {
        self.v@.len()
    }

    /// The priority stored at position `i` of the heap.
    pub closed spec fn priority_at(&self, i: int) -> P {
        self.v@[i].priority
    }

    /// The payload stored at position `i` of the heap.
    pub closed spec fn payload_at(&self, i: int) -> T {
        self.v@[i].data
    }

    /// The handle of the element stored at position `i` of the heap.
    pub closed spec fn handle_at(&self, i: int) -> TQHandle<P, T> {
        TQHandle {
            slot: self.v@[i].slot,
            generation: self.slots@[self.v@[i].slot as int].generation,
            marker: PhantomData,
        }
    }

    /// What the slot table says of `h`: the heap position of the element that
    /// `h` names, or `None` where `h` names no element of the queue.
    pub closed spec fn position(&self, h: TQHandle<P, T>) -> Option<int> {
        if h.slot < self.slots@.len() && self.slots@[h.slot as int].generation == h.generation {
            match self.slots@[h.slot as int].pos {
                Some(i) => Some(i as int),
                None => None,
            }
        } else {
            None
        }
    }

    /// The handles that named an element of this queue which has since left it.
    pub closed spec fn retired(&self) -> Set<TQHandle<P, T>> {
        Set::new(
            |h: TQHandle<P, T>|
                h.slot < self.slots@.len() && (h.generation < self.slots@[h.slot as int].generation
                    || (h.generation == self.slots@[h.slot as int].generation
                    && self.slots@[h.slot as int].pos is None)),
        )
    }

    /// The priorities in heap order, root first.
    pub open spec fn priorities(&self) -> Seq<P> {
        Seq::new(self.len(), |i: int| self.priority_at(i))
    }

    /// The handles of the elements in heap order, root first.
    pub open spec fn handles(&self) -> Seq<TQHandle<P, T>> {
        Seq::new(self.len(), |i: int| self.handle_at(i))
    }

    /// The slot table and the heap agree: each element's handle resolves to the
    /// element's position, and a handle resolves only to the position of the
    /// element that it names.
    pub open spec fn positions_consistent(&self) -> bool {
        &&& forall|i: int|
            0 <= i < self.len() ==> self.position(#[trigger] self.handle_at(i)) == Some(i)
        &&& forall|h: TQHandle<P, T>|
            match #[trigger] self.position(h) {
                Some(i) => 0 <= i < self.len() && self.handle_at(i) == h,
                None => true,
            }
    }

    /// The representation is coherent: the order is lawful, every element
    /// records its own position and is named by exactly one slot, and the list
    /// of reusable slots holds vacant slots only, each once.
    pub closed spec fn linked(&self) -> bool {
        &&& lawful::<P>()
        &&& forall|i: int|
            0 <= i < self.v@.len() ==> {
                &&& (#[trigger] self.v@[i]).idx == i
                &&& self.v@[i].slot < self.slots@.len()
                &&& self.slots@[self.v@[i].slot as int].pos == Some(i as usize)
            }
        &&& forall|s: int|
            0 <= s < self.slots@.len() ==> match (#[trigger] self.slots@[s]).pos {
                Some(i) => i < self.v@.len() && self.v@[i as int].slot == s,
                None => true,
            }
        &&& forall|k: int|
            0 <= k < self.free@.len() ==> {
                &&& (#[trigger] self.free@[k]) < self.slots@.len()
                &&& self.slots@[self.free@[k] as int].pos is None
                &&& self.slots@[self.free@[k] as int].generation < u64::MAX
            }
        &&& forall|k1: int, k2: int|
            0 <= k1 < k2 < self.free@.len() ==> self.free@[k1] != self.free@[k2]
    }

    /// The queue is well formed: its representation is coherent, the slot table
    /// agrees with the heap, the heap is ordered, and the handles that resolve
    /// are as many as the elements.
    pub open spec fn wf(&self) -> bool {
        &&& self.linked()
        &&& self.positions_consistent()
        &&& heap_ordered(self.order(), self.priorities())
        &&& self@.dom().finite()
        &&& self@.len() == self.len()
    }

    /// The handle of the element at the root of the heap.
    pub open spec fn front(&self) -> TQHandle<P, T> {
        self.handle_at(0)
    }

    /// `h` names an element of the queue, and no element of the queue has a
    /// priority better than that element's.
    pub open spec fn is_best(&self, h: TQHandle<P, T>) -> bool {
        &&& self@.contains_key(h)
        &&& forall|g: TQHandle<P, T>| #[trigger]
            self@.contains_key(g) ==> !self.order().better(self@[g].0, self@[h].0)
    }

    /// `h` was handed out by this queue: it names an element of the queue or
    /// named one that has left.
    pub open spec fn issued(&self, h: TQHandle<P, T>) -> bool {
        self@.contains_key(h) || self.retired().contains(h)
    }

    /// A retired handle names no element of the queue.
    pub proof fn lemma_retired_is_stale(&self, h: TQHandle<P, T>)
        requires
            self.retired().contains(h),
        ensures
            !self@.contains_key(h),
    {
    }

    /// In a well-formed queue that is not empty, the front handle names a best
    /// element.
    pub proof fn lemma_front_is_best(&self)
        requires
            self.wf(),
            self@.len() > 0,
        ensures
            self.is_best(self.front()),
    {
        assert(self.position(self.handle_at(0)) == Some(0int));
        assert forall|g: TQHandle<P, T>| #[trigger] self@.contains_key(g) implies !self.order().better(
            self@[g].0,
            self@[self.front()].0,
        ) by {
            let i = self.position(g).unwrap();
            lemma_root_is_best(self.order(), self.priorities(), i);
            assert(self.priorities()[i] == self.priority_at(i));
            assert(self.priorities()[0] == self.priority_at(0));
        }
    }

    /// A coherent representation has consistent positions.
    proof fn lemma_linked_positions(&self)
        requires
            self.linked(),
        ensures
            self.positions_consistent(),
    {
        assert forall|i: int| 0 <= i < self.len() implies self.position(
            #[trigger] self.handle_at(i),
        ) == Some(i) by {
            let e = self.v@[i];
        }
        assert forall|h: TQHandle<P, T>| #[trigger] self.position(h) is Some implies 0
            <= self.position(h).unwrap() < self.len() && self.handle_at(self.position(h).unwrap())
            == h by {
            let s = self.slots@[h.slot as int];
        }
    }

    /// Exchanges the elements at `i` and `j` and brings their recorded positions
    /// and the slot table up to date.
    fn swap_entries(&mut self, i: usize, j: usize)
        requires
            old(self).linked(),
            i < old(self).len(),
            j < old(self).len(),
        ensures
            final(self).linked(),
            final(self).order() == old(self).order(),
            final(self).len() == old(self).len(),
            final(self)@ == old(self)@,
            final(self).retired() == old(self).retired(),
            final(self).priorities() == exchanged(old(self).priorities(), i as int, j as int),
            final(self).handles() == exchanged(old(self).handles(), i as int, j as int),
    {
        swap_elems(&mut self.v, i, j);
        self.v[i].idx = i;
        self.v[j].idx = j;
        let si = self.v[i].slot;
        let sj = self.v[j].slot;
        self.slots[si].pos = Some(i);
        self.slots[sj].pos = Some(j);
        proof {
            assert(self@ =~= old(self)@);
            assert(self.retired() =~= old(self).retired());
            assert(self.priorities() =~= exchanged(old(self).priorities(), i as int, j as int));
            assert(self.handles() =~= exchanged(old(self).handles(), i as int, j as int));
        }
    }

    /// Whether the element at `i` is to be served strictly before the one at `j`.
    fn outranks(&self, i: usize, j: usize) -> (r: bool)
        requires
            self.linked(),
            i < self.len(),
            j < self.len(),
        ensures
            r == self.order().better(self.priorities()[i as int], self.priorities()[j as int]),
    {
        self.order.is_better(&self.v[i].priority, &self.v[j].priority)
    }

    /// Moves the element at `idx` towards the root for as long as it is better
    /// than its parent, and returns the position at which it comes to rest.
    ///
    /// The element travels along the way from `idx` to the root and stops below
    /// the first parent that it is not better than; on a tie it does not move.
    /// Each element that it passes goes one step down, and nothing else moves.
    /// Where the heap was in order around `idx`, it is then in order around the
    /// resting place and above it; where it was also in order below `idx`, it is
    /// in order everywhere.
    fn heap_up(&mut self, idx: usize) -> (r: usize)
        requires
            old(self).linked(),
            idx < old(self).len(),
        ensures
            final(self).linked(),
            final(self).positions_consistent(),
            final(self).order() == old(self).order(),
            final(self).len() == old(self).len(),
            final(self)@ == old(self)@,
            final(self).retired() == old(self).retired(),
            r <= idx,
            on_path_up(r as int, idx as int),
            final(self).handles()[r as int] == old(self).handles()[idx as int],
            lifted(old(self).handles(), final(self).handles(), idx as int, r as int),
            lifted(old(self).priorities(), final(self).priorities(), idx as int, r as int),
            rose_as_owed(old(self).order(), old(self).priorities(), idx as int, r as int),
            (idx == 0 || !old(self).order().better(
                old(self).priorities()[idx as int],
                old(self).priorities()[parent(idx as int)],
            )) ==> r == idx,
            r == idx ==> *final(self) == *old(self),
            settled_above(final(self).order(), final(self).priorities(), r as int),
            heap_around(old(self).order(), old(self).priorities(), idx as int) ==> heap_around(
                final(self).order(),
                final(self).priorities(),
                r as int,
            ),
            heap_around(old(self).order(), old(self).priorities(), idx as int) && settled_below(
                old(self).order(),
                old(self).priorities(),
                idx as int,
            ) ==> heap_ordered(final(self).order(), final(self).priorities()),
    {
        let mut k = idx;
        proof {
            lemma_lifted_nowhere(self.handles(), idx as int);
            lemma_lifted_nowhere(self.priorities(), idx as int);
            assert forall|j: int| #[trigger] between(k as int, j, idx as int) && j != k implies false by {
                lemma_between_single(idx as int, j);
            }
        }
        while k > 0 && self.outranks(k, (k - 1) / 2)
            invariant
                self.linked(),
                k <= idx,
                idx < self.len(),
                self.order() == old(self).order(),
                self.len() == old(self).len(),
                self@ == old(self)@,
                self.retired() == old(self).retired(),
                k == idx ==> *self == *old(self),
                lifted(old(self).handles(), self.handles(), idx as int, k as int),
                lifted(old(self).priorities(), self.priorities(), idx as int, k as int),
                forall|j: int| #[trigger]
                    between(k as int, j, idx as int) && j != k ==> old(self).order().better(
                        old(self).priorities()[idx as int],
                        old(self).priorities()[parent(j)],
                    ),
                heap_around(old(self).order(), old(self).priorities(), idx as int) ==> heap_around(
                    self.order(),
                    self.priorities(),
                    k as int,
                ),
                heap_around(old(self).order(), old(self).priorities(), idx as int) && settled_below(
                    old(self).order(),
                    old(self).priorities(),
                    idx as int,
                ) ==> settled_below(self.order(), self.priorities(), k as int),
            decreases k,
        {
            let p = (k - 1) / 2;
            proof {
                lemma_lift_step(old(self).handles(), self.handles(), idx as int, k as int);
                lemma_lift_step(old(self).priorities(), self.priorities(), idx as int, k as int);
                lemma_path_le(k as int, idx as int);
                assert forall|j: int| #[trigger]
                    between(p as int, j, idx as int) && j != p implies old(self).order().better(
                    old(self).priorities()[idx as int],
                    old(self).priorities()[parent(j)],
                ) by {
                    lemma_path_grows_up(k as int, j, idx as int);
                }
                if heap_around(self.order(), self.priorities(), k as int) {
                    lemma_exchange_up(self.order(), self.priorities(), k as int);
                }
            }
            self.swap_entries(k, p);
            k = p;
        }
        proof {
            self.lemma_linked_positions();
            if k > 0 {
                lemma_lift_step(old(self).priorities(), self.priorities(), idx as int, k as int);
            }
            if k != idx {
                assert(on_path_up(idx as int, idx as int));
                assert(between(k as int, idx as int, idx as int));
            }
            if heap_around(self.order(), self.priorities(), k as int) && settled_below(
                self.order(),
                self.priorities(),
                k as int,
            ) {
                lemma_settled_is_heap(self.order(), self.priorities(), k as int);
            }
        }
        k
    }

    /// The child of `k` that an element at `k` would be exchanged with: the
    /// right one where it is better than the left one, else the left one. No
    /// child of `k` is better than it.
    fn best_child(&self, k: usize) -> (c: usize)
        requires
            self.linked(),
            k < self.len() / 2,
        ensures
            c < self.len(),
            parent(c as int) == k,
            c == best_child_of(self.order(), self.priorities(), k as int),
            forall|i: int|
                0 < i < self.len() && parent(i) == k ==> !self.order().better(
                    #[trigger] self.priorities()[i],
                    self.priorities()[c as int],
                ),
    {
        let n = self.v.len();
        let left = 2 * k + 1;
        let right = left + 1;
        if right < n && self.outranks(right, left) {
            proof {
                self.order().lemma_asymmetric(
                    self.priorities()[right as int],
                    self.priorities()[left as int],
                );
                self.order().lemma_irreflexive(self.priorities()[right as int]);
            }
            right
        } else {
            proof {
                self.order().lemma_irreflexive(self.priorities()[left as int]);
            }
            left
        }
    }

    /// Moves the element at `idx` away from the root for as long as one of its
    /// children is better, each time below the best child, and returns the
    /// position at which it comes to rest.
    ///
    /// The element travels down from `idx`, each time to the best child of the
    /// position it is at, and stops where that child is not better than it or
    /// where there is no child; on a tie it does not move. Each element that it
    /// passes goes one step up, and nothing else moves. Where the heap was in
    /// order around `idx` and above it, it is then in order everywhere.
    fn heap_down(&mut self, idx: usize) -> (r: usize)
        requires
            old(self).linked(),
            idx < old(self).len(),
        ensures
            final(self).linked(),
            final(self).positions_consistent(),
            final(self).order() == old(self).order(),
            final(self).len() == old(self).len(),
            final(self)@ == old(self)@,
            final(self).retired() == old(self).retired(),
            idx <= r < final(self).len(),
            on_path_up(idx as int, r as int),
            final(self).handles()[r as int] == old(self).handles()[idx as int],
            lowered(old(self).handles(), final(self).handles(), idx as int, r as int),
            lowered(old(self).priorities(), final(self).priorities(), idx as int, r as int),
            sank_as_owed(old(self).order(), old(self).priorities(), idx as int, r as int),
            settled_below(old(self).order(), old(self).priorities(), idx as int) ==> r == idx,
            r == idx ==> *final(self) == *old(self),
            r != idx ==> final(self).handles()[idx as int] == old(self).handles()[best_child_of(
                old(self).order(),
                old(self).priorities(),
                idx as int,
            )],
            settled_below(final(self).order(), final(self).priorities(), r as int),
            heap_around(old(self).order(), old(self).priorities(), idx as int) && settled_above(
                old(self).order(),
                old(self).priorities(),
                idx as int,
            ) ==> heap_ordered(final(self).order(), final(self).priorities()),
    {
        let n = self.v.len();
        let mut k = idx;
        let ghost was = self.priorities();
        let ghost order = self.order();
        proof {
            lemma_lowered_nowhere(self.handles(), idx as int);
            lemma_lowered_nowhere(self.priorities(), idx as int);
            assert forall|j: int| #[trigger] between(idx as int, j, k as int) && j != idx implies false by {
                lemma_between_single(idx as int, j);
            }
        }
        while k < n / 2
            invariant
                self.linked(),
                idx <= k < n,
                n == self.len(),
                was == old(self).priorities(),
                order == old(self).order(),
                self.order() == order,
                self.len() == old(self).len(),
                self@ == old(self)@,
                self.retired() == old(self).retired(),
                k == idx ==> *self == *old(self),
                k != idx ==> !settled_below(order, was, idx as int),
                k != idx ==> self.handles()[idx as int] == old(self).handles()[best_child_of(
                    order,
                    was,
                    idx as int,
                )],
                lowered(old(self).handles(), self.handles(), idx as int, k as int),
                lowered(was, self.priorities(), idx as int, k as int),
                forall|j: int| #[trigger]
                    between(idx as int, j, k as int) && j != idx ==> {
                        &&& j == best_child_of(order, was, parent(j))
                        &&& order.better(was[j], was[idx as int])
                    },
                heap_around(order, was, idx as int) && settled_above(order, was, idx as int) ==> {
                    &&& heap_around(order, self.priorities(), k as int)
                    &&& settled_above(order, self.priorities(), k as int)
                },
            ensures
                settled_below(order, self.priorities(), k as int),
                2 * k + 1 < n ==> !order.better(was[best_child_of(order, was, k as int)], was[idx as int]),
            decreases n - k,
        {
            let c = self.best_child(k);
            proof {
                let cur = self.priorities();
                lemma_path_le(idx as int, k as int);
                if on_path_up(2 * k + 1, k as int) {
                    lemma_path_le(2 * k + 1, k as int);
                }
                if on_path_up(2 * k + 2, k as int) {
                    lemma_path_le(2 * k + 2, k as int);
                }
                assert(cur[2 * k + 1] == was[2 * k + 1]);
                assert(2 * k + 2 < n ==> cur[2 * k + 2] == was[2 * k + 2]);
                assert(c == best_child_of(order, was, k as int));
                assert(cur[k as int] == was[idx as int]);
            }
            if !self.outranks(c, k) {
                proof {
                    assert forall|i: int| 0 < i < self.len() && parent(i) == k implies #[trigger]
                        rests_on_parent(self.order(), self.priorities(), i) by {
                        self.order().lemma_not_better_transitive(
                            self.priorities()[i],
                            self.priorities()[c as int],
                            self.priorities()[k as int],
                        );
                    }
                }
                break ;
            }
            proof {
                lemma_lower_step(old(self).handles(), self.handles(), idx as int, k as int, c as int);
                lemma_lower_step(was, self.priorities(), idx as int, k as int, c as int);
                assert forall|j: int| #[trigger] between(idx as int, j, c as int) && j != idx implies {
                    &&& j == best_child_of(order, was, parent(j))
                    &&& order.better(was[j], was[idx as int])
                } by {
                    if j != c {
                        assert(between(idx as int, j, k as int));
                    }
                }
                if k == idx {
                    assert(!rests_on_parent(order, was, c as int));
                }
                if heap_around(order, self.priorities(), k as int) && settled_above(
                    order,
                    self.priorities(),
                    k as int,
                ) {
                    lemma_exchange_down(order, self.priorities(), k as int, c as int);
                }
            }
            self.swap_entries(k, c);
            k = c;
        }
        proof {
            self.lemma_linked_positions();
            if heap_around(order, self.priorities(), k as int) && settled_above(
                order,
                self.priorities(),
                k as int,
            ) {
                lemma_settled_is_heap(order, self.priorities(), k as int);
            }
        }
        k
    }

    /// An empty queue that serves priorities in the given order.
    pub fn new(order: Order) -> (q: Self)
        requires
            lawful::<P>(),
        ensures
            q.wf(),
            q.order() == order,
            q@ == Map::<TQHandle<P, T>, (P, T)>::empty(),
            q.retired() == Set::<TQHandle<P, T>>::empty(),
    {
        let q = TimerQueue { v: Vec::new(), slots: Vec::new(), free: Vec::new(), order };
        proof {
            assert(q@ =~= Map::<TQHandle<P, T>, (P, T)>::empty());
            assert(q.retired() =~= Set::<TQHandle<P, T>>::empty());
            q.lemma_linked_positions();
        }
        q
    }

    /// Looks `h` up in the slot table.
    fn resolve(&self, h: &TQHandle<P, T>) -> (r: Option<usize>)
        requires
            self.linked(),
        ensures
            match r {
                Some(i) => self.position(*h) == Some(i as int) && i < self.len(),
                None => self.position(*h) is None,
            },
    {
        if h.slot < self.slots.len() {
            let slot = self.slots[h.slot];
            if slot.generation == h.generation {
                slot.pos
            } else {
                None
            }
        } else {
            None
        }
    }

    /// Appends an element with the given payload and priority to the heap and
    /// gives it a slot: a vacant one in its next generation where there is one
    /// to reuse, else a new one. The heap order around the new element is left
    /// for the caller to restore.
    fn place(&mut self, data: T, priority: P) -> (h: TQHandle<P, T>)
        requires
            old(self).wf(),
        ensures
            final(self).linked(),
            final(self).order() == old(self).order(),
            final(self).len() == old(self).len() + 1,
            !old(self)@.contains_key(h),
            !old(self).retired().contains(h),
            final(self)@ == old(self)@.insert(h, (priority, data)),
            final(self).retired() == old(self).retired(),
            final(self).handles() == old(self).handles().push(h),
            final(self).priorities() == old(self).priorities().push(priority),
            heap_around(final(self).order(), final(self).priorities(), old(self).len() as int),
            settled_below(final(self).order(), final(self).priorities(), old(self).len() as int),
    {
        let idx = self.v.len();
        let slot: usize;
        let generation: u64;
        match self.free.pop() {
            Some(s) => {
                slot = s;
                generation = self.slots[s].generation + 1;
                self.slots[s] = Slot { generation, pos: Some(idx) };
            },
            None => {
                slot = self.slots.len();
                generation = 0;
                self.slots.push(Slot { generation, pos: Some(idx) });
            },
        }
        self.v.push(TQElem::new(data, priority, idx, slot));
        let h = TQHandle::new(slot, generation);
        proof {
            assert(self.linked());
            assert(self@ =~= old(self)@.insert(h, (priority, data)));
            assert(self.retired() =~= old(self).retired());
            assert(self.handles() =~= old(self).handles().push(h));
            assert(self.priorities() =~= old(self).priorities().push(priority));
            lemma_changed_at(self.order(), old(self).priorities(), self.priorities(), idx as int);
        }
        h
    }

    /// Adds an element with the given payload and priority, and returns the
    /// handle that names it from now on.
    pub fn insert(&mut self, data: T, priority: P) -> (h: TQHandle<P, T>)
        requires
            old(self).wf(),
        ensures
            final(self).wf(),
            final(self).order() == old(self).order(),
            !old(self)@.contains_key(h),
            !old(self).retired().contains(h),
            final(self)@ == old(self)@.insert(h, (priority, data)),
            final(self)@.len() == old(self)@.len() + 1,
            final(self).retired() == old(self).retired(),
            old(self)@.len() > 0 && !old(self).order().better(
                priority,
                old(self)@[old(self).front()].0,
            ) ==> final(self).front() == old(self).front(),
            old(self)@.len() == 0 || old(self).order().better(
                priority,
                old(self)@[old(self).front()].0,
            ) ==> final(self).front() == h,
            final(self).position(h) is Some,
            sifted(
                old(self).order(),
                old(self).handles().push(h),
                old(self).priorities().push(priority),
                final(self).handles(),
                old(self)@.len() as int,
                final(self).position(h).unwrap(),
            ),
    {
        let idx = self.v.len();
        let h = self.place(data, priority);
        let ghost mid = *self;
        let r = self.heap_up(idx);
        proof {
            assert(mid.handles()[idx as int] == h);
            assert(self.handles()[r as int] == h);
            assert(self.handle_at(r as int) == h);
            assert(self.position(h) == Some(r as int));
            if r == idx {
                lemma_lowered_nowhere(mid.handles(), idx as int);
                lemma_sank_nowhere(mid.order(), mid.priorities(), idx as int);
            }
            if idx > 0 {
                let front = old(self).front();
                assert(old(self).position(front) == Some(0int));
                assert(old(self)@[front].0 == old(self).priorities()[0]);
                assert(mid.priorities().drop_last() =~= old(self).priorities());
                assert(mid.priorities()[0] == old(self).priorities()[0]);
                assert(mid.priorities().last() == priority);
                assert(mid.handles()[0] == front);
                assert(mid.handles().last() == h);
                lemma_front_after_rise(
                    mid.order(),
                    mid.handles(),
                    mid.priorities(),
                    self.handles(),
                    r as int,
                );
                assert(self.front() == self.handles()[0]);
            } else {
                assert(self.front() == self.handles()[0]);
                assert(old(self)@.len() == 0);
            }
        }
        h
    }

    /// The priority of the element that would be served next, or `None` where
    /// the queue is empty. The queue is left as it is.
    pub fn peek(&self) -> (r: Option<P>)
        requires
            self.wf(),
        ensures
            self@.len() == 0 <==> r is None,
            r matches Some(p) ==> self.is_best(self.front()) && cloned(self@[self.front()].0, p),
    {
        if self.v.len() == 0 {
            None
        } else {
            proof {
                self.lemma_front_is_best();
            }
            Some(self.v[0].priority.clone())
        }
    }

    /// Sifts the element at `idx` up and then, from where that left it, down, and
    /// returns the position at which it comes to rest. At most one of the two
    /// moves it.
    fn resettle(&mut self, idx: usize) -> (r: usize)
        requires
            old(self).linked(),
            idx < old(self).len(),
            heap_around(old(self).order(), old(self).priorities(), idx as int),
        ensures
            final(self).linked(),
            final(self).positions_consistent(),
            final(self).order() == old(self).order(),
            final(self).len() == old(self).len(),
            final(self)@ == old(self)@,
            final(self).retired() == old(self).retired(),
            r < final(self).len(),
            final(self).handles()[r as int] == old(self).handles()[idx as int],
            sifted(
                old(self).order(),
                old(self).handles(),
                old(self).priorities(),
                final(self).handles(),
                idx as int,
                r as int,
            ),
            heap_ordered(final(self).order(), final(self).priorities()),
    {
        let k = self.heap_up(idx);
        let ghost mid = *self;
        proof {
            if k != idx {
                assert(on_path_up(idx as int, idx as int));
                assert(between(k as int, idx as int, idx as int));
                lemma_unsettled_above_is_settled_below(
                    old(self).order(),
                    old(self).priorities(),
                    idx as int,
                );
                lemma_settled_is_heap(mid.order(), mid.priorities(), k as int);
            }
        }
        let r = self.heap_down(k);
        proof {
            if r == idx {
                lemma_lifted_nowhere(old(self).handles(), idx as int);
                lemma_lowered_nowhere(old(self).handles(), idx as int);
            }
        }
        r
    }

    /// `after` is `before` with the element at `idx` taken out field by field:
    /// the last element stands in its place and records its new position, the
    /// slot of the element that left is vacant, the slot of the element that
    /// moved points to `idx`, and the vacated slot may have joined the reusable
    /// ones if its generations are not used up.
    spec fn taken(before: Self, after: Self, idx: int) -> bool {
        let last = before.v@.len() - 1;
        let s = before.v@[idx].slot as int;
        let m = before.v@[last].slot as int;
        &&& after.order == before.order
        &&& after.v@.len() == last
        &&& forall|i: int|
            0 <= i < last ==> {
                let from = if i == idx {
                    last
                } else {
                    i
                };
                &&& (#[trigger] after.v@[i]).slot == before.v@[from].slot
                &&& after.v@[i].priority == before.v@[from].priority
                &&& after.v@[i].data == before.v@[from].data
                &&& after.v@[i].idx == i
            }
        &&& after.slots@.len() == before.slots@.len()
        &&& forall|t: int|
            0 <= t < before.slots@.len() ==> {
                &&& (#[trigger] after.slots@[t]).generation == before.slots@[t].generation
                &&& after.slots@[t].pos == (if t == s {
                    None
                } else if t == m {
                    Some(idx as usize)
                } else {
                    before.slots@[t].pos
                })
            }
        &&& (after.free@ == before.free@ || (before.slots@[s].generation < u64::MAX && after.free@
            == before.free@.push(s as usize)))
    }

    /// Taking an element out leaves the representation coherent.
    proof fn lemma_taken_linked(before: Self, after: Self, idx: int)
        requires
            before.linked(),
            0 <= idx < before.v@.len(),
            Self::taken(before, after, idx),
        ensures
            after.linked(),
    {
        let last = before.v@.len() - 1;
        let s = before.v@[idx].slot as int;
        assert forall|i: int| 0 <= i < after.v@.len() implies {
            &&& (#[trigger] after.v@[i]).idx == i
            &&& after.v@[i].slot < after.slots@.len()
            &&& after.slots@[after.v@[i].slot as int].pos == Some(i as usize)
        } by {
            let from = if i == idx {
                last
            } else {
                i
            };
            let e = before.v@[from];
            let t = before.slots@[e.slot as int];
        }
        assert forall|t: int| 0 <= t < after.slots@.len() implies match (#[trigger] after.slots@[t]).pos {
            Some(i) => i < after.v@.len() && after.v@[i as int].slot == t,
            None => true,
        } by {
            let was = before.slots@[t];
            if was.pos is Some {
                let e = before.v@[was.pos.unwrap() as int];
            }
        }
        assert forall|k: int| 0 <= k < after.free@.len() implies {
            &&& (#[trigger] after.free@[k]) < after.slots@.len()
            &&& after.slots@[after.free@[k] as int].pos is None
            &&& after.slots@[after.free@[k] as int].generation < u64::MAX
        } by {
            if k < before.free@.len() {
                let f = before.free@[k];
            }
        }
        assert forall|k1: int, k2: int| 0 <= k1 < k2 < after.free@.len() implies after.free@[k1]
            != after.free@[k2] by {
            let f = before.free@[k1];
        }
    }

    /// Taking an element out removes its handle from the view and retires it.
    proof fn lemma_taken_view(before: Self, after: Self, idx: int)
        requires
            before.linked(),
            0 <= idx < before.v@.len(),
            Self::taken(before, after, idx),
        ensures
            after@ == before@.remove(before.handle_at(idx)),
            after.retired() == before.retired().insert(before.handle_at(idx)),
    {
        let h = before.handle_at(idx);
        let last = before.v@.len() - 1;
        assert forall|g: TQHandle<P, T>| #[trigger]
            after.position(g) == (if g == h {
                None
            } else if before.position(g) == Some(last) {
                Some(idx)
            } else {
                before.position(g)
            }) by {
            if g.slot < before.slots@.len() {
                let was = before.slots@[g.slot as int];
                let now = after.slots@[g.slot as int];
                let e = before.v@[idx];
                let l = before.v@[last];
            }
        }
        assert(after@ =~= before@.remove(h));
        assert(after.retired() =~= before.retired().insert(h)) by {
            assert forall|g: TQHandle<P, T>| after.retired().contains(g) == before.retired().insert(
                h,
            ).contains(g) by {
                if g.slot < before.slots@.len() {
                    let was = before.slots@[g.slot as int];
                    let now = after.slots@[g.slot as int];
                    let e = before.v@[idx];
                    let l = before.v@[last];
                }
            }
        }
    }

    /// Taking an element out takes its handle and its priority out of the
    /// sequences that list them in heap order.
    proof fn lemma_taken_out(before: Self, after: Self, idx: int)
        requires
            before.linked(),
            0 <= idx < before.v@.len(),
            Self::taken(before, after, idx),
        ensures
            after.handles() == taken_out(before.handles(), idx),
            after.priorities() == taken_out(before.priorities(), idx),
    {
        assert forall|i: int| 0 <= i < after.v@.len() implies after.handles()[i] == taken_out(
            before.handles(),
            idx,
        )[i] by {
            let e = after.v@[i];
            let b = before.v@[i];
            let l = before.v@[before.v@.len() - 1];
        }
        assert(after.handles() =~= taken_out(before.handles(), idx));
        assert forall|i: int| 0 <= i < after.v@.len() implies after.priorities()[i] == taken_out(
            before.priorities(),
            idx,
        )[i] by {
            let e = after.v@[i];
        }
        assert(after.priorities() =~= taken_out(before.priorities(), idx));
    }

    /// Takes the element at `idx` out of the heap, moves the last element into
    /// its place, vacates its slot, and returns its payload. The heap order
    /// around the element that moved is left for the caller to restore.
    fn detach(&mut self, idx: usize) -> (data: T)
        requires
            old(self).wf(),
            idx < old(self).len(),
        ensures
            final(self).linked(),
            final(self).order() == old(self).order(),
            final(self).len() == old(self).len() - 1,
            final(self)@.dom().finite(),
            final(self)@.len() == final(self).len(),
            data == old(self)@[old(self).handles()[idx as int]].1,
            final(self)@ == old(self)@.remove(old(self).handles()[idx as int]),
            final(self).retired() == old(self).retired().insert(old(self).handles()[idx as int]),
            final(self).handles() == taken_out(old(self).handles(), idx as int),
            final(self).priorities() == taken_out(old(self).priorities(), idx as int),
            idx < final(self).len() ==> heap_around(
                final(self).order(),
                final(self).priorities(),
                idx as int,
            ),
            idx == final(self).len() ==> heap_ordered(final(self).order(), final(self).priorities()),
    {
        let ghost h = self.handle_at(idx as int);
        proof {
            self.lemma_linked_positions();
            assert(self.position(h) == Some(idx as int));
        }
        let last = self.v.len() - 1;
        let e = self.v.swap_remove(idx);
        let s = e.slot;
        let generation = self.slots[s].generation;
        self.slots[s].pos = None;
        if generation < u64::MAX {
            self.free.push(s);
        }
        if idx < last {
            self.v[idx].idx = idx;
            let moved = self.v[idx].slot;
            self.slots[moved].pos = Some(idx);
        }
        proof {
            assert(Self::taken(*old(self), *self, idx as int));
            Self::lemma_taken_linked(*old(self), *self, idx as int);
            Self::lemma_taken_view(*old(self), *self, idx as int);
            Self::lemma_taken_out(*old(self), *self, idx as int);
            lemma_changed_at(self.order(), old(self).priorities(), self.priorities(), idx as int);
        }
        e.data
    }

    /// Removes the element that is served next and returns its payload, or
    /// returns `None` where the queue is empty.
    pub fn pop(&mut self) -> (r: Option<T>)
        requires
            old(self).wf(),
        ensures
            final(self).wf(),
            final(self).order() == old(self).order(),
            old(self)@.len() == 0 ==> r is None && *final(self) == *old(self),
            old(self)@.len() > 0 ==> {
                &&& r == Some(old(self)@[old(self).front()].1)
                &&& old(self).is_best(old(self).front())
                &&& final(self)@ == old(self)@.remove(old(self).front())
                &&& final(self)@.len() == old(self)@.len() - 1
                &&& final(self).retired() == old(self).retired().insert(old(self).front())
            },
            old(self)@.len() == 1 ==> final(self).handles() == taken_out(old(self).handles(), 0),
            old(self)@.len() > 1 ==> {
                &&& final(self).position(old(self).handles().last()) is Some
                &&& sifted(
                    old(self).order(),
                    taken_out(old(self).handles(), 0),
                    taken_out(old(self).priorities(), 0),
                    final(self).handles(),
                    0,
                    final(self).position(old(self).handles().last()).unwrap(),
                )
            },
    {
        if self.v.is_empty() {
            None
        } else {
            proof {
                self.lemma_front_is_best();
            }
            let data = self.detach(0);
            assert(old(self).handles()[0] == old(self).front());
            if self.v.len() > 0 {
                let ghost mid = *self;
                let r = self.heap_down(0);
                proof {
                    let moved = old(self).handles().last();
                    assert(mid.handles()[0] == moved);
                    assert(self.handles()[r as int] == moved);
                    assert(self.handle_at(r as int) == moved);
                    assert(self.position(moved) == Some(r as int));
                    if r == 0 {
                        lemma_lifted_nowhere(mid.handles(), 0);
                        lemma_rose_nowhere(mid.order(), mid.priorities(), 0);
                    }
                }
            }
            proof {
                self.lemma_linked_positions();
            }
            Some(data)
        }
    }

    /// Gives the element that `h` names a new priority and returns the one it
    /// had, or returns `None` and changes nothing where `h` names no element of
    /// the queue.
    pub fn change_priority(&mut self, h: &TQHandle<P, T>, new_priority: P) -> (r: Option<P>)
        requires
            old(self).wf(),
        ensures
            final(self).wf(),
            final(self).order() == old(self).order(),
            final(self).retired() == old(self).retired(),
            !old(self)@.contains_key(*h) ==> r is None && *final(self) == *old(self),
            old(self)@.contains_key(*h) ==> {
                &&& r == Some(old(self)@[*h].0)
                &&& final(self)@ == old(self)@.insert(*h, (new_priority, old(self)@[*h].1))
                &&& final(self).position(*h) is Some
                &&& sifted(
                    old(self).order(),
                    old(self).handles(),
                    old(self).priorities().update(old(self).position(*h).unwrap(), new_priority),
                    final(self).handles(),
                    old(self).position(*h).unwrap(),
                    final(self).position(*h).unwrap(),
                )
            },
    {
        match self.resolve(h) {
            None => None,
            Some(idx) => {
                proof {
                    self.lemma_linked_positions();
                }
                let mut priority = new_priority;
                core::mem::swap(&mut self.v[idx].priority, &mut priority);
                proof {
                    assert(self.linked());
                    assert(self@ =~= old(self)@.insert(*h, (new_priority, old(self)@[*h].1)));
                    assert(self@.dom() =~= old(self)@.dom());
                    assert(self.retired() =~= old(self).retired());
                    lemma_changed_at(
                        self.order(),
                        old(self).priorities(),
                        self.priorities(),
                        idx as int,
                    );
                    assert(self.handles() =~= old(self).handles());
                    assert(self.priorities() =~= old(self).priorities().update(
                        idx as int,
                        new_priority,
                    ));
                }
                let ghost mid = *self;
                let r = self.resettle(idx);
                proof {
                    assert(mid.handles()[idx as int] == *h);
                    assert(self.handles()[r as int] == *h);
                    assert(self.handle_at(r as int) == *h);
                    assert(self.position(*h) == Some(r as int));
                    assert(old(self).position(*h) == Some(idx as int));
                }
                Some(priority)
            },
        }
    }

    /// Removes the element that `h` names and returns its payload, or returns
    /// `None` and changes nothing where `h` names no element of the queue.
    pub fn rm(&mut self, h: &TQHandle<P, T>) -> (r: Option<T>)
        requires
            old(self).wf(),
        ensures
            final(self).wf(),
            final(self).order() == old(self).order(),
            !old(self)@.contains_key(*h) ==> r is None && *final(self) == *old(self),
            old(self)@.contains_key(*h) ==> {
                &&& r == Some(old(self)@[*h].1)
                &&& final(self)@ == old(self)@.remove(*h)
                &&& final(self)@.len() == old(self)@.len() - 1
                &&& final(self).retired() == old(self).retired().insert(*h)
            },
            old(self)@.contains_key(*h) && old(self).position(*h).unwrap() == old(self)@.len() - 1
                ==> final(self).handles() == taken_out(
                old(self).handles(),
                old(self).position(*h).unwrap(),
            ),
            old(self)@.contains_key(*h) && old(self).position(*h).unwrap() < old(self)@.len() - 1 ==> {
                &&& final(self).position(old(self).handles().last()) is Some
                &&& sifted(
                    old(self).order(),
                    taken_out(old(self).handles(), old(self).position(*h).unwrap()),
                    taken_out(old(self).priorities(), old(self).position(*h).unwrap()),
                    final(self).handles(),
                    old(self).position(*h).unwrap(),
                    final(self).position(old(self).handles().last()).unwrap(),
                )
            },
    {
        match self.resolve(h) {
            None => None,
            Some(idx) => {
                proof {
                    self.lemma_linked_positions();
                }
                assert(old(self).handles()[idx as int] == *h);
                let data = self.detach(idx);
                if idx < self.v.len() {
                    let ghost mid = *self;
                    let r = self.resettle(idx);
                    proof {
                        let moved = old(self).handles().last();
                        assert(mid.handles()[idx as int] == moved);
                        assert(self.handles()[r as int] == moved);
                        assert(self.handle_at(r as int) == moved);
                        assert(self.position(moved) == Some(r as int));
                    }
                }
                proof {
                    self.lemma_linked_positions();
                }
                Some(data)
            },
        }
    }
}

impl<P: PartialOrd + Clone, T> View for TimerQueue<P, T> {
    type V = Map<TQHandle<P, T>, (P, T)>;

    /// The queue as a map from each handle that resolves to the priority and
    /// the payload of the element that it names.
    open spec fn view(&self) -> Map<TQHandle<P, T>, (P, T)> {
        Map::new(
            |h: TQHandle<P, T>| self.position(h) is Some,
            |h: TQHandle<P, T>|
                (self.priority_at(self.position(h).unwrap()), self.payload_at(self.position(h).unwrap())),
        )
    }
}

} // verus!
