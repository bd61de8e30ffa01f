//! Laws that relate several operations of the queue.
//!
//! Each law is stated over the same views and spec functions as the contracts of
//! the operations, so that it applies to whatever those operations return.

use vstd::prelude::*;
use crate::handle::TQHandle;
use crate::queue::TimerQueue;

verus! {

/// `post` is what a `pop` leaves of the non-empty queue `pre`, and `h` names
/// the element that the `pop` took out.
pub open spec fn popped<P: PartialOrd + Clone, T>(
    pre: TimerQueue<P, T>,
    post: TimerQueue<P, T>,
    h: TQHandle<P, T>,
) -> bool {
    &&& post.order() == pre.order()
    &&& pre.is_best(h)
    &&& post@ == pre@.remove(h)
}

/// `states` is a run of pops from `states[0]`, and `served[k]` names the element
/// that the pop from `states[k]` took out.
pub open spec fn drained<P: PartialOrd + Clone, T>(
    states: Seq<TimerQueue<P, T>>,
    served: Seq<TQHandle<P, T>>,
) -> bool {
    &&& states.len() == served.len() + 1
    &&& forall|k: int|
        0 <= k < served.len() ==> popped(#[trigger] states[k], states[k + 1], served[k])
}

/// During a run of pops the queue only loses elements: what a later state
/// holds, every earlier state holds with the same priority and payload.
pub proof fn lemma_drain_shrinks<P: PartialOrd + Clone, T>(
    states: Seq<TimerQueue<P, T>>,
    served: Seq<TQHandle<P, T>>,
    i: int,
    j: int,
    h: TQHandle<P, T>,
)
    requires
        drained(states, served),
        0 <= i <= j < states.len(),
        states[j]@.contains_key(h),
    ensures
        states[i]@.contains_key(h),
        states[i]@[h] == states[j]@[h],
        forall|k: int| i <= k < j ==> served[k] != h,
    decreases j - i,
{
    if i < j {
        assert(popped(states[j - 1], states[j], served[j - 1]));
        lemma_drain_shrinks(states, served, i, j - 1, h);
    }
}

/// Sortedness: in a run of pops, an element that is served later is never
/// better than one that was served earlier, and no element is served twice.
/// The priorities are those that the elements had when the run began.
pub proof fn lemma_drain_is_sorted<P: PartialOrd + Clone, T>(
    states: Seq<TimerQueue<P, T>>,
    served: Seq<TQHandle<P, T>>,
    i: int,
    j: int,
)
    requires
        drained(states, served),
        0 <= i < j < served.len(),
    ensures
        states[0]@.contains_key(served[i]),
        states[0]@.contains_key(served[j]),
        served[i] != served[j],
        !states[0].order().better(states[0]@[served[j]].0, states[0]@[served[i]].0),
{
    assert(popped(states[i], states[i + 1], served[i]));
    assert(popped(states[j], states[j + 1], served[j]));
    lemma_drain_shrinks(states, served, i, j, served[j]);
    lemma_drain_shrinks(states, served, 0, i, served[i]);
    lemma_drain_shrinks(states, served, 0, i, served[j]);
    lemma_drain_order_is_kept(states, served, i);
}

/// A run of pops does not change the order that the queue serves in.
pub proof fn lemma_drain_order_is_kept<P: PartialOrd + Clone, T>(
    states: Seq<TimerQueue<P, T>>,
    served: Seq<TQHandle<P, T>>,
    i: int,
)
    requires
        drained(states, served),
        0 <= i < states.len(),
    ensures
        states[i].order() == states[0].order(),
    decreases i,
{
    if i > 0 {
        assert(popped(states[i - 1], states[i], served[i - 1]));
        lemma_drain_order_is_kept(states, served, i - 1);
    }
}

/// A run of pops that ends with an empty queue has served every element that
/// the queue held when the run began.
pub proof fn lemma_drain_serves_all<P: PartialOrd + Clone, T>(
    states: Seq<TimerQueue<P, T>>,
    served: Seq<TQHandle<P, T>>,
    h: TQHandle<P, T>,
)
    requires
        drained(states, served),
        states.last()@ == Map::<TQHandle<P, T>, (P, T)>::empty(),
        states[0]@.contains_key(h),
    ensures
        exists|k: int| 0 <= k < served.len() && served[k] == h,
{
    lemma_served_or_kept(states, served, states.len() - 1, h);
}

/// An element that the queue held when a run of pops began is, at each state of
/// the run, either still in the queue or already served.
pub proof fn lemma_served_or_kept<P: PartialOrd + Clone, T>(
    states: Seq<TimerQueue<P, T>>,
    served: Seq<TQHandle<P, T>>,
    i: int,
    h: TQHandle<P, T>,
)
    requires
        drained(states, served),
        0 <= i < states.len(),
        states[0]@.contains_key(h),
    ensures
        states[i]@.contains_key(h) || exists|k: int| 0 <= k < i && served[k] == h,
    decreases i,
{
    if i > 0 {
        lemma_served_or_kept(states, served, i - 1, h);
        assert(popped(states[i - 1], states[i], served[i - 1]));
        if states[i - 1]@.contains_key(h) && !states[i]@.contains_key(h) {
            assert(served[i - 1] == h);
        }
    }
}

/// Staleness is for good: a handle that this queue handed out and that names
/// no element of it, names no element of any later state of the queue. A state
/// is later when every handle retired before is still retired, as each
/// operation of the queue ensures.
pub proof fn lemma_stale_stays_stale<P: PartialOrd + Clone, T>(
    earlier: TimerQueue<P, T>,
    later: TimerQueue<P, T>,
    h: TQHandle<P, T>,
)
    requires
        earlier.retired().subset_of(later.retired()),
        earlier.issued(h),
        !earlier@.contains_key(h),
    ensures
        !later@.contains_key(h),
        later.issued(h),
{
    later.lemma_retired_is_stale(h);
}

/// Round trip: after an insertion into an empty queue the front handle is the
/// one that the insertion returned, so the next `pop` returns the payload that
/// was inserted.
pub proof fn lemma_round_trip<P: PartialOrd + Clone, T>(
    empty: TimerQueue<P, T>,
    filled: TimerQueue<P, T>,
    h: TQHandle<P, T>,
    priority: P,
    payload: T,
)
    requires
        empty@ == Map::<TQHandle<P, T>, (P, T)>::empty(),
        filled.wf(),
        filled@ == empty@.insert(h, (priority, payload)),
    ensures
        filled@.len() == 1,
        filled.front() == h,
        filled@[filled.front()] == (priority, payload),
{
    assert(filled@.dom() =~= set![h]);
    assert(filled.len() == 1);
    assert(filled.position(filled.handle_at(0)) == Some(0int));
    assert(filled@.contains_key(filled.front()));
}

} // verus!
