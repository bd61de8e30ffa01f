//! The heap order on a sequence of priorities, and how one exchange repairs it.
//!
//! Position `0` is the root and position `i > 0` hangs below `parent(i)`. A
//! sequence is heap ordered when no position holds a priority that is better
//! than its parent's. The sift procedures of the queue work on sequences that
//! are heap ordered everywhere but around one position; the first lemmas here
//! say what each exchange of that position with a neighbour achieves.
//!
//! The second half describes where a sifted element goes. It travels along the
//! way between a position and the root, [`on_path_up`]; [`lifted`] and
//! [`lowered`] say what a journey up or down that way does to a sequence, and
//! [`rose_as_owed`] and [`sank_as_owed`] say how far the priorities send it.

use vstd::prelude::*;
use crate::order::{lawful, Order};

verus! {

/// The position above `i` in the tree.
pub open spec fn parent(i: int) -> int {
    (i - 1) / 2
}

/// The priority at `i` is not better than the one at `i`'s parent.
pub open spec fn rests_on_parent<P: PartialOrd>(order: Order, s: Seq<P>, i: int) -> bool {
    !order.better(s[i], s[parent(i)])
}

/// The priority at `i` is not better than the one at the parent of `i`'s parent.
pub open spec fn rests_on_grandparent<P: PartialOrd>(order: Order, s: Seq<P>, i: int) -> bool {
    !order.better(s[i], s[parent(parent(i))])
}

/// No position but the root holds a priority better than its parent's.
pub open spec fn heap_ordered<P: PartialOrd>(order: Order, s: Seq<P>) -> bool {
    forall|i: int| 0 < i < s.len() ==> #[trigger] rests_on_parent(order, s, i)
}

/// The heap order holds between all positions other than `k`, and the children
/// of `k` are not better than the parent of `k`.
pub open spec fn heap_around<P: PartialOrd>(order: Order, s: Seq<P>, k: int) -> bool {
    &&& forall|i: int|
        0 < i < s.len() && i != k && parent(i) != k ==> #[trigger] rests_on_parent(order, s, i)
    &&& forall|i: int|
        0 < i < s.len() && parent(i) == k && k > 0 ==> #[trigger] rests_on_grandparent(order, s, i)
}

/// The priority at `k` is not better than its parent's, if `k` has a parent.
pub open spec fn settled_above<P: PartialOrd>(order: Order, s: Seq<P>, k: int) -> bool {
    k > 0 ==> rests_on_parent(order, s, k)
}

/// No child of `k` holds a priority better than the one at `k`.
pub open spec fn settled_below<P: PartialOrd>(order: Order, s: Seq<P>, k: int) -> bool {
    forall|i: int| 0 < i < s.len() && parent(i) == k ==> #[trigger] rests_on_parent(order, s, i)
}

/// The sequence with the elements at `i` and `j` exchanged.
pub open spec fn exchanged<A>(s: Seq<A>, i: int, j: int) -> Seq<A> {
    s.update(i, s[j]).update(j, s[i])
}

/// A sequence that is in order around `k`, above `k` and below `k` is heap ordered.
pub proof fn lemma_settled_is_heap<P: PartialOrd>(order: Order, s: Seq<P>, k: int)
    requires
        heap_around(order, s, k),
        settled_above(order, s, k),
        settled_below(order, s, k),
        0 <= k < s.len(),
    ensures
        heap_ordered(order, s),
{
    assert forall|i: int| 0 < i < s.len() implies #[trigger] rests_on_parent(order, s, i) by {
        if i == k {
        } else if parent(i) == k {
        } else {
        }
    }
}

/// Changing a heap ordered sequence at `k` alone, be it by replacing the
/// element at `k`, by appending it, or by dropping a last element that stood at
/// or behind `k`, leaves the sequence in order around `k`.
pub proof fn lemma_changed_at<P: PartialOrd>(order: Order, before: Seq<P>, after: Seq<P>, k: int)
    requires
        lawful::<P>(),
        heap_ordered(order, before),
        0 <= k,
        forall|i: int|
            0 <= i < after.len() && i != k ==> i < before.len() && #[trigger] after[i] == before[i],
    ensures
        heap_around(order, after, k),
        k >= after.len() ==> heap_ordered(order, after),
{
    assert forall|i: int| 0 < i < after.len() && i != k && parent(i) != k implies #[trigger]
        rests_on_parent(order, after, i) by {
        assert(after[i] == before[i]);
        assert(after[parent(i)] == before[parent(i)]);
        assert(rests_on_parent(order, before, i));
    }
    assert forall|i: int| 0 < i < after.len() && parent(i) == k && k > 0 implies #[trigger]
        rests_on_grandparent(order, after, i) by {
        assert(after[i] == before[i]);
        assert(after[parent(k)] == before[parent(k)]);
        assert(rests_on_parent(order, before, i));
        assert(rests_on_parent(order, before, k));
        order.lemma_not_better_transitive(before[i], before[k], before[parent(k)]);
    }
}

/// Exchanging `k` with its parent, where `k` held the better priority, leaves
/// the sequence in order around and below the parent's position.
pub proof fn lemma_exchange_up<P: PartialOrd>(order: Order, s: Seq<P>, k: int)
    requires
        lawful::<P>(),
        0 < k < s.len(),
        heap_around(order, s, k),
        order.better(s[k], s[parent(k)]),
    ensures
        heap_around(order, exchanged(s, k, parent(k)), parent(k)),
        settled_below(order, exchanged(s, k, parent(k)), parent(k)),
{
    let p = parent(k);
    let t = exchanged(s, k, p);
    assert forall|i: int| 0 < i < t.len() && i != p && parent(i) != p implies #[trigger]
        rests_on_parent(order, t, i) by {
        if parent(i) == k {
            assert(rests_on_grandparent(order, s, i));
        } else {
            assert(rests_on_parent(order, s, i));
        }
    }
    assert forall|i: int| 0 < i < t.len() && parent(i) == p implies #[trigger] rests_on_parent(
        order,
        t,
        i,
    ) by {
        if i == k {
            order.lemma_asymmetric(s[k], s[p]);
        } else {
            assert(rests_on_parent(order, s, i));
            if order.better(s[i], s[k]) {
                order.lemma_transitive(s[i], s[k], s[p]);
            }
        }
    }
    assert forall|i: int| 0 < i < t.len() && parent(i) == p && p > 0 implies #[trigger]
        rests_on_grandparent(order, t, i) by {
        assert(rests_on_parent(order, s, p));
        if i == k {
        } else {
            assert(rests_on_parent(order, s, i));
            order.lemma_not_better_transitive(s[i], s[p], s[parent(p)]);
        }
    }
}

/// Exchanging `k` with its best child `c`, where `c` held the better priority,
/// leaves the sequence in order around and above the child's position.
pub proof fn lemma_exchange_down<P: PartialOrd>(order: Order, s: Seq<P>, k: int, c: int)
    requires
        lawful::<P>(),
        0 <= k < c < s.len(),
        parent(c) == k,
        heap_around(order, s, k),
        settled_above(order, s, k),
        order.better(s[c], s[k]),
        forall|i: int| 0 < i < s.len() && parent(i) == k ==> !order.better(#[trigger] s[i], s[c]),
    ensures
        heap_around(order, exchanged(s, k, c), c),
        settled_above(order, exchanged(s, k, c), c),
{
    let t = exchanged(s, k, c);
    assert(!order.better(t[c], t[k])) by {
        order.lemma_asymmetric(s[c], s[k]);
    }
    assert forall|i: int| 0 < i < t.len() && i != c && parent(i) != c implies #[trigger]
        rests_on_parent(order, t, i) by {
        if i == k {
            assert(rests_on_grandparent(order, s, c));
        } else if parent(i) == k {
            assert(!order.better(s[i], s[c]));
        } else {
            assert(rests_on_parent(order, s, i));
        }
    }
    assert forall|i: int| 0 < i < t.len() && parent(i) == c && c > 0 implies #[trigger]
        rests_on_grandparent(order, t, i) by {
        assert(rests_on_parent(order, s, i));
    }
}

/// In a heap ordered sequence no position holds a priority better than the root's.
pub proof fn lemma_root_is_best<P: PartialOrd>(order: Order, s: Seq<P>, i: int)
    requires
        lawful::<P>(),
        heap_ordered(order, s),
        0 <= i < s.len(),
    ensures
        !order.better(s[i], s[0]),
    decreases i,
{
    if i == 0 {
        order.lemma_irreflexive(s[0]);
    } else {
        assert(rests_on_parent(order, s, i));
        lemma_root_is_best(order, s, parent(i));
        order.lemma_not_better_transitive(s[i], s[parent(i)], s[0]);
    }
}

/// `a` is `i` or lies above `i` on the way from `i` to the root.
pub open spec fn on_path_up(a: int, i: int) -> bool
    decreases i,
{
    a == i || (i > 0 && on_path_up(a, parent(i)))
}

/// `j` lies on the way from `low` up to `high`, both ends included.
pub open spec fn between(high: int, j: int, low: int) -> bool {
    on_path_up(high, j) && on_path_up(j, low)
}

/// `after` is `before` with the element at `i` moved up to `r`: `r` is `i` or
/// lies above `i`, each element on the way from `r` to just above `i` has moved
/// one step down, and every position off that way holds what it held.
pub open spec fn lifted<A>(before: Seq<A>, after: Seq<A>, i: int, r: int) -> bool {
    &&& after.len() == before.len()
    &&& 0 <= r
    &&& i < before.len()
    &&& on_path_up(r, i)
    &&& after[r] == before[i]
    &&& forall|j: int| #[trigger] between(r, j, i) && j != r ==> after[j] == before[parent(j)]
    &&& forall|j: int|
        #![trigger after[j]]
        #![trigger between(r, j, i)]
        0 <= j < before.len() && !between(r, j, i) ==> after[j] == before[j]
}

/// `after` is `before` with the element at `i` moved down to `r`: `r` is `i` or
/// lies below `i`, each element on the way from just below `i` to `r` has moved
/// one step up, and every position off that way holds what it held.
pub open spec fn lowered<A>(before: Seq<A>, after: Seq<A>, i: int, r: int) -> bool {
    &&& after.len() == before.len()
    &&& 0 <= i
    &&& r < before.len()
    &&& on_path_up(i, r)
    &&& after[r] == before[i]
    &&& forall|j: int| #[trigger] between(i, j, r) && j != i ==> after[parent(j)] == before[j]
    &&& forall|j: int|
        #![trigger after[j]]
        #![trigger between(i, j, r)]
        0 <= j < before.len() && !between(i, j, r) ==> after[j] == before[j]
}

/// The priority at `i` was owed its way up to `r`: it is better than every
/// priority that stood on the way from `r` to just above `i`, and it is not
/// better than the one above `r`, if there is one.
pub open spec fn rose_as_owed<P: PartialOrd>(order: Order, before: Seq<P>, i: int, r: int) -> bool {
    &&& forall|j: int|
        #[trigger] between(r, j, i) && j != r ==> order.better(before[i], before[parent(j)])
    &&& r > 0 ==> !order.better(before[i], before[parent(r)])
}

/// The child of `k` that an element at `k` is exchanged with when it has to go
/// down: the right child where that is better than the left one, else the left.
pub open spec fn best_child_of<P: PartialOrd>(order: Order, s: Seq<P>, k: int) -> int {
    if 2 * k + 2 < s.len() && order.better(s[2 * k + 2], s[2 * k + 1]) {
        2 * k + 2
    } else {
        2 * k + 1
    }
}

/// The priority at `i` was owed its way down to `r`: every position on the way
/// from just below `i` to `r` was the best child of its parent and held a
/// priority better than the one at `i`, and the best child of `r`, if `r` has a
/// child, is not better than the priority at `i`.
pub open spec fn sank_as_owed<P: PartialOrd>(order: Order, before: Seq<P>, i: int, r: int) -> bool {
    &&& forall|j: int|
        #[trigger] between(i, j, r) && j != i ==> {
            &&& j == best_child_of(order, before, parent(j))
            &&& order.better(before[j], before[i])
        }
    &&& 2 * r + 1 < before.len() ==> !order.better(
        before[best_child_of(order, before, r)],
        before[i],
    )
}

/// A position above another on a way to the root has the smaller index.
pub proof fn lemma_path_le(a: int, i: int)
    requires
        on_path_up(a, i),
    ensures
        a <= i,
        i >= 0 ==> a >= 0,
    decreases i,
{
    if a != i {
        lemma_path_le(a, parent(i));
    }
}

/// The way from `i` to the root passes the parent of each position on it.
pub proof fn lemma_path_parent(a: int, i: int)
    requires
        on_path_up(a, i),
        a > 0,
    ensures
        on_path_up(parent(a), i),
    decreases i,
{
    if a == i {
        assert(on_path_up(parent(i), parent(i)));
    } else {
        lemma_path_parent(a, parent(i));
    }
}

/// Of two positions on the way from `i` to the root, one lies on the way from
/// the other to the root.
pub proof fn lemma_path_linear(a: int, b: int, i: int)
    requires
        on_path_up(a, i),
        on_path_up(b, i),
    ensures
        on_path_up(a, b) || on_path_up(b, a),
    decreases i,
{
    if a != i && b != i {
        lemma_path_linear(a, b, parent(i));
    }
}

/// The way from a position to itself holds that position alone.
pub proof fn lemma_between_single(a: int, j: int)
    requires
        between(a, j, a),
    ensures
        j == a,
{
    lemma_path_le(a, j);
    lemma_path_le(j, a);
}

/// What lies on the way from `i` up to the parent of `k`, where `k` is on the
/// way from `i` to the root, is that parent or lies on the way from `i` up to `k`.
pub proof fn lemma_path_grows_up(k: int, j: int, i: int)
    requires
        k > 0,
        on_path_up(k, i),
        between(parent(k), j, i),
        j != parent(k),
    ensures
        between(k, j, i),
{
    lemma_path_linear(j, k, i);
    if !on_path_up(k, j) {
        assert(on_path_up(j, parent(k)));
        lemma_path_le(j, parent(k));
        lemma_path_le(parent(k), j);
    }
}

/// Where `r` lies strictly above `i` on the way to the root, some position on
/// the way from `i` up to `r` hangs directly below `r`.
pub proof fn lemma_step_below(r: int, i: int) -> (j: int)
    requires
        on_path_up(r, i),
        r != i,
    ensures
        between(r, j, i),
        j > 0,
        j != r,
        parent(j) == r,
    decreases i,
{
    if parent(i) == r {
        assert(on_path_up(r, parent(i)));
        i
    } else {
        lemma_step_below(r, parent(i))
    }
}

/// An element that has not moved has been lifted to where it stood.
pub proof fn lemma_lifted_nowhere<A>(s: Seq<A>, i: int)
    requires
        0 <= i < s.len(),
    ensures
        lifted(s, s, i, i),
{
    assert forall|j: int| #[trigger] between(i, j, i) && j != i implies s[j] == s[parent(j)] by {
        lemma_between_single(i, j);
    }
}

/// An element that has not moved has been lowered to where it stood.
pub proof fn lemma_lowered_nowhere<A>(s: Seq<A>, i: int)
    requires
        0 <= i < s.len(),
    ensures
        lowered(s, s, i, i),
{
    assert forall|j: int| #[trigger] between(i, j, i) && j != i implies s[parent(j)] == s[j] by {
        lemma_between_single(i, j);
    }
}

/// One more exchange with the parent lifts the element one step further.
pub proof fn lemma_lift_step<A>(before: Seq<A>, cur: Seq<A>, i: int, k: int)
    requires
        lifted(before, cur, i, k),
        k > 0,
    ensures
        lifted(before, exchanged(cur, k, parent(k)), i, parent(k)),
        cur[parent(k)] == before[parent(k)],
{
    let p = parent(k);
    let t = exchanged(cur, k, p);
    lemma_path_parent(k, i);
    lemma_path_le(k, i);
    if on_path_up(k, p) {
        lemma_path_le(k, p);
    }
    assert(!between(k, p, i));
    assert(cur[p] == before[p]);
    assert forall|j: int| #[trigger] between(p, j, i) && j != p implies t[j] == before[parent(
        j,
    )] by {
        lemma_path_le(p, j);
        lemma_path_le(j, i);
        lemma_path_grows_up(k, j, i);
    }
    assert forall|j: int| 0 <= j < before.len() && !between(p, j, i) implies t[j] == before[j] by {
        assert(on_path_up(p, p));
        assert(on_path_up(p, k));
        if on_path_up(k, j) {
            lemma_path_parent(k, j);
        }
        assert(!between(k, j, i));
    }
}

/// One more exchange with a child lowers the element one step further.
pub proof fn lemma_lower_step<A>(before: Seq<A>, cur: Seq<A>, i: int, k: int, c: int)
    requires
        lowered(before, cur, i, k),
        0 < c < before.len(),
        parent(c) == k,
    ensures
        lowered(before, exchanged(cur, k, c), i, c),
        cur[c] == before[c],
{
    let t = exchanged(cur, k, c);
    lemma_path_le(i, k);
    if on_path_up(c, k) {
        lemma_path_le(c, k);
    }
    assert(!between(i, c, k));
    assert(cur[c] == before[c]);
    assert(on_path_up(k, c));
    assert(on_path_up(i, c));
    assert forall|j: int| #[trigger] between(i, j, c) && j != i implies t[parent(j)] == before[j] by {
        if j != c {
            assert(between(i, j, k));
            lemma_path_le(j, k);
            lemma_path_le(i, j);
        }
    }
    assert forall|j: int| 0 <= j < before.len() && !between(i, j, c) implies t[j] == before[j] by {
        if between(i, j, k) {
            assert(on_path_up(j, c));
        }
    }
}

/// The sequence with the element at `i` taken out and the last element put in
/// its place.
pub open spec fn taken_out<A>(s: Seq<A>, i: int) -> Seq<A> {
    s.update(i, s.last()).drop_last()
}

/// `after` holds the elements `items` with the one at `i` sifted to `r` by the
/// priorities `prios`: where `r` is not below `i` the element rose to `r` as it
/// was owed, and where `r` is not above `i` it sank to `r` as it was owed. For
/// `r == i` both say that nothing moved and that neither direction was owed.
pub open spec fn sifted<A, P: PartialOrd>(
    order: Order,
    items: Seq<A>,
    prios: Seq<P>,
    after: Seq<A>,
    i: int,
    r: int,
) -> bool {
    &&& r <= i ==> lifted(items, after, i, r) && rose_as_owed(order, prios, i, r)
    &&& r >= i ==> lowered(items, after, i, r) && sank_as_owed(order, prios, i, r)
}

/// Where the priority at `k` is better than its parent's, in a sequence that is
/// in order around `k`, no child of `k` is better than the priority at `k`.
pub proof fn lemma_unsettled_above_is_settled_below<P: PartialOrd>(order: Order, s: Seq<P>, k: int)
    requires
        lawful::<P>(),
        heap_around(order, s, k),
        0 < k < s.len(),
        !settled_above(order, s, k),
    ensures
        settled_below(order, s, k),
{
    assert forall|i: int| 0 < i < s.len() && parent(i) == k implies #[trigger] rests_on_parent(
        order,
        s,
        i,
    ) by {
        assert(rests_on_grandparent(order, s, i));
        if order.better(s[i], s[k]) {
            order.lemma_transitive(s[i], s[k], s[parent(k)]);
        }
    }
}

/// An element at the root, or one that is not better than its parent, is owed
/// no way up.
pub proof fn lemma_rose_nowhere<P: PartialOrd>(order: Order, prios: Seq<P>, i: int)
    requires
        i > 0 ==> !order.better(prios[i], prios[parent(i)]),
    ensures
        rose_as_owed(order, prios, i, i),
{
    assert forall|j: int| #[trigger] between(i, j, i) && j != i implies order.better(
        prios[i],
        prios[parent(j)],
    ) by {
        lemma_between_single(i, j);
    }
}

/// An element without a child, or one whose best child is not better than it,
/// is owed no way down.
pub proof fn lemma_sank_nowhere<P: PartialOrd>(order: Order, prios: Seq<P>, i: int)
    requires
        2 * i + 1 < prios.len() ==> !order.better(prios[best_child_of(order, prios, i)], prios[i]),
    ensures
        sank_as_owed(order, prios, i, i),
{
    assert forall|j: int| #[trigger] between(i, j, i) && j != i implies {
        &&& j == best_child_of(order, prios, parent(j))
        &&& order.better(prios[j], prios[i])
    } by {
        lemma_between_single(i, j);
    }
}

/// Where an element appended to a heap ordered sequence has risen as it was
/// owed, it stands at the root if it is better than the former root, and the
/// former root still stands there if it is not.
pub proof fn lemma_front_after_rise<A, P: PartialOrd>(
    order: Order,
    items: Seq<A>,
    prios: Seq<P>,
    after: Seq<A>,
    r: int,
)
    requires
        lawful::<P>(),
        items.len() == prios.len(),
        prios.len() > 1,
        heap_ordered(order, prios.drop_last()),
        lifted(items, after, prios.len() - 1, r),
        rose_as_owed(order, prios, prios.len() - 1, r),
    ensures
        order.better(prios.last(), prios[0]) ==> r == 0 && after[0] == items.last(),
        !order.better(prios.last(), prios[0]) ==> r != 0 && after[0] == items[0],
{
    let n = prios.len() - 1;
    if order.better(prios[n], prios[0]) {
        if r != 0 {
            lemma_path_le(r, n);
            lemma_root_is_best(order, prios.drop_last(), parent(r));
            order.lemma_not_better_transitive(prios[n], prios[parent(r)], prios[0]);
        }
    } else {
        if r == 0 {
            let j = lemma_step_below(0, n);
        }
        assert(!between(r, 0, n));
    }
}

} // verus!
