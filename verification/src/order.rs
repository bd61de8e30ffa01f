//! The order in which priorities are served.
//!
//! A queue compares priorities through their `PartialOrd` impl and an [`Order`] that
//! says which end of that order is served first. All reasoning about the queue goes
//! through one strict relation, [`Order::better`], and the three laws collected in
//! [`lawful`].

use vstd::prelude::*;
use vstd::std_specs::cmp::PartialOrdSpec;
use core::cmp::Ordering;

verus! {

/// Which end of the priority order a queue serves first.
#[derive(Clone, Copy, Debug, PartialEq, Eq)]
pub enum Order {
    /// The smallest priority is the most urgent.
    SmallestFirst,
    /// The largest priority is the most urgent.
    LargestFirst,
}

/// `a` is strictly below `b` in the order that `PartialOrd` gives to `P`.
pub open spec fn below<P: PartialOrd>(a: P, b: P) -> bool {
    a.partial_cmp_spec(&b) == Some(Ordering::Less)
}

/// The comparison of `P` behaves as specified and `below` is a strict weak order:
/// nothing is below itself, `below` is transitive, and so is its negation.
///
/// Every integer type meets this. A type with incomparable values that are not
/// interchangeable (a float with NaN, sets under inclusion) does not.
pub open spec fn lawful<P: PartialOrd>() -> bool {
    &&& P::obeys_partial_cmp_spec()
    &&& forall|a: P| !#[trigger] below(a, a)
    &&& forall|a: P, b: P, c: P| #[trigger] below(a, b) && #[trigger] below(b, c) ==> below(a, c)
    &&& forall|a: P, b: P, c: P| below(a, c) ==> #[trigger] below(a, b) || #[trigger] below(b, c)
}

impl Order {
    /// `a` is served strictly before `b`.
    pub open spec fn better<P: PartialOrd>(self, a: P, b: P) -> bool {
        match self {
            Order::SmallestFirst => below(a, b),
            Order::LargestFirst => below(b, a),
        }
    }

    /// Decides [`Order::better`] with one comparison of `P`.
    pub fn is_better<P: PartialOrd>(&self, a: &P, b: &P) -> (r: bool)
        requires
            P::obeys_partial_cmp_spec(),
        ensures
            r == self.better(*a, *b),
    {
        match self {
            Order::SmallestFirst => *a < *b,
            Order::LargestFirst => *b < *a,
        }
    }

    /// Nothing is better than itself.
    pub proof fn lemma_irreflexive<P: PartialOrd>(self, a: P)
        requires
            lawful::<P>(),
        ensures
            !self.better(a, a),
    {
    }

    /// Of two priorities at most one is better than the other.
    pub proof fn lemma_asymmetric<P: PartialOrd>(self, a: P, b: P)
        requires
            lawful::<P>(),
            self.better(a, b),
        ensures
            !self.better(b, a),
    {
        if below(b, a) && below(a, b) {
            assert(below(a, a));
        }
    }

    /// `better` is transitive.
    pub proof fn lemma_transitive<P: PartialOrd>(self, a: P, b: P, c: P)
        requires
            lawful::<P>(),
            self.better(a, b),
            self.better(b, c),
        ensures
            self.better(a, c),
    {
    }

    /// "Not better than" is transitive.
    pub proof fn lemma_not_better_transitive<P: PartialOrd>(self, a: P, b: P, c: P)
        requires
            lawful::<P>(),
            !self.better(a, b),
            !self.better(b, c),
        ensures
            !self.better(a, c),
    {
    }
}

} // verus!
