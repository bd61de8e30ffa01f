//! Handles: the names by which callers refer to queued elements.

use vstd::prelude::*;
use core::marker::PhantomData;

verus! {

/// A non-owning name for one element of a [`crate::TimerQueue`].
///
/// A handle holds the slot that the element was given on insertion and the
/// generation that the slot had at that moment. It holds neither the element
/// nor its position in the heap, so it can be copied and kept freely, and it
/// cannot keep the element alive: after the element has left the queue the
/// handle no longer resolves.
pub struct TQHandle<P, T> {
    pub(crate) slot: usize,
    pub(crate) generation: u64,
    pub(crate) marker: PhantomData<(P, T)>,
}

impl<P, T> TQHandle<P, T> {
    /// The handle for the given generation of the given slot.
    pub(crate) fn new(slot: usize, generation: u64) -> (h: Self)
        ensures
            h.slot == slot,
            h.generation == generation,
    {
        TQHandle { slot, generation, marker: PhantomData }
    }
}

impl<P, T> Clone for TQHandle<P, T> {
    fn clone(&self) -> (r: Self)
        ensures
            r == *self,
    {
        TQHandle { slot: self.slot, generation: self.generation, marker: PhantomData }
    }
}

impl<P, T> Copy for TQHandle<P, T> {

}

} // verus!
