//! An indexed priority queue with stable handles.
//!
//! [`TimerQueue`] keeps payloads in a binary heap ordered by a caller-chosen
//! priority. Every insertion hands out a [`TQHandle`], a small copyable name for
//! the queued element, through which the element can later be re-prioritized or
//! removed from the middle of the heap. A handle never keeps its element alive:
//! once the element has left the queue the handle simply stops resolving.

pub mod handle;
pub mod laws;
pub mod order;
pub mod queue;
pub mod shape;

pub use handle::TQHandle;
pub use order::Order;
pub use queue::TimerQueue;
