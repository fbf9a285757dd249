//! A fixed-capacity circular buffer for handing values from a producer to a
//! consumer, with a bulk-access mode that validates a reported transfer count
//! before any cursor moves.
//!
//! A [`RingBuffer`] owns `capacity + 1` slots; one slot always stays unusable
//! so that an equal head and tail means empty and never full. [`RingBuffer::split`]
//! turns the buffer into a [`Producer`] and a [`Consumer`] that share the same
//! state and may live on different threads; the buffer is torn down when the
//! last of the two handles is gone, releasing exactly the elements that are
//! still live.

use vstd::prelude::*;

mod ring;
mod split;

pub use ring::RingBuffer;
pub use split::Consumer;
pub use split::Producer;

verus! {

/// Error of a bulk write through [`Producer::push_access`] or
/// [`RingBuffer::push_access`].
#[derive(Debug, PartialEq, Eq, Structural)]
pub enum PushAccessError {
    /// The free region was empty when the call began.
    Full,
    /// The callback reported a count larger than the offered region, or larger
    /// than the number of values it handed back; no cursor moved.
    BadLen,
}

/// Error of a bulk read through [`Consumer::pop_access`] or
/// [`RingBuffer::pop_access`].
#[derive(Debug, PartialEq, Eq, Structural)]
pub enum PopAccessError {
    /// The occupied region was empty when the call began.
    Empty,
    /// The callback reported a count larger than the offered region; no cursor
    /// moved.
    BadLen,
}

/// Error of a push: the free region cannot take the value.
#[derive(Debug, PartialEq, Eq, Structural)]
pub enum PushError {
    Full,
}

/// Error of a pop: the occupied region holds nothing.
#[derive(Debug, PartialEq, Eq, Structural)]
pub enum PopError {
    Empty,
}

} // verus!
