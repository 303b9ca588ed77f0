//! A fixed-capacity circular byte buffer with an optional chunk handler.

pub mod buffer;
pub mod laws;

pub use buffer::{Discard, Error, FnHandler, Handler, RingBuffer};
