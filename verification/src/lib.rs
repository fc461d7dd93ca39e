//! Data structures that are specialised to restricted access patterns.
//!
//! The one structure here is [`SegBuffer`], an unbounded first-in first-out
//! buffer made of a chain of segments whose capacities double.
pub mod seg_buffer;

pub use seg_buffer::SegBuffer;
