//! A fixed-capacity ring buffer with verified index arithmetic.
//!
//! [`RingBuffer`] keeps at most `capacity` elements in one block of storage that
//! is sized at construction and never grows. Two cursors walk the block and wrap
//! at its end; a flag tells a full ring from an empty one when the cursors meet.
//! Every operation is specified against [`Layout`], the mathematical picture of
//! the block, the cursors and the flag, and against [`Layout::items`], the held
//! elements from oldest to newest.

pub mod layout;
pub mod buffer;
pub mod iter;
pub mod laws;

pub use buffer::{RingBuffer, RingBufferError};
pub use iter::{IntoIter, Iter};
pub use layout::Layout;
