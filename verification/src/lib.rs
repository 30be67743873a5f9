//! A bounded ring buffer for any number of readers and writers.

pub mod batches;
pub mod error;
pub mod hand;
pub mod laws;
pub mod layout;
pub mod memory;
pub mod ops;
pub mod order;
pub mod outside;
pub mod port;
pub mod progress;
pub mod protocol;
pub mod quiet;
pub mod ring;
pub mod shared;
pub mod sources;

pub use crate::error::RingBufferError;
pub use crate::layout::Layout;
pub use crate::ops::{Access, ReadOp, Word, WriteOp};
pub use crate::ring::RingBuffer;
pub use crate::shared::{Hand, SharedRing};
