//! The three containers of this crate under one path.

pub use crate::fifo_cache::FIFOCache;
pub use crate::ring_buffer::RingBuffer;
pub use crate::s3fifo::S3FIFO;
