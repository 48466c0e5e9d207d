//! An in-memory key/value cache with the S3-FIFO admission and eviction policy:
//! a ring buffer of fixed capacity, a bounded FIFO cache built on it, and the
//! three-queue policy engine built on three such caches.

pub mod fifo_cache;
pub mod laws;
pub mod policy;
pub mod prelude;
pub mod ring_buffer;
pub mod s3fifo;
