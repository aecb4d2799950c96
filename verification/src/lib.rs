//! Streaming construction of log-ingestion request bodies.
//!
//! The crate turns a sequence of structured log records into the exact bytes
//! of a JSON request payload without materializing the payload as one
//! contiguous buffer: a pooled, segmented byte buffer grows by acquiring
//! reusable fixed-size chunks under a configurable backpressure ceiling, and a
//! streaming encoder writes each record field by field directly into that
//! buffer, escaping strings as it goes.

pub mod body;
pub mod escape;
pub mod params;
pub mod request;
pub mod response;
pub mod segment_pool;
pub mod segmented_buffer;
pub mod serialize;
