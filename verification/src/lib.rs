//! Bulk ingestion of length-prefixed binary records into a fixed-width
//! numeric matrix.
//!
//! Records are opaque byte buffers, each expected to hold exactly `width`
//! little-endian 32-bit values. Two paths feed the same validated copy core:
//! an in-memory sequence of buffers, and a byte stream of length-prefixed
//! binary blobs. Matrix elements are handled as raw 32-bit patterns; callers
//! that work in floating point reinterpret the bits at the boundary.

pub mod framing;
pub mod ingest;
pub mod matrix;
pub mod record;
