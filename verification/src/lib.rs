//! A streaming, memory-bounded, order-preserving line-deduplication engine,
//! together with a pair of small number-theory helpers.
//!
//! The pipeline has two stages. [`ingest::ingest`] accumulates the byte chunks
//! of one uploaded payload into a [`ingest::ByteBuffer`], rejecting the stream
//! the moment its cumulative size would exceed a fixed ceiling.
//! [`dedup::deduplicate`] then decodes the buffer as UTF-8 (replacing invalid
//! sequences rather than failing), splits it into lines, trims each line,
//! drops empty lines, and returns the distinct lines in first-occurrence
//! order together with their count.

pub mod dedup;
pub mod ingest;
pub mod math;
pub mod text;
