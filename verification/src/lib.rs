//! Reconstruction of logical byte streams from chained, independently
//! compressed metadata blocks of a read-only filesystem image container.
//!
//! A container stores structural data as a chain of framed blocks, each at
//! most 8192 bytes once decoded. [`metadata::read_metadata`] walks such a
//! chain inside an in-memory image and concatenates the decoded payloads;
//! [`metadata::read_meta_block`] decodes a single framed block; and
//! [`metadata::get_metadata_size`] parses the two-byte block header.

pub mod compress;
pub mod error;
pub mod metadata;
