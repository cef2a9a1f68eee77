use vstd::prelude::*;

use crate::compress::Algorithm;

verus! {

/// Failure of a metadata read. Either kind is fatal for the call that raised
/// it: no partial result is ever returned beside one.
#[derive(Clone, Copy, Debug, PartialEq, Eq, Structural)]
pub enum MetadataError {
    /// Reading `len` bytes at byte position `offset` runs past the end of
    /// the container image.
    Io { offset: u64, len: usize },
    /// A block payload of `input_len` bytes could not be decompressed with
    /// `algorithm`, or its output would not fit the block capacity.
    Decode { algorithm: Algorithm, input_len: usize },
}

} // verus!
