use vstd::prelude::*;

use crate::error::MetadataError;

verus! {

/// The closed set of compression algorithms a container superblock may
/// declare for its metadata blocks. The selector is dispatched through
/// [`decompress`]; only zlib-framed deflate (the gzip-class default of the
/// container format) is wired to a codec here, every other selector makes
/// [`decompress`] fail with a decode error.
#[derive(Clone, Copy, Debug, PartialEq, Eq, Structural)]
pub enum Algorithm {
    Gzip,
    Lzma,
    Lzo,
    Xz,
    Lz4,
    Zstd,
}

pub uninterp spec fn zlib_inflate(input: Seq<u8>, limit: nat) -> Option<Seq<u8>>;

/// Relies on miniz_oxide::inflate::decompress_to_vec_zlib_with_limit: the
/// result is a function of the input bytes and the size limit alone, and an
/// output that would grow past `limit` bytes is reported as an error, never
/// returned truncated.
#[verifier::external_body]
fn zlib_decompress(input: &[u8], limit: usize) -> (r: Option<Vec<u8>>)
    ensures
        match r {
            Some(v) => zlib_inflate(input@, limit as nat) == Some(v@) && v@.len() <= limit,
            None => zlib_inflate(input@, limit as nat) is None,
        },
{
    miniz_oxide::inflate::decompress_to_vec_zlib_with_limit(input, limit).ok()
}

/// What decompressing `input` with `algorithm` into a buffer of `limit`
/// bytes yields; `None` where the algorithm rejects the input, the output
/// would not fit, or no codec serves the selector.
pub open spec fn spec_decompress(input: Seq<u8>, limit: nat, algorithm: Algorithm) -> Option<Seq<u8>> {
    match algorithm {
        Algorithm::Gzip => zlib_inflate(input, limit),
        _ => None,
    }
}

/// Decompresses a block payload into a fresh buffer of at most `limit`
/// bytes, dispatching on the algorithm selector.
pub fn decompress(input: &Vec<u8>, limit: usize, algorithm: Algorithm) -> (r: Result<Vec<u8>, MetadataError>)
    ensures
        match spec_decompress(input@, limit as nat, algorithm) {
            Some(s) => r matches Ok(v) && v@ == s && s.len() <= limit,
            None => r == Err::<Vec<u8>, MetadataError>(
                (MetadataError::Decode { algorithm, input_len: input@.len() as usize }),
            ),
        },
{
    let fail = MetadataError::Decode { algorithm, input_len: input.len() };
    match algorithm {
        Algorithm::Gzip => match zlib_decompress(input.as_slice(), limit) {
            Some(out) => Ok(out),
            None => Err(fail),
        },
        _ => Err(fail),
    }
}

} // verus!
