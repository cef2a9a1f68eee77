use vstd::prelude::*;
use vstd::slice::{slice_subrange, slice_to_vec};

use byteorder::ByteOrder;

use crate::compress::{decompress, spec_decompress, Algorithm};
use crate::error::MetadataError;

verus! {

/// Capacity of a decoded metadata block: no well-formed block ever decodes
/// to more than this many bytes.
pub const METADATA_BLOCK_SIZE: usize = 8192;

/// The 16-bit value stored little-endian in the two header bytes at `loc`.
pub open spec fn spec_header(img: Seq<u8>, loc: int) -> u16
    recommends
        0 <= loc,
        loc + 2 <= img.len(),
{
    (img[loc] as int + 256 * (img[loc + 1] as int)) as u16
}

/// On-disk payload length encoded in a header value: its low 15 bits.
pub open spec fn spec_payload_size(header: u16) -> u16 {
    header & 0x7fff
}

/// The payload length encoded in a header never exceeds its 15-bit range.
pub proof fn lemma_payload_size_bound(header: u16)
    ensures
        spec_payload_size(header) <= 0x7fff,
{
    assert(header & 0x7fff <= 0x7fff) by (bit_vector);
}

/// Whether a header value marks its payload as compressed: bit 15 clear.
pub open spec fn spec_is_compressed(header: u16) -> bool {
    header & 0x8000 == 0
}

/// Both the two header bytes and the payload of the block at `loc` lie
/// inside the image.
pub open spec fn spec_block_in_range(img: Seq<u8>, loc: int) -> bool {
    &&& 0 <= loc
    &&& loc + 2 <= img.len()
    &&& loc + 2 + spec_payload_size(spec_header(img, loc)) <= img.len()
}

/// The raw on-disk payload bytes of the block at `loc`.
pub open spec fn spec_raw_payload(img: Seq<u8>, loc: int) -> Seq<u8>
    recommends
        spec_block_in_range(img, loc),
{
    img.subrange(loc + 2, loc + 2 + spec_payload_size(spec_header(img, loc)))
}

/// Bytes the block at `loc` occupies on disk: its payload plus the two
/// header bytes.
pub open spec fn spec_consumed(img: Seq<u8>, loc: int) -> u16
    recommends
        0 <= loc,
        loc + 2 <= img.len(),
{
    (spec_payload_size(spec_header(img, loc)) + 2) as u16
}

/// The decoded payload of the block at `loc`: its raw bytes where the
/// header marks them uncompressed, otherwise their decompression; `None`
/// where the block runs past the image or decompression fails.
pub open spec fn spec_block_payload(img: Seq<u8>, loc: int, algorithm: Algorithm) -> Option<Seq<u8>> {
    if !spec_block_in_range(img, loc) {
        None
    } else if !spec_is_compressed(spec_header(img, loc)) {
        Some(spec_raw_payload(img, loc))
    } else {
        spec_decompress(spec_raw_payload(img, loc), METADATA_BLOCK_SIZE as nat, algorithm)
    }
}

/// The error raised by failing to decode the block at `loc`: an I/O error
/// naming the offset and length of the read that runs past the image, or a
/// decode error naming the algorithm and the payload length.
pub open spec fn spec_block_err(img: Seq<u8>, loc: int, algorithm: Algorithm) -> MetadataError
    recommends
        spec_block_payload(img, loc, algorithm) is None,
{
    if loc + 2 > img.len() {
        MetadataError::Io { offset: loc as u64, len: 2 }
    } else if !spec_block_in_range(img, loc) {
        MetadataError::Io {
            offset: (loc + 2) as u64,
            len: spec_payload_size(spec_header(img, loc)) as usize,
        }
    } else {
        MetadataError::Decode {
            algorithm,
            input_len: spec_payload_size(spec_header(img, loc)) as usize,
        }
    }
}

/// The payload length read from a header is blind to the compression flag:
/// flipping bit 15 changes the flag and nothing of the length.
pub proof fn lemma_payload_size_ignores_compression_bit(header: u16)
    ensures
        spec_payload_size(header ^ 0x8000) == spec_payload_size(header),
        spec_is_compressed(header ^ 0x8000) != spec_is_compressed(header),
{
    assert((header ^ 0x8000) & 0x7fff == header & 0x7fff) by (bit_vector);
    assert((((header ^ 0x8000) & 0x8000) == 0) != ((header & 0x8000) == 0)) by (bit_vector);
}

/// A chain whose first `n` blocks decode also has its first `m <= n` blocks
/// decoding.
pub proof fn lemma_chain_ok_prefix(img: Seq<u8>, loc: int, algorithm: Algorithm, m: nat, n: nat)
    requires
        m <= n,
        spec_chain_ok(img, loc, algorithm, n),
    ensures
        spec_chain_ok(img, loc, algorithm, m),
    decreases n,
{
    if m < n {
        lemma_chain_ok_prefix(img, loc, algorithm, m, (n - 1) as nat);
    }
}

/// Decoding more blocks of a chain never shortens the gathered data.
pub proof fn lemma_chain_data_len_monotone(
    img: Seq<u8>,
    loc: int,
    algorithm: Algorithm,
    m: nat,
    n: nat,
)
    requires
        m <= n,
    ensures
        spec_chain_data(img, loc, algorithm, m).len() <= spec_chain_data(
            img,
            loc,
            algorithm,
            n,
        ).len(),
    decreases n,
{
    if m < n {
        lemma_chain_data_len_monotone(img, loc, algorithm, m, (n - 1) as nat);
    }
}

/// Relies on byteorder::LittleEndian::read_u16: the first byte of `b` is
/// the low half of the result and the second byte the high half.
#[verifier::external_body]
fn read_u16_le(b: &[u8]) -> (r: u16)
    requires
        b@.len() >= 2,
    ensures
        r == b@[0] as int + 256 * (b@[1] as int),
{
    byteorder::LittleEndian::read_u16(b)
}

/// Splits a raw block header into the on-disk payload length and the
/// compression flag: bits 0-14 give the length, while bit 15 set marks the
/// payload as stored uncompressed.
pub fn get_metadata_size(header: u16) -> (r: (u16, bool))
    ensures
        r.0 == spec_payload_size(header),
        r.1 == spec_is_compressed(header),
        r.0 <= 0x7fff,
{
    let data_size: u16 = header & 0x7FFF;
    let compressed: bool = header & 0x8000 != 0x8000;
    proof {
        lemma_payload_size_bound(header);
        assert(((header & 0x8000) != 0x8000) == ((header & 0x8000) == 0)) by (bit_vector);
    }
    (data_size, compressed)
}

/// Physical byte position at which the block numbered `n` (counting from
/// zero) of the chain whose first block sits at `loc` is decoded. Each
/// further block is decoded at the previous block's `consumed` value, as
/// the container format lays chained blocks out.
pub open spec fn spec_chain_loc(img: Seq<u8>, loc: int, n: nat) -> int
    decreases n,
{
    if n == 0 {
        loc
    } else {
        spec_consumed(img, spec_chain_loc(img, loc, (n - 1) as nat)) as int
    }
}

/// The first `n` blocks of the chain starting at `loc` all decode.
pub open spec fn spec_chain_ok(img: Seq<u8>, loc: int, algorithm: Algorithm, n: nat) -> bool
    decreases n,
{
    if n == 0 {
        true
    } else {
        spec_chain_ok(img, loc, algorithm, (n - 1) as nat) && spec_block_payload(
            img,
            spec_chain_loc(img, loc, (n - 1) as nat),
            algorithm,
        ) is Some
    }
}

/// Concatenation of the decoded payloads of the first `n` blocks of the
/// chain starting at `loc`.
pub open spec fn spec_chain_data(img: Seq<u8>, loc: int, algorithm: Algorithm, n: nat) -> Seq<u8>
    recommends
        spec_chain_ok(img, loc, algorithm, n),
    decreases n,
{
    if n == 0 {
        Seq::<u8>::empty()
    } else {
        spec_chain_data(img, loc, algorithm, (n - 1) as nat) + spec_block_payload(
            img,
            spec_chain_loc(img, loc, (n - 1) as nat),
            algorithm,
        )->Some_0
    }
}

/// A successful logical read over the chain starting at `loc` that skips
/// `skip` bytes of the first decoded payload and asks for `size` bytes,
/// served by exactly `n` blocks and returning `out`: every block decodes,
/// the skip stays within the first payload, `out` is everything decoded
/// from the skip onward, it reaches `size` bytes, and no proper prefix of
/// the chain already did.
pub open spec fn spec_read_ok(
    img: Seq<u8>,
    loc: int,
    algorithm: Algorithm,
    skip: nat,
    size: nat,
    n: nat,
    out: Seq<u8>,
) -> bool {
    &&& n >= 1
    &&& spec_chain_ok(img, loc, algorithm, n)
    &&& skip <= spec_block_payload(img, loc, algorithm)->Some_0.len()
    &&& out == spec_chain_data(img, loc, algorithm, n).skip(skip as int)
    &&& out.len() >= size
    &&& forall|k: nat|
        1 <= k < n ==> spec_chain_data(img, loc, algorithm, k).len() < size + skip
}

/// A successful logical read served by some number of blocks: the witness
/// count is existentially bound, everything else as in [`spec_read_ok`].
pub open spec fn spec_read_ok_any(
    img: Seq<u8>,
    loc: int,
    algorithm: Algorithm,
    skip: nat,
    size: nat,
    out: Seq<u8>,
) -> bool {
    exists|n: nat| #[trigger] spec_read_ok(img, loc, algorithm, skip, size, n, out)
}

/// A failed logical read over the chain starting at `loc`: the first block
/// decodes to fewer than `skip` bytes, or some block of the chain fails to
/// decode before the read is served, or a block past the first decodes to
/// no bytes at all while the output is still short, so that the chain can
/// never serve the read. `e` names the failure.
pub open spec fn spec_read_err(
    img: Seq<u8>,
    loc: int,
    algorithm: Algorithm,
    skip: nat,
    size: nat,
    e: MetadataError,
) -> bool {
    ||| {
        &&& spec_chain_ok(img, loc, algorithm, 1)
        &&& skip > spec_block_payload(img, loc, algorithm)->Some_0.len()
        &&& e == (MetadataError::Io { offset: (loc + 2) as u64, len: skip as usize })
    }
    ||| exists|k: nat|
        {
            &&& spec_chain_ok(img, loc, algorithm, k)
            &&& (k >= 1 ==> skip <= spec_block_payload(img, loc, algorithm)->Some_0.len())
            &&& forall|j: nat|
                1 <= j <= k ==> spec_chain_data(img, loc, algorithm, j).len() < size + skip
            &&& spec_block_payload(img, spec_chain_loc(img, loc, k), algorithm) is None
            &&& e == spec_block_err(img, spec_chain_loc(img, loc, k), algorithm)
        }
    ||| exists|k: nat|
        {
            &&& k >= 1
            &&& spec_chain_ok(img, loc, algorithm, k + 1)
            &&& skip <= spec_block_payload(img, loc, algorithm)->Some_0.len()
            &&& forall|j: nat|
                1 <= j <= k ==> spec_chain_data(img, loc, algorithm, j).len() < size + skip
            &&& spec_block_payload(img, spec_chain_loc(img, loc, k), algorithm)->Some_0.len() == 0
            &&& e == (MetadataError::Decode {
                algorithm,
                input_len: spec_payload_size(spec_header(img, spec_chain_loc(img, loc, k))) as usize,
            })
        }
}

/// Decodes the framed block at byte position `location` of the container
/// image: parses its two-byte header, takes the payload that follows, and
/// decompresses it where the header says so. Returns the decoded payload
/// and the count of on-disk bytes the block occupies.
pub fn read_meta_block(image: &[u8], algorithm: Algorithm, location: u64) -> (r: Result<
    (Vec<u8>, u16),
    MetadataError,
>)
    ensures
        spec_block_payload(image@, location as int, algorithm) matches Some(pl) ==> (r matches Ok(p)
            && p.0@ == pl && p.1 == spec_consumed(image@, location as int)),
        spec_block_payload(image@, location as int, algorithm) is None ==> r == Err::<
            (Vec<u8>, u16),
            MetadataError,
        >(spec_block_err(image@, location as int, algorithm)),
        r matches Ok(p) ==> (spec_is_compressed(spec_header(image@, location as int))
            ==> p.0@.len() <= METADATA_BLOCK_SIZE),
{
    let n: usize = image.len();
    if location >= n as u64 || n as u64 - location < 2 {
        return Err(MetadataError::Io { offset: location, len: 2 });
    }
    let loc: usize = location as usize;
    let header: u16 = read_u16_le(slice_subrange(image, loc, loc + 2));
    assert(header == spec_header(image@, loc as int));
    let (size, compressed) = get_metadata_size(header);

    if n - (loc + 2) < size as usize {
        return Err(MetadataError::Io { offset: location + 2, len: size as usize });
    }
    let raw = slice_to_vec(slice_subrange(image, loc + 2, loc + 2 + size as usize));
    assert(raw@ == spec_raw_payload(image@, loc as int));

    if compressed {
        match decompress(&raw, METADATA_BLOCK_SIZE, algorithm) {
            Ok(out) => Ok((out, size + 2)),
            Err(e) => Err(e),
        }
    } else {
        Ok((raw, size + 2))
    }
}

/// How many bytes a logical read that has gathered `got` bytes still owes
/// toward `size`; the measure that bounds the chain walk.
spec fn spec_remaining(size: usize, got: nat) -> int {
    if got >= size {
        0
    } else {
        size - got
    }
}

/// Appends everything from `start` onward in `src` to `dst`.
fn append_range(dst: &mut Vec<u8>, src: &Vec<u8>, start: usize)
    requires
        start <= src@.len(),
    ensures
        final(dst)@ == old(dst)@ + src@.skip(start as int),
{
    let mut i: usize = start;
    while i < src.len()
        invariant
            start <= i <= src@.len(),
            dst@ == old(dst)@ + src@.subrange(start as int, i as int),
        decreases src@.len() - i,
    {
        let b = src[i];
        dst.push(b);
        proof {
            assert(old(dst)@ + src@.subrange(start as int, i as int) + seq![src@[i as int]]
                =~= old(dst)@ + src@.subrange(start as int, i + 1));
        }
        i = i + 1;
    }
    proof {
        assert(src@.subrange(start as int, src@.len() as int) =~= src@.skip(start as int));
    }
}

/// Reconstructs `size` bytes of a logical stream from the chain of framed
/// blocks whose first block sits at `first_block + block_offset`, skipping
/// the first `byte_offset` bytes of that block's decoded payload. Blocks
/// are decoded and their payloads concatenated until the output holds at
/// least `size` bytes; the final block's payload is appended whole, so the
/// result may overshoot `size` and the caller trims if it needs exactness.
/// A `byte_offset` past the end of the first decoded payload is an I/O
/// error naming the payload position and the offset; a block that fails to
/// decode fails the whole read with that block's error; and a malformed
/// chain whose blocks stop growing the output fails with a decode error
/// naming the offending block's payload length, so the walk always ends.
pub fn read_metadata(
    image: &[u8],
    algorithm: Algorithm,
    first_block: u64,
    block_offset: u32,
    byte_offset: u32,
    size: usize,
) -> (r: Result<Vec<u8>, MetadataError>)
    requires
        size >= 1,
        first_block as int + block_offset as int <= u64::MAX as int,
    ensures
        r matches Ok(buf) ==> spec_read_ok_any(
            image@,
            first_block as int + block_offset as int,
            algorithm,
            byte_offset as nat,
            size as nat,
            buf@,
        ),
        r matches Ok(buf) ==> buf@.len() >= size,
        r matches Err(e) ==> spec_read_err(
            image@,
            first_block as int + block_offset as int,
            algorithm,
            byte_offset as nat,
            size as nat,
            e,
        ),
{
    let ghost img: Seq<u8> = image@;
    let ghost start: int = first_block as int + block_offset as int;
    let mut buf: Vec<u8> = Vec::new();
    let mut location: u64 = first_block + block_offset as u64;

    let (meta, next_block_offset) = match read_meta_block(image, algorithm, location) {
        Ok(p) => p,
        Err(e) => {
            proof {
                assert(spec_chain_loc(img, start, 0) == start);
                assert(spec_chain_ok(img, start, algorithm, 0));
            }
            return Err(e);
        },
    };
    proof {
        assert(spec_chain_loc(img, start, 0) == start);
        assert(spec_chain_ok(img, start, algorithm, 0));
        assert(spec_chain_data(img, start, algorithm, 0) =~= Seq::<u8>::empty());
        assert(spec_chain_ok(img, start, algorithm, 1));
        assert(spec_chain_data(img, start, algorithm, 1) =~= spec_block_payload(
            img,
            start,
            algorithm,
        )->Some_0);
    }
    if byte_offset as usize > meta.len() {
        let ilen: usize = image.len();
        proof {
            assert(spec_block_in_range(img, start));
            assert(location as int + 2 <= ilen as int);
        }
        return Err(MetadataError::Io { offset: location + 2, len: byte_offset as usize });
    }
    append_range(&mut buf, &meta, byte_offset as usize);
    proof {
        assert(buf@ =~= spec_chain_data(img, start, algorithm, 1).skip(byte_offset as int));
    }
    location = next_block_offset as u64;
    let ghost mut n: nat = 1;

    while buf.len() < size
        invariant
            img == image@,
            start == first_block as int + block_offset as int,
            n >= 1,
            spec_chain_ok(img, start, algorithm, n),
            byte_offset as nat <= spec_block_payload(img, start, algorithm)->Some_0.len(),
            buf@ == spec_chain_data(img, start, algorithm, n).skip(byte_offset as int),
            buf@.len() + byte_offset == spec_chain_data(img, start, algorithm, n).len(),
            location == spec_chain_loc(img, start, n),
            forall|k: nat|
                1 <= k < n ==> spec_chain_data(img, start, algorithm, k).len() < size
                    + byte_offset,
        decreases spec_remaining(size, buf@.len()),
    {
        let (meta, next_block_offset) = match read_meta_block(image, algorithm, location) {
            Ok(p) => p,
            Err(e) => {
                proof {
                    assert(forall|j: nat|
                        1 <= j <= n ==> spec_chain_data(img, start, algorithm, j).len() < size
                            + byte_offset);
                }
                return Err(e);
            },
        };
        if meta.len() == 0 {
            proof {
                lemma_payload_size_bound(spec_header(img, spec_chain_loc(img, start, n)));
                assert(spec_chain_ok(img, start, algorithm, n + 1));
                assert(forall|j: nat|
                    1 <= j <= n ==> spec_chain_data(img, start, algorithm, j).len() < size
                        + byte_offset);
            }
            return Err(MetadataError::Decode {
                algorithm,
                input_len: (next_block_offset - 2) as usize,
            });
        }
        proof {
            assert(spec_chain_ok(img, start, algorithm, n + 1));
            assert(spec_chain_data(img, start, algorithm, n + 1) == spec_chain_data(
                img,
                start,
                algorithm,
                n,
            ) + spec_block_payload(img, spec_chain_loc(img, start, n), algorithm)->Some_0);
        }
        append_range(&mut buf, &meta, 0);
        proof {
            assert(meta@.skip(0) =~= meta@);
            assert(spec_chain_data(img, start, algorithm, n).skip(byte_offset as int) + meta@
                =~= spec_chain_data(img, start, algorithm, (n + 1) as nat).skip(
                byte_offset as int,
            ));
        }
        location = next_block_offset as u64;
        proof {
            n = n + 1;
        }
    }
    proof {
        assert(spec_read_ok(img, start, algorithm, byte_offset as nat, size as nat, n, buf@));
        assert(spec_read_ok_any(img, start, algorithm, byte_offset as nat, size as nat, buf@));
    }
    Ok(buf)
}

/// A logical read that some chain prefix can serve never fails, as long as
/// each block before that prefix's last decodes to at least one byte: no
/// failure shape coexists with a success shape over such a chain. Together
/// with the contract of [`read_metadata`], whose failures all carry a
/// failure shape, this pins the call to return at least `size` bytes.
pub proof fn lemma_read_ok_excludes_err(
    img: Seq<u8>,
    loc: int,
    algorithm: Algorithm,
    skip: nat,
    size: nat,
    n: nat,
    out: Seq<u8>,
    e: MetadataError,
)
    requires
        spec_read_ok(img, loc, algorithm, skip, size, n, out),
        forall|k: nat|
            1 <= k < n ==> (#[trigger] spec_block_payload(
                img,
                spec_chain_loc(img, loc, k),
                algorithm,
            ))->Some_0.len() > 0,
    ensures
        !spec_read_err(img, loc, algorithm, skip, size, e),
{
    assert(spec_chain_loc(img, loc, 0) == loc);
    assert(spec_chain_data(img, loc, algorithm, 0) =~= Seq::<u8>::empty());
    assert(spec_chain_data(img, loc, algorithm, 1).len() == spec_block_payload(
        img,
        loc,
        algorithm,
    )->Some_0.len());
    lemma_chain_data_len_monotone(img, loc, algorithm, 1, n);
    assert(skip <= spec_chain_data(img, loc, algorithm, n).len());
    assert(out.len() == spec_chain_data(img, loc, algorithm, n).len() - skip);
    assert(spec_chain_data(img, loc, algorithm, n).len() >= size + skip);

    assert forall|k: nat|
        !{
            &&& #[trigger] spec_chain_ok(img, loc, algorithm, k)
            &&& (k >= 1 ==> skip <= spec_block_payload(img, loc, algorithm)->Some_0.len())
            &&& forall|j: nat|
                1 <= j <= k ==> spec_chain_data(img, loc, algorithm, j).len() < size + skip
            &&& spec_block_payload(img, spec_chain_loc(img, loc, k), algorithm) is None
            &&& e == spec_block_err(img, spec_chain_loc(img, loc, k), algorithm)
        } by {
        if spec_chain_ok(img, loc, algorithm, k) && spec_block_payload(
            img,
            spec_chain_loc(img, loc, k),
            algorithm,
        ) is None {
            if k < n {
                lemma_chain_ok_prefix(img, loc, algorithm, (k + 1) as nat, n);
                assert(false);
            } else {
                if forall|j: nat|
                    1 <= j <= k ==> spec_chain_data(img, loc, algorithm, j).len() < size + skip {
                    assert(spec_chain_data(img, loc, algorithm, n).len() < size + skip);
                    assert(false);
                }
            }
        }
    }

    assert forall|k: nat|
        !{
            &&& k >= 1
            &&& spec_chain_ok(img, loc, algorithm, (k + 1) as nat)
            &&& skip <= spec_block_payload(img, loc, algorithm)->Some_0.len()
            &&& forall|j: nat|
                1 <= j <= k ==> spec_chain_data(img, loc, algorithm, j).len() < size + skip
            &&& (#[trigger] spec_block_payload(
                img,
                spec_chain_loc(img, loc, k),
                algorithm,
            ))->Some_0.len() == 0
            &&& e == (MetadataError::Decode {
                algorithm,
                input_len: spec_payload_size(
                    spec_header(img, spec_chain_loc(img, loc, k)),
                ) as usize,
            })
        } by {
        if 1 <= k < n {
            assert(spec_block_payload(img, spec_chain_loc(img, loc, k), algorithm)->Some_0.len()
                > 0);
        } else if k >= n {
            if forall|j: nat|
                1 <= j <= k ==> spec_chain_data(img, loc, algorithm, j).len() < size + skip {
                assert(spec_chain_data(img, loc, algorithm, n).len() < size + skip);
                assert(false);
            }
        }
    }
    assert(!(skip > spec_block_payload(img, loc, algorithm)->Some_0.len()));
}

} // verus!

