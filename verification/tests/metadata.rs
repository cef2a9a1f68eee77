use byteorder::{ByteOrder, LittleEndian};
use squashfs::compress::{decompress, Algorithm};
use squashfs::error::MetadataError;
use squashfs::metadata::{get_metadata_size, read_meta_block, read_metadata, METADATA_BLOCK_SIZE};

#[test]
fn test_get_metadata_size() {
    let metas: Vec<(Vec<u8>, u16, bool)> = vec![
        (vec![0x25, 0xff], 0x7f25, false),
        (vec![0x25, 0x7f], 0x7f25, true),
    ];

    for (header, should_size, should_compressed) in metas {
        let (size, compressed) = get_metadata_size(LittleEndian::read_u16(&header));
        assert_eq!(size, should_size);
        assert_eq!(compressed, should_compressed);
    }
}

#[test]
fn test_read_metad_block() {
    // A container holding one uncompressed block of ten payload bytes.
    let payload: Vec<u8> = vec![1, 2, 3, 4, 5, 6, 7, 8, 9, 10];
    let mut image: Vec<u8> = vec![0x0a, 0x80];
    image.extend_from_slice(&payload);

    let (meta, consumed) = read_meta_block(&image, Algorithm::Gzip, 0).unwrap();
    assert_eq!(meta, payload);
    assert_eq!(consumed, 12);
}

#[test]
fn header_parsing_is_pure_masking() {
    assert_eq!(get_metadata_size(0xff25), (0x7f25, false));
    assert_eq!(get_metadata_size(0x7f25), (0x7f25, true));
}

#[test]
fn zlib_round_trip() {
    let x: Vec<u8> = (0..8192u32).map(|i| (i * 7 % 256) as u8).collect();
    let comp = miniz_oxide::deflate::compress_to_vec_zlib(&x, 6);
    assert_ne!(comp, x);
    let out = decompress(&comp, METADATA_BLOCK_SIZE, Algorithm::Gzip).unwrap();
    assert_eq!(out, x);
}

#[test]
fn zlib_round_trip_empty_and_short() {
    for x in [vec![], vec![0x42u8], vec![7u8; 100]] {
        let comp = miniz_oxide::deflate::compress_to_vec_zlib(&x, 6);
        let out = decompress(&comp, METADATA_BLOCK_SIZE, Algorithm::Gzip).unwrap();
        assert_eq!(out, x);
    }
}

#[test]
fn oversized_decompression_is_a_decode_failure() {
    let x: Vec<u8> = vec![0u8; 9000];
    let comp = miniz_oxide::deflate::compress_to_vec_zlib(&x, 6);
    let err = decompress(&comp, METADATA_BLOCK_SIZE, Algorithm::Gzip).unwrap_err();
    assert_eq!(
        err,
        MetadataError::Decode { algorithm: Algorithm::Gzip, input_len: comp.len() }
    );

    // The same payload behind a block header fails the block decode too.
    let mut image: Vec<u8> = (comp.len() as u16).to_le_bytes().to_vec();
    image.extend_from_slice(&comp);
    let err2 = read_meta_block(&image, Algorithm::Gzip, 0).unwrap_err();
    assert_eq!(
        err2,
        MetadataError::Decode { algorithm: Algorithm::Gzip, input_len: comp.len() }
    );
}

#[test]
fn unsupported_algorithm_is_a_decode_failure() {
    let x: Vec<u8> = vec![1, 2, 3];
    let comp = miniz_oxide::deflate::compress_to_vec_zlib(&x, 6);
    let mut image: Vec<u8> = (comp.len() as u16).to_le_bytes().to_vec();
    image.extend_from_slice(&comp);
    let err = read_meta_block(&image, Algorithm::Lzo, 0).unwrap_err();
    assert_eq!(
        err,
        MetadataError::Decode { algorithm: Algorithm::Lzo, input_len: comp.len() }
    );
}

#[test]
fn truncated_header_is_an_io_failure() {
    let image: Vec<u8> = vec![0x0a];
    let err = read_meta_block(&image, Algorithm::Gzip, 0).unwrap_err();
    assert_eq!(err, MetadataError::Io { offset: 0, len: 2 });
}

#[test]
fn truncated_payload_is_an_io_failure() {
    // Header promises ten payload bytes, the image holds three.
    let image: Vec<u8> = vec![0x0a, 0x80, 1, 2, 3];
    let err = read_meta_block(&image, Algorithm::Gzip, 0).unwrap_err();
    assert_eq!(err, MetadataError::Io { offset: 2, len: 10 });
}

#[test]
fn uncompressed_block_serves_short_read() {
    // One uncompressed block of ten payload bytes at location zero; a
    // five-byte request returns the whole ten-byte payload unmodified.
    let payload: Vec<u8> = vec![9, 8, 7, 6, 5, 4, 3, 2, 1, 0];
    let mut image: Vec<u8> = vec![0x0a, 0x80];
    image.extend_from_slice(&payload);

    let out = read_metadata(&image, Algorithm::Gzip, 0, 0, 0, 5).unwrap();
    assert_eq!(out, payload);
}

#[test]
fn byte_offset_skips_into_first_block() {
    let payload: Vec<u8> = vec![9, 8, 7, 6, 5, 4, 3, 2, 1, 0];
    let mut image: Vec<u8> = vec![0x0a, 0x80];
    image.extend_from_slice(&payload);

    let out = read_metadata(&image, Algorithm::Gzip, 0, 0, 4, 2).unwrap();
    assert_eq!(out, vec![5, 4, 3, 2, 1, 0]);
}

#[test]
fn byte_offset_past_first_payload_is_an_io_failure() {
    let payload: Vec<u8> = vec![9, 8, 7];
    let mut image: Vec<u8> = vec![0x03, 0x80];
    image.extend_from_slice(&payload);

    let err = read_metadata(&image, Algorithm::Gzip, 0, 0, 4, 1).unwrap_err();
    assert_eq!(err, MetadataError::Io { offset: 2, len: 4 });
}

#[test]
fn split_block_address_is_honoured() {
    // Two junk bytes, then the block: addressed as first_block 1 plus
    // block offset 1.
    let payload: Vec<u8> = vec![5, 6, 7];
    let mut image: Vec<u8> = vec![0xee, 0xee, 0x03, 0x80];
    image.extend_from_slice(&payload);

    let out = read_metadata(&image, Algorithm::Gzip, 1, 1, 0, 3).unwrap();
    assert_eq!(out, payload);
}

#[test]
fn chained_blocks_serve_long_read() {
    // First block compressed, decoding to the full 8192-byte capacity;
    // second block uncompressed, appended whole when 9000 bytes are asked.
    let content1: Vec<u8> = (0..8192u32).map(|i| (i % 251) as u8).collect();
    let comp1 = miniz_oxide::deflate::compress_to_vec_zlib(&content1, 6);
    assert!(comp1.len() <= 0x7fff);
    let content2: Vec<u8> = (0..900u32).map(|i| (i * 3 % 256) as u8).collect();

    let mut image: Vec<u8> = (comp1.len() as u16).to_le_bytes().to_vec();
    image.extend_from_slice(&comp1);
    image.extend_from_slice(&(content2.len() as u16 | 0x8000).to_le_bytes());
    image.extend_from_slice(&content2);

    let out = read_metadata(&image, Algorithm::Gzip, 0, 0, 0, 9000).unwrap();
    assert_eq!(out.len(), 8192 + 900);
    assert_eq!(&out[..8192], &content1[..]);
    assert_eq!(&out[8192..], &content2[..]);
}

#[test]
fn block_that_grows_nothing_is_a_decode_failure() {
    // First block holds three bytes; the next block in the chain decodes
    // to no bytes at all, so a four-byte read can never be served.
    let mut image: Vec<u8> = vec![0x03, 0x80, 1, 2, 3];
    image.extend_from_slice(&[0x00, 0x80]);

    let err = read_metadata(&image, Algorithm::Gzip, 0, 0, 0, 4).unwrap_err();
    assert_eq!(
        err,
        MetadataError::Decode { algorithm: Algorithm::Gzip, input_len: 0 }
    );
}

#[test]
fn failed_block_mid_chain_fails_the_read() {
    // First block fine, second block's payload runs past the image.
    let mut image: Vec<u8> = vec![0x03, 0x80, 1, 2, 3];
    image.extend_from_slice(&[0x09, 0x80, 4, 5]);

    let err = read_metadata(&image, Algorithm::Gzip, 0, 0, 0, 5).unwrap_err();
    assert_eq!(err, MetadataError::Io { offset: 7, len: 9 });
}

#[test]
fn byte_offset_at_payload_end_reads_next_block() {
    // Skipping the whole first payload leaves the read to the second block.
    let mut image: Vec<u8> = vec![0x03, 0x80, 1, 2, 3];
    image.extend_from_slice(&[0x02, 0x80, 7, 8]);

    let out = read_metadata(&image, Algorithm::Gzip, 0, 0, 3, 1).unwrap();
    assert_eq!(out, vec![7, 8]);
}
