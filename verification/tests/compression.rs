use libheifer::compression::{
    after_inflate, brotli_error_string, brotli_failure, compression_codec, decompression_codec,
    inflate_failure, BrotliFailure, Codec, InflateAction, InflateStatus,
};

#[test]
fn brotli_error_names() {
    assert_eq!(brotli_error_string(0), "_NO_ERROR");
    assert_eq!(brotli_error_string(3), "_NEEDS_MORE_OUTPUT");
    assert_eq!(brotli_error_string(-1), "_ERROR_FORMAT_EXUBERANT_NIBBLE");
    assert_eq!(brotli_error_string(-16), "_ERROR_FORMAT_DISTANCE");
    assert_eq!(brotli_error_string(-17), "INVALID");
    assert_eq!(brotli_error_string(-26), "_ERROR_ALLOC_RING_BUFFER_1");
    assert_eq!(brotli_error_string(-31), "_ERROR_UNREACHABLE");
    assert_eq!(brotli_error_string(7), "INVALID");
}

#[test]
fn codecs_follow_the_method() {
    assert_eq!(compression_codec(5), Codec::Brotli);
    assert_eq!(compression_codec(3), Codec::Deflate(false));
    assert_eq!(compression_codec(4), Codec::Deflate(true));
    assert_eq!(compression_codec(1), Codec::Stored);
    assert_eq!(decompression_codec(0, 0).ok().unwrap(), Codec::Stored);
    assert_eq!(decompression_codec(5, 0).ok().unwrap(), Codec::Brotli);
    assert_eq!(decompression_codec(4, 10).ok().unwrap(), Codec::Deflate(true));
    let e = decompression_codec(3, 0).err().unwrap();
    assert_eq!((e.code, e.subcode), (2, 150));
    assert_eq!(e.message, "Invalid input: Invalid data in generic compression inflation: Empty zlib compressed data.");
    let e = decompression_codec(2, 10).err().unwrap();
    assert_eq!((e.code, e.subcode), (3, 3005));
}

#[test]
fn inflate_loop_decisions() {
    assert_eq!(after_inflate(InflateStatus::Progress, 5, 10, 8192, 100, 0).ok().unwrap(), InflateAction::Append(100));
    assert_eq!(
        after_inflate(InflateStatus::StreamEnd, 10, 10, 8192, 7, 0).ok().unwrap(),
        InflateAction::AppendAndFinish(7)
    );
    assert_eq!(after_inflate(InflateStatus::BufError, 10, 10, 8192, 0, 0).ok().unwrap(), InflateAction::Finish);
    assert_eq!(after_inflate(InflateStatus::BufError, 4, 10, 8192, 0, 0).ok().unwrap(), InflateAction::Grow(16384));
    assert_eq!(after_inflate(InflateStatus::BufError, 4, 10, 8192, 0, 16384).ok().unwrap(), InflateAction::Grow(16384));
    let e = after_inflate(InflateStatus::BufError, 4, 10, 8192, 0, 10000).err().unwrap();
    assert_eq!((e.code, e.subcode), (6, 1000));
    let e = after_inflate(InflateStatus::BufError, 4, 10, usize::MAX / 2 + 1, 0, 0).err().unwrap();
    assert_eq!((e.code, e.subcode, e.message.as_str()), (6, 0, "Memory allocation error"));
}

#[test]
fn failure_texts() {
    let e = inflate_failure(-3, "invalid stored block lengths");
    assert_eq!((e.code, e.subcode), (2, 150));
    assert_eq!(
        e.message,
        "Invalid input: Invalid data in generic compression inflation: Error performing zlib inflate: invalid stored block lengths (-3)\n"
    );
    let e = brotli_failure(BrotliFailure::Failure(-2));
    assert_eq!(
        e.message,
        "Invalid input: Invalid data in generic compression inflation: Error performing brotli inflate - _ERROR_FORMAT_RESERVED\n"
    );
    let e = brotli_failure(BrotliFailure::NeedsMoreInput);
    assert_eq!(
        e.message,
        "Invalid input: Invalid data in generic compression inflation: Error performing brotli inflate - insufficient data.\n"
    );
}

#[test]
fn compress_follows_the_method() {
    let data: Vec<u8> = b"metadata metadata metadata metadata metadata".to_vec();
    assert_eq!(libheifer::compression::compress(&data, 0).ok().unwrap(), data);
    let z = libheifer::compression::compress(&data, 4).ok().unwrap();
    assert_eq!(&z[..2], &[0x78, 0x9c]);
    assert!(z.len() < data.len());
    let raw = libheifer::compression::compress(&data, 3).ok().unwrap();
    assert_eq!(raw.len() + 6, z.len());
    let mut out = vec![0u8; data.len()];
    let (inflated, _) = zlib_rs::decompress_slice(&mut out, &z, zlib_rs::InflateConfig::default());
    assert_eq!(inflated, &data[..]);
    let b = libheifer::compression::compress(&data, 5).ok().unwrap();
    assert!(!b.is_empty() && b != data);
    let mut decoded = Vec::new();
    brotli_decompressor::BrotliDecompress(&mut &b[..], &mut decoded).unwrap();
    assert_eq!(decoded, data);
}
