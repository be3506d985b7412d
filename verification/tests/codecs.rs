//! Decoding the three compression formats, byte for byte.

use fs_btrfs::compression::{
    decompress, fit, lzo_result, zlib_result, zstd_result, Compression, LZO_LEN,
};
use fs_btrfs::error::Error;
use fs_btrfs::zstd::is_bounded;

/// A zstd frame that holds `data` in one raw block.
fn zstd_frame(data: &[u8]) -> Vec<u8> {
    let mut frame = vec![0x28, 0xB5, 0x2F, 0xFD, 0x20, data.len() as u8];
    frame.extend_from_slice(&[((data.len() as u8) << 3) | 1, 0, 0]);
    frame.extend_from_slice(data);
    frame
}

/// An LZO1X stream that holds `data` as one run of literals.
fn lzo_stream(data: &[u8]) -> Vec<u8> {
    let mut stream = vec![17 + data.len() as u8];
    stream.extend_from_slice(data);
    stream.extend_from_slice(&[0x11, 0, 0]);
    stream
}

fn lzo_extent(segments: &[Vec<u8>]) -> Vec<u8> {
    let mut out = vec![0u8; LZO_LEN];
    for segment in segments {
        out.extend_from_slice(&(segment.len() as u32).to_le_bytes());
        out.extend_from_slice(segment);
    }
    let total = out.len() as u32;
    out[..LZO_LEN].copy_from_slice(&total.to_le_bytes());
    out
}

#[test]
fn zstd_frames_decode() {
    let got = decompress(Compression::Zstd, &zstd_frame(b"abcdef"), 6, 4096);
    assert_eq!(got.unwrap(), b"abcdef");
    let got = decompress(Compression::Zstd, &zstd_frame(b"abc"), 5, 4096);
    assert_eq!(got.unwrap(), b"abc\0\0", "padded to the recorded length");
    let got = decompress(Compression::Zstd, &zstd_frame(b"abcdef"), 4, 4096);
    assert_eq!(got.unwrap(), b"abcd", "what lies past it is not read");
    let err = decompress(Compression::Zstd, b"nonsense", 4, 4096).unwrap_err();
    assert!(err.to_string().contains("zstd extent has no readable frame"), "{err:?}");
}

/// A zstd frame of one compressed block: no literals, and `count` sequences
/// written in `written` bytes.
fn zstd_sequences(count: u32, written: usize) -> Vec<u8> {
    let more = count - 0x7F00;
    let mut block = vec![0x00, 0xFF, more as u8, (more >> 8) as u8, 0x00];
    block.resize(5 + written, 0);
    let head = ((block.len() as u32) << 3) | 0b101;
    let mut frame = vec![0x28, 0xB5, 0x2F, 0xFD, 0x00, 0x38];
    frame.extend_from_slice(&head.to_le_bytes()[..3]);
    frame.extend_from_slice(&block);
    frame
}

#[test]
fn a_zstd_block_that_could_outgrow_the_decoder_is_refused() {
    let refused = zstd_sequences(0x8000, 70_000);
    assert!(!is_bounded(&refused));
    assert_eq!(
        decompress(Compression::Zstd, &refused, 4096, 4096),
        Err(Error::BadSuperblock(
            "zstd extent failed to decode: a block of it could outgrow the decoder".into()
        ))
    );
    // The same sequences with too few bytes to copy that much, and as many
    // bytes with too few sequences.
    for frame in [zstd_sequences(0x8000, 60_000), zstd_sequences(0x7FFE, 70_000)] {
        assert!(is_bounded(&frame));
        let err = decompress(Compression::Zstd, &frame, 4096, 4096).unwrap_err();
        assert!(!err.to_string().contains("could outgrow"), "{err:?}");
    }
    // The bound is 2^32 - 1: 32,767 sequences copy at most that less 65,535.
    assert_eq!(32_767 * 131_074, u64::from(u32::MAX) - 65_537);
    assert!(is_bounded(&zstd_sequences(32_767, 131_000)));
    assert!(!is_bounded(&zstd_sequences(32_768, 131_000)));
    assert_eq!(32_768 * 34 + 65_535 * 65_520, 4_294_967_312u64);
    assert!(!is_bounded(&zstd_sequences(32_768, 65_535)));
    assert!(is_bounded(&zstd_sequences(32_768, 65_534)));
}

#[test]
fn what_is_no_whole_zstd_frame_is_left_to_the_decoder() {
    let whole = zstd_sequences(0x8000, 70_000);
    assert!(is_bounded(b""));
    assert!(is_bounded(b"nonsense"));
    assert!(is_bounded(&whole[..whole.len() - 1]), "cut short");
    assert!(is_bounded(&zstd_frame(b"abcdef")));
    let mut other = whole.clone();
    other[0] ^= 1;
    assert!(is_bounded(&other), "not a frame");
    // A block behind the last one is not looked at.
    let mut behind = zstd_frame(b"abcdef");
    behind.extend_from_slice(&whole[6..]);
    assert!(is_bounded(&behind));
    assert_eq!(
        decompress(Compression::Zstd, &behind, 6, 4096).unwrap(),
        b"abcdef"
    );
}

#[test]
fn lzo_segments_decode_and_follow_each_other() {
    let one = lzo_extent(&[lzo_stream(b"abcdefgh")]);
    assert_eq!(
        decompress(Compression::Lzo, &one, 8, 4096).unwrap(),
        b"abcdefgh"
    );
    let two = lzo_extent(&[lzo_stream(b"abcdefgh"), lzo_stream(b"ijkl")]);
    assert_eq!(
        decompress(Compression::Lzo, &two, 12, 8).unwrap(),
        b"abcdefghijkl"
    );
    let err = decompress(Compression::Lzo, &one, 8, 2).unwrap_err();
    assert!(err.to_string().contains("sector size 2 is too small"), "{err:?}");
    let bad = lzo_extent(&[vec![0xFF, 0xFF, 0xFF]]);
    let err = decompress(Compression::Lzo, &bad, 8, 4096).unwrap_err();
    assert!(err.to_string().contains("LZO segment at 8 failed to decode"), "{err:?}");
}

#[test]
fn a_zlib_stream_that_does_not_decode_says_so() {
    let err = decompress(Compression::Zlib, b"not zlib", 16, 4096).unwrap_err();
    assert!(err.to_string().contains("zlib extent failed to decode ("), "{err:?}");
}

#[test]
fn decoded_bytes_are_brought_to_the_recorded_length() {
    assert_eq!(fit(Compression::Zlib, vec![1, 2], 4), Ok(vec![1, 2, 0, 0]));
    assert_eq!(fit(Compression::Zlib, vec![1, 2], 2), Ok(vec![1, 2]));
    assert_eq!(
        fit(Compression::Zstd, vec![1, 2, 3], 2),
        Err(Error::BadSuperblock(
            "Zstd extent decoded to 3 bytes, more than the 2 it records".into()
        ))
    );
}

#[test]
fn what_a_decoder_answers_is_what_the_extent_gives() {
    assert_eq!(zlib_result(Ok(vec![7])), Ok(vec![7]));
    assert_eq!(
        zlib_result(Err(("Failed".into(), 3))),
        Err(Error::BadSuperblock(
            "zlib extent failed to decode (Failed) after 3 bytes".into()
        ))
    );
    assert_eq!(lzo_result(8, Ok(vec![7])), Ok(vec![7]));
    assert_eq!(
        lzo_result(8, Err("bad".into())),
        Err(Error::BadSuperblock(
            "LZO segment at 8 failed to decode: bad".into()
        ))
    );
    assert_eq!(zstd_result(Ok(vec![7])), Ok(vec![7]));
    assert_eq!(
        zstd_result(Err((true, "short".into()))),
        Err(Error::BadSuperblock(
            "zstd extent failed to decode: short".into()
        ))
    );
    assert_eq!(
        zstd_result(Err((false, "magic".into()))),
        Err(Error::BadSuperblock(
            "zstd extent has no readable frame: magic".into()
        ))
    );
}

#[test]
fn only_stored_data_is_uncompressed() {
    assert!(!Compression::Stored.is_compressed());
    assert!(Compression::Zlib.is_compressed());
    assert!(Compression::Lzo.is_compressed());
    assert!(Compression::Zstd.is_compressed());
}
