//! Decoding compressed extents.

use fs_btrfs::compression::{decompress, read_u32, Compression, LZO_LEN};

#[test]
fn compression_bytes_map_to_the_defined_algorithms() {
    assert_eq!(Compression::from_byte(0).unwrap(), Compression::Stored);
    assert_eq!(Compression::from_byte(1).unwrap(), Compression::Zlib);
    assert_eq!(Compression::from_byte(2).unwrap(), Compression::Lzo);
    assert_eq!(Compression::from_byte(3).unwrap(), Compression::Zstd);
}

#[test]
fn an_unknown_compression_type_is_refused() {
    let err = Compression::from_byte(4).unwrap_err();
    assert!(err.to_string().contains("compression type 4"), "got {err:?}");
}

#[test]
fn none_passes_bytes_through() {
    let got = decompress(Compression::Stored, b"hello", 5, 4096).unwrap();
    assert_eq!(got, b"hello");
}

#[test]
fn zlib_round_trips() {
    let plain: Vec<u8> = (0..10_000u32).map(|i| (i % 251) as u8).collect();
    let packed = miniz_oxide::deflate::compress_to_vec_zlib(&plain, 6);
    let got = decompress(Compression::Zlib, &packed, plain.len(), 4096).unwrap();
    assert_eq!(got, plain);
}

#[test]
fn a_stream_longer_than_the_item_records_is_refused() {
    let plain = vec![7u8; 5000];
    let packed = miniz_oxide::deflate::compress_to_vec_zlib(&plain, 6);
    assert!(decompress(Compression::Zlib, &packed, 100, 4096).is_err());
}

#[test]
fn a_short_decode_is_zero_padded_to_the_recorded_length() {
    let plain = b"abc".to_vec();
    let packed = miniz_oxide::deflate::compress_to_vec_zlib(&plain, 6);
    let got = decompress(Compression::Zlib, &packed, 16, 4096).unwrap();
    assert_eq!(&got[..3], b"abc");
    assert_eq!(&got[3..], &[0u8; 13]);
}

fn lzo_frame(segments: &[Vec<u8>], sectorsize: usize) -> Vec<u8> {
    let mut out = vec![0u8; LZO_LEN];
    for seg in segments {
        if sectorsize - (out.len() % sectorsize) < LZO_LEN {
            let pad = sectorsize - (out.len() % sectorsize);
            out.resize(out.len() + pad, 0);
        }
        out.extend_from_slice(&(seg.len() as u32).to_le_bytes());
        out.extend_from_slice(seg);
    }
    let total = out.len() as u32;
    out[0..LZO_LEN].copy_from_slice(&total.to_le_bytes());
    out
}

#[test]
fn lzo_declaring_more_than_it_holds_is_refused() {
    let mut framed = vec![0u8; 8];
    framed[0..4].copy_from_slice(&999u32.to_le_bytes());
    let err = decompress(Compression::Lzo, &framed, 4096, 4096).unwrap_err();
    assert!(err.to_string().contains("only 8 are present"), "got {err:?}");
}

#[test]
fn lzo_shorter_than_its_header_is_refused() {
    let err = decompress(Compression::Lzo, &[1, 2], 4096, 4096).unwrap_err();
    assert!(err.to_string().contains("too short"), "got {err:?}");
}

#[test]
fn lzo_with_a_zero_length_segment_is_refused() {
    let framed = lzo_frame(&[vec![]], 4096);
    let err = decompress(Compression::Lzo, &framed, 4096, 4096).unwrap_err();
    assert!(err.to_string().contains("zero-length"), "got {err:?}");
}

#[test]
fn lzo_with_a_segment_past_the_end_is_refused() {
    let mut framed = vec![0u8; 12];
    framed[0..4].copy_from_slice(&12u32.to_le_bytes());
    framed[4..8].copy_from_slice(&9999u32.to_le_bytes());
    let err = decompress(Compression::Lzo, &framed, 4096, 4096).unwrap_err();
    assert!(err.to_string().contains("past the end"), "got {err:?}");
}

#[test]
fn lzo_segment_headers_do_not_straddle_a_sector() {
    let sectorsize = 64;
    let first = vec![0xAAu8; sectorsize - LZO_LEN - LZO_LEN - 2];
    let second = vec![0xBBu8; 8];
    let framed = lzo_frame(&[first.clone(), second.clone()], sectorsize);

    assert_eq!(
        read_u32(&framed, sectorsize).unwrap() as usize,
        second.len()
    );
    assert_eq!(
        &framed[sectorsize + LZO_LEN..sectorsize + LZO_LEN + 8],
        &second[..]
    );
}
