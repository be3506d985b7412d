//! Known answers of the four checksum algorithms.

use fs_btrfs::superblock::{digest_field, field_opens, ChecksumType};

fn hex(bytes: &[u8]) -> String {
    bytes.iter().map(|b| format!("{b:02x}")).collect()
}

#[test]
fn digests_are_the_published_ones() {
    let crc = ChecksumType::Crc32c.digest(b"123456789");
    assert_eq!(hex(&crc[..4]), "839206e3");
    let xxh = ChecksumType::XxHash64.digest(b"");
    assert_eq!(hex(&xxh[..8]), "99e9d85137db46ef");
    assert_eq!(
        hex(&ChecksumType::Sha256.digest(b"abc")),
        "ba7816bf8f01cfea414140de5dae2223b00361a396177a9cb410ff61f20015ad"
    );
    assert_eq!(
        hex(&ChecksumType::Blake2b256.digest(b"abc")),
        "bddd813c634239723171ef3fee98579b94964e3bb1cb3e427262c8c068d52319"
    );
}

#[test]
fn what_a_digest_does_not_fill_is_zero_and_not_compared() {
    for kind in [
        ChecksumType::Crc32c,
        ChecksumType::XxHash64,
        ChecksumType::Sha256,
        ChecksumType::Blake2b256,
    ] {
        let n = kind.digest_len();
        let mut field = kind.digest(b"data");
        assert!(field[n..].iter().all(|&b| b == 0));
        assert!(kind.verify(b"data", &field));
        assert!(!kind.verify(b"dat", &field));
        assert!(!kind.verify(b"data", &field[..n - 1]), "too short to say");
        if n < 32 {
            field[n] = 0xFF;
            assert!(kind.verify(b"data", &field));
        }
        field[n - 1] ^= 1;
        assert!(!kind.verify(b"data", &field));
        assert_eq!(ChecksumType::from_raw(kind.to_raw()), Ok(kind));
    }
}

#[test]
fn a_digest_opens_its_field() {
    let field = digest_field(&[1, 2, 3]);
    assert_eq!(&field[..4], &[1, 2, 3, 0]);
    assert!(field_opens(&field, &[1, 2, 9], 2));
    assert!(!field_opens(&field, &[1, 2, 9], 3));
}
