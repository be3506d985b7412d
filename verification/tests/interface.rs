//! What a caller is told: messages, numbers, records.

use fs_btrfs::capi::{
    errno_for, file_type_code, fill_attr, fill_dirent, link_reply, name_field, EIO, EISDIR, ENOENT,
    ENOTDIR, EROFS_ERRNO,
};
use fs_btrfs::dir::DirEntry;
use fs_btrfs::error::Error;
use fs_btrfs::inode::{FileType, Inode, INODE_ITEM_SIZE};

const ENOTSUP: i32 = 95;

fn every_error() -> Vec<(Error, &'static str, i32)> {
    vec![
        (Error::Io("gone".into()), "device I/O failed: gone", EIO),
        (
            Error::NotBtrfs { magic: [0xAB; 8] },
            "not a Btrfs volume (magic bytes [ab, ab, ab, ab, ab, ab, ab, ab])",
            EIO,
        ),
        (
            Error::BadSuperblock("odd".into()),
            "malformed Btrfs superblock: odd",
            EIO,
        ),
        (
            Error::ChecksumMismatch {
                what: "tree block",
                offset: 0x1000,
            },
            "tree block at offset 4096 failed its checksum",
            EIO,
        ),
        (
            Error::UnsupportedChecksum(9),
            "unsupported Btrfs checksum type 9",
            ENOTSUP,
        ),
        (
            Error::BlockIdentityMismatch {
                what: "superblock",
                expected: 1,
                found: 2,
            },
            "superblock read from 1 claims to live at 2",
            EIO,
        ),
        (
            Error::UnsupportedFeature("zoned".into()),
            "unsupported Btrfs feature: zoned",
            ENOTSUP,
        ),
        (
            Error::BadChunkItem("torn".into()),
            "malformed Btrfs chunk item: torn",
            EIO,
        ),
        (
            Error::UnmappedLogical(0x2a),
            "logical address 0x2a is not covered by any chunk",
            EIO,
        ),
        (
            Error::UnsupportedProfile("raid5".into()),
            "unsupported Btrfs chunk profile: raid5",
            ENOTSUP,
        ),
        (
            Error::DirtyLog,
            "Btrfs log tree is non-empty and needs replay",
            EIO,
        ),
        (Error::NotFound, "no such file or directory", ENOENT),
        (Error::NotADirectory, "not a directory", ENOTDIR),
        (Error::NotAFile, "not a regular file", EISDIR),
        (Error::ReadOnly, "filesystem is read-only", EROFS_ERRNO),
    ]
}

#[test]
fn every_error_has_its_sentence_and_its_number() {
    for (e, sentence, errno) in every_error() {
        assert_eq!(e.to_string(), sentence);
        assert_eq!(errno_for(&e, ENOTSUP), errno, "{e:?}");
    }
}

#[test]
fn no_two_file_types_share_a_code() {
    let codes: Vec<u32> = [
        None,
        Some(FileType::Regular),
        Some(FileType::Directory),
        Some(FileType::CharDevice),
        Some(FileType::BlockDevice),
        Some(FileType::Fifo),
        Some(FileType::Socket),
        Some(FileType::Symlink),
    ]
    .into_iter()
    .map(file_type_code)
    .collect();
    assert_eq!(codes, vec![0, 1, 2, 3, 4, 5, 6, 7]);
}

#[test]
fn a_name_field_stays_terminated() {
    let (field, n) = name_field(b"abc");
    assert_eq!((field.len(), n), (256, 3));
    assert_eq!(&field[..4], b"abc\0");
    let (field, n) = name_field(&[b'x'; 300]);
    assert_eq!((field.len(), n), (256, 255));
    assert_eq!((field[254], field[255]), (b'x', 0));
}

#[test]
fn an_entry_that_names_a_subvolume_says_so() {
    let mut entry = DirEntry {
        name: b"sub".to_vec(),
        ino: 256,
        ftype: Some(FileType::Directory),
        location_type: 132,
        transid: 1,
    };
    let record = fill_dirent(&entry);
    assert_eq!((record.inode, record.file_type), (256, 2));
    assert_eq!((record.is_subvolume, record.name_len), (1, 3));
    entry.location_type = 1;
    assert_eq!(fill_dirent(&entry).is_subvolume, 0);
}

#[test]
fn attributes_come_from_the_inode() {
    let mut raw = vec![0u8; INODE_ITEM_SIZE];
    raw[16] = 33;
    raw[52..56].copy_from_slice(&0o120777u32.to_le_bytes());
    raw[136] = 5;
    let attr = fill_attr(&Inode::parse(&raw, 300).unwrap());
    assert_eq!((attr.inode, attr.size, attr.mode), (300, 33, 0o120777));
    assert_eq!((attr.file_type, attr.mtime), (7, 5));
}

#[test]
fn a_link_that_does_not_fit_is_not_cut() {
    assert_eq!(link_reply(b"abc", 4), Ok(b"abc\0".to_vec()));
    assert_eq!(
        link_reply(b"abc", 3),
        Err("readlink buffer holds 3 bytes, need 4 for the target and its terminator".into())
    );
}
