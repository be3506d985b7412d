//! Inode items.

use fs_btrfs::error::Error;
use fs_btrfs::inode::{
    offsets, FileType, Inode, Timestamp, INODE_ITEM_SIZE, NSEC_PER_SEC, TIMESPEC_SIZE,
};

fn item(mode: u32) -> Vec<u8> {
    let mut b = vec![0u8; INODE_ITEM_SIZE];
    let put64 = |b: &mut Vec<u8>, at: usize, v: u64| {
        b[at..at + 8].copy_from_slice(&v.to_le_bytes());
    };
    let put32 = |b: &mut Vec<u8>, at: usize, v: u32| {
        b[at..at + 4].copy_from_slice(&v.to_le_bytes());
    };
    put64(&mut b, offsets::GENERATION, 11);
    put64(&mut b, offsets::TRANSID, 22);
    put64(&mut b, offsets::SIZE, 33);
    put64(&mut b, offsets::NBYTES, 4096);
    put64(&mut b, offsets::BLOCK_GROUP, 55);
    put32(&mut b, offsets::NLINK, 3);
    put32(&mut b, offsets::UID, 1000);
    put32(&mut b, offsets::GID, 1001);
    put32(&mut b, offsets::MODE, mode);
    put64(&mut b, offsets::RDEV, 77);
    put64(&mut b, offsets::FLAGS, 0x88);
    put64(&mut b, offsets::SEQUENCE, 99);
    for (i, off) in [
        offsets::ATIME,
        offsets::CTIME,
        offsets::MTIME,
        offsets::OTIME,
    ]
    .into_iter()
    .enumerate()
    {
        put64(&mut b, off, 1_700_000_000 + i as u64);
        put32(&mut b, off + 8, 100 + i as u32);
    }
    b
}

#[test]
fn parses_every_field() {
    let inode = Inode::parse(&item(0o100644), 300).unwrap();
    assert_eq!(inode.ino, 300);
    assert_eq!(inode.generation, 11);
    assert_eq!(inode.transid, 22);
    assert_eq!(inode.size, 33);
    assert_eq!(inode.nbytes, 4096);
    assert_eq!(inode.block_group, 55);
    assert_eq!(inode.nlink, 3);
    assert_eq!(inode.uid, 1000);
    assert_eq!(inode.gid, 1001);
    assert_eq!(inode.mode, 0o100644);
    assert_eq!(inode.rdev, 77);
    assert_eq!(inode.flags, 0x88);
    assert_eq!(inode.sequence, 99);
}

#[test]
fn timestamps_are_read_from_distinct_slots() {
    let inode = Inode::parse(&item(0o100644), 300).unwrap();
    assert_eq!(
        inode.atime,
        Timestamp {
            sec: 1_700_000_000,
            nsec: 100
        }
    );
    assert_eq!(
        inode.ctime,
        Timestamp {
            sec: 1_700_000_001,
            nsec: 101
        }
    );
    assert_eq!(
        inode.mtime,
        Timestamp {
            sec: 1_700_000_002,
            nsec: 102
        }
    );
    assert_eq!(
        inode.otime,
        Timestamp {
            sec: 1_700_000_003,
            nsec: 103
        }
    );
}

#[test]
fn decodes_the_seven_file_types() {
    for (bits, want) in [
        (0o100000u32, FileType::Regular),
        (0o040000, FileType::Directory),
        (0o120000, FileType::Symlink),
        (0o020000, FileType::CharDevice),
        (0o060000, FileType::BlockDevice),
        (0o010000, FileType::Fifo),
        (0o140000, FileType::Socket),
    ] {
        let inode = Inode::parse(&item(bits | 0o644), 300).unwrap();
        assert_eq!(inode.file_type(), Some(want), "mode {bits:o}");
        assert_eq!(inode.permissions(), 0o644);
    }
}

#[test]
fn an_undefined_type_nibble_decodes_to_nothing() {
    let inode = Inode::parse(&item(0o030644), 300).unwrap();
    assert_eq!(inode.file_type(), None);
    assert!(!inode.is_dir() && !inode.is_regular_file() && !inode.is_symlink());
}

#[test]
fn type_predicates_agree_with_the_decoded_type() {
    assert!(Inode::parse(&item(0o040755), 256).unwrap().is_dir());
    assert!(Inode::parse(&item(0o100644), 257)
        .unwrap()
        .is_regular_file());
    assert!(Inode::parse(&item(0o120777), 258).unwrap().is_symlink());
}

#[test]
fn permissions_keep_the_set_id_and_sticky_bits() {
    let inode = Inode::parse(&item(0o104755), 300).unwrap();
    assert_eq!(inode.permissions(), 0o4755);
    assert_eq!(inode.file_type(), Some(FileType::Regular));
}

#[test]
fn rejects_an_item_too_short_to_be_an_inode() {
    let short = vec![0u8; INODE_ITEM_SIZE - 1];
    match Inode::parse(&short, 300) {
        Err(Error::BadSuperblock(m)) => assert!(m.contains("300"), "message lost the ino: {m}"),
        other => panic!("expected a refusal, got {other:?}"),
    }
}

#[test]
fn accepts_an_item_longer_than_todays_struct() {
    let mut long = item(0o100644);
    long.extend_from_slice(&[0xAB; 32]);
    assert_eq!(Inode::parse(&long, 300).unwrap().size, 33);
}

#[test]
fn rejects_a_nanosecond_count_of_a_second_or_more() {
    for (off, name) in [
        (offsets::ATIME, "atime"),
        (offsets::CTIME, "ctime"),
        (offsets::MTIME, "mtime"),
        (offsets::OTIME, "otime"),
    ] {
        let mut b = item(0o100644);
        b[off + 8..off + 12].copy_from_slice(&NSEC_PER_SEC.to_le_bytes());
        match Inode::parse(&b, 300) {
            Err(Error::BadSuperblock(m)) => {
                assert!(m.contains(name), "message did not name {name}: {m}")
            }
            other => panic!("expected a refusal for {name}, got {other:?}"),
        }
    }
}

#[test]
fn a_second_count_above_the_signed_range_reads_as_a_negative_date() {
    let mut b = item(0o100644);
    b[offsets::ATIME..offsets::ATIME + 8].copy_from_slice(&(-1i64).to_le_bytes());
    assert_eq!(Inode::parse(&b, 300).unwrap().atime.sec, -1);
}

#[test]
fn the_timestamps_end_exactly_at_the_end_of_the_item() {
    assert_eq!(offsets::OTIME + TIMESPEC_SIZE, INODE_ITEM_SIZE);
    assert_eq!(offsets::CTIME - offsets::ATIME, TIMESPEC_SIZE);
    assert_eq!(offsets::MTIME - offsets::CTIME, TIMESPEC_SIZE);
    assert_eq!(offsets::OTIME - offsets::MTIME, TIMESPEC_SIZE);
    assert_eq!(offsets::ATIME - offsets::RESERVED, 4 * 8);
}
