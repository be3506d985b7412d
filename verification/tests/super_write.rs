//! Superblocks as a commit leaves them.

use fs_btrfs::super_write::{
    apply, backup_slot, backup_slot_offset, offsets, Commit, ROOT_BACKUP_SIZE, SUPERBLOCK_SIZE,
};
use fs_btrfs::superblock::ChecksumType;

#[test]
fn the_backup_slot_is_the_generation_before_it_modulo_four() {
    assert_eq!(backup_slot(1), 0);
    assert_eq!(backup_slot(2), 1);
    assert_eq!(backup_slot(3), 2);
    assert_eq!(backup_slot(4), 3);
    assert_eq!(backup_slot(5), 0, "and round again");

    assert_eq!(backup_slot(7), 2);
    assert_eq!(backup_slot(8), 3);
}

#[test]
fn the_ring_fits_in_the_superblock() {
    assert_eq!(backup_slot_offset(1), offsets::ROOT_BACKUPS);
    assert_eq!(
        backup_slot_offset(2),
        offsets::ROOT_BACKUPS + ROOT_BACKUP_SIZE
    );
    let last = backup_slot_offset(4) + ROOT_BACKUP_SIZE;
    assert!(
        last <= SUPERBLOCK_SIZE,
        "the four slots end at {last}, past the superblock"
    );
}

#[test]
fn a_short_buffer_is_refused() {
    let mut small = vec![0u8; 512];
    assert!(apply(&mut small, ChecksumType::Crc32c, &Commit::default()).is_err());
}
