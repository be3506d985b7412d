//! Superblock parsing and validation.

use fs_btrfs::bytes::le16;
use fs_btrfs::error::Error;
use fs_btrfs::superblock::{
    compat_ro, dev_item_offsets, incompat, offsets, super_flags, ChecksumType, Superblock,
    BTRFS_MAGIC, BTRFS_MAGIC_LE64, CSUM_SIZE, DEV_ITEM_SIZE, LABEL_SIZE, MAX_LEVEL,
    SUPER_INFO_OFFSET, SUPER_INFO_SIZE, SUPER_OFFSETS, SYS_CHUNK_ARRAY_SIZE, UUID_SIZE,
};

const TEST_FSID: [u8; UUID_SIZE] = [0xA1; UUID_SIZE];
const TEST_DEV_UUID: [u8; UUID_SIZE] = [0xB2; UUID_SIZE];

fn sb_bytes() -> Vec<u8> {
    let mut b = vec![0u8; SUPER_INFO_SIZE];
    b[offsets::MAGIC..offsets::MAGIC + 8].copy_from_slice(&BTRFS_MAGIC);
    b[offsets::FSID..offsets::FSID + UUID_SIZE].copy_from_slice(&TEST_FSID);
    put64(&mut b, offsets::BYTENR, SUPER_INFO_OFFSET);
    put64(&mut b, offsets::GENERATION, 7);
    put64(&mut b, offsets::ROOT, 0x2000_0000);
    put64(&mut b, offsets::CHUNK_ROOT, 0x100_0000);
    put64(&mut b, offsets::TOTAL_BYTES, 1 << 30);
    put64(&mut b, offsets::BYTES_USED, 1 << 20);
    put64(&mut b, offsets::ROOT_DIR_OBJECTID, 6);
    put64(&mut b, offsets::NUM_DEVICES, 1);
    put32(&mut b, offsets::SECTORSIZE, 4096);
    put32(&mut b, offsets::NODESIZE, 16384);
    put32(&mut b, offsets::LEAFSIZE, 16384);
    put32(&mut b, offsets::STRIPESIZE, 4096);
    put32(&mut b, offsets::SYS_CHUNK_ARRAY_SIZE, 97);
    put64(&mut b, offsets::CHUNK_ROOT_GENERATION, 7);
    put64(
        &mut b,
        offsets::INCOMPAT_FLAGS,
        incompat::MIXED_BACKREF | incompat::BIG_METADATA | incompat::SKINNY_METADATA,
    );
    put16(&mut b, offsets::CSUM_TYPE, 0);
    b[offsets::ROOT_LEVEL] = 1;
    b[offsets::CHUNK_ROOT_LEVEL] = 0;
    b[offsets::LOG_ROOT_LEVEL] = 0;

    let d = offsets::DEV_ITEM;
    put64(&mut b, d + dev_item_offsets::DEVID, 1);
    put64(&mut b, d + dev_item_offsets::TOTAL_BYTES, 1 << 30);
    put64(&mut b, d + dev_item_offsets::BYTES_USED, 1 << 20);
    put32(&mut b, d + dev_item_offsets::IO_ALIGN, 4096);
    put32(&mut b, d + dev_item_offsets::IO_WIDTH, 4096);
    put32(&mut b, d + dev_item_offsets::SECTOR_SIZE, 4096);
    b[d + dev_item_offsets::UUID..d + dev_item_offsets::UUID + UUID_SIZE]
        .copy_from_slice(&TEST_DEV_UUID);
    b[d + dev_item_offsets::FSID..d + dev_item_offsets::FSID + UUID_SIZE]
        .copy_from_slice(&TEST_FSID);

    b[offsets::LABEL..offsets::LABEL + 5].copy_from_slice(b"disks");

    reseal(&mut b);
    b
}

fn reseal(b: &mut [u8]) {
    let t = ChecksumType::from_raw(le16(b, offsets::CSUM_TYPE)).unwrap_or(ChecksumType::Crc32c);
    let digest = t.digest(&b[CSUM_SIZE..SUPER_INFO_SIZE]);
    b[..CSUM_SIZE].copy_from_slice(&digest);
}

fn put16(b: &mut [u8], off: usize, v: u16) {
    b[off..off + 2].copy_from_slice(&v.to_le_bytes());
}
fn put32(b: &mut [u8], off: usize, v: u32) {
    b[off..off + 4].copy_from_slice(&v.to_le_bytes());
}
fn put64(b: &mut [u8], off: usize, v: u64) {
    b[off..off + 8].copy_from_slice(&v.to_le_bytes());
}

#[test]
fn magic_bytes_and_u64_form_agree() {
    assert_eq!(u64::from_le_bytes(BTRFS_MAGIC), BTRFS_MAGIC_LE64);
    assert_eq!(&BTRFS_MAGIC, b"_BHRfS_M");
}

#[test]
fn offsets_are_contiguous_and_end_where_the_format_says() {
    assert_eq!(offsets::CSUM + CSUM_SIZE, offsets::FSID);
    assert_eq!(offsets::FSID + UUID_SIZE, offsets::BYTENR);
    assert_eq!(offsets::BYTENR + 8, offsets::FLAGS);
    assert_eq!(offsets::FLAGS + 8, offsets::MAGIC);
    assert_eq!(offsets::MAGIC + 8, offsets::GENERATION);
    assert_eq!(offsets::GENERATION + 8, offsets::ROOT);
    assert_eq!(offsets::ROOT + 8, offsets::CHUNK_ROOT);
    assert_eq!(offsets::CHUNK_ROOT + 8, offsets::LOG_ROOT);
    assert_eq!(offsets::LOG_ROOT + 8, offsets::LOG_ROOT_TRANSID);
    assert_eq!(offsets::LOG_ROOT_TRANSID + 8, offsets::TOTAL_BYTES);
    assert_eq!(offsets::TOTAL_BYTES + 8, offsets::BYTES_USED);
    assert_eq!(offsets::BYTES_USED + 8, offsets::ROOT_DIR_OBJECTID);
    assert_eq!(offsets::ROOT_DIR_OBJECTID + 8, offsets::NUM_DEVICES);
    assert_eq!(offsets::NUM_DEVICES + 8, offsets::SECTORSIZE);
    assert_eq!(offsets::SECTORSIZE + 4, offsets::NODESIZE);
    assert_eq!(offsets::NODESIZE + 4, offsets::LEAFSIZE);
    assert_eq!(offsets::LEAFSIZE + 4, offsets::STRIPESIZE);
    assert_eq!(offsets::STRIPESIZE + 4, offsets::SYS_CHUNK_ARRAY_SIZE);
    assert_eq!(
        offsets::SYS_CHUNK_ARRAY_SIZE + 4,
        offsets::CHUNK_ROOT_GENERATION
    );
    assert_eq!(offsets::CHUNK_ROOT_GENERATION + 8, offsets::COMPAT_FLAGS);
    assert_eq!(offsets::COMPAT_FLAGS + 8, offsets::COMPAT_RO_FLAGS);
    assert_eq!(offsets::COMPAT_RO_FLAGS + 8, offsets::INCOMPAT_FLAGS);
    assert_eq!(offsets::INCOMPAT_FLAGS + 8, offsets::CSUM_TYPE);
    assert_eq!(offsets::CSUM_TYPE + 2, offsets::ROOT_LEVEL);
    assert_eq!(offsets::ROOT_LEVEL + 1, offsets::CHUNK_ROOT_LEVEL);
    assert_eq!(offsets::CHUNK_ROOT_LEVEL + 1, offsets::LOG_ROOT_LEVEL);
    assert_eq!(offsets::LOG_ROOT_LEVEL + 1, offsets::DEV_ITEM);
    assert_eq!(offsets::DEV_ITEM + DEV_ITEM_SIZE, offsets::LABEL);
    assert_eq!(offsets::LABEL + LABEL_SIZE, offsets::CACHE_GENERATION);
    assert_eq!(offsets::CACHE_GENERATION + 8, offsets::UUID_TREE_GENERATION);
    assert_eq!(offsets::UUID_TREE_GENERATION + 8, offsets::METADATA_UUID);
    assert_eq!(offsets::METADATA_UUID + UUID_SIZE, offsets::NR_GLOBAL_ROOTS);
    assert_eq!(offsets::NR_GLOBAL_ROOTS + 8 + 216, offsets::SYS_CHUNK_ARRAY);
    assert_eq!(
        offsets::SYS_CHUNK_ARRAY + SYS_CHUNK_ARRAY_SIZE,
        offsets::SUPER_ROOTS
    );
    assert_eq!(offsets::SUPER_ROOTS + 4 * 168 + 565, SUPER_INFO_SIZE);
}

#[test]
fn dev_item_offsets_close_on_its_size() {
    assert_eq!(dev_item_offsets::FSID + UUID_SIZE, DEV_ITEM_SIZE);
}

#[test]
fn parses_a_valid_superblock() {
    let sb = Superblock::parse(&sb_bytes()).unwrap();
    assert_eq!(sb.bytenr, SUPER_INFO_OFFSET);
    assert_eq!(sb.sectorsize, 4096);
    assert_eq!(sb.nodesize, 16384);
    assert_eq!(sb.num_devices, 1);
    assert_eq!(sb.generation, 7);
    assert_eq!(sb.root, 0x2000_0000);
    assert_eq!(sb.chunk_root, 0x100_0000);
    assert_eq!(sb.total_bytes, 1 << 30);
    assert_eq!(sb.csum_type, ChecksumType::Crc32c);
    assert_eq!(sb.label, "disks");
    assert_eq!(sb.fsid, TEST_FSID);
    assert_eq!(sb.dev_item.devid, 1);
    assert_eq!(sb.dev_item.uuid, TEST_DEV_UUID);
    assert!(!sb.has_dirty_log());
}

#[test]
fn parse_at_accepts_the_matching_offset() {
    let sb = Superblock::parse_at(&sb_bytes(), SUPER_INFO_OFFSET).unwrap();
    assert_eq!(sb.bytenr, SUPER_INFO_OFFSET);
}

#[test]
fn parse_at_rejects_a_misdirected_read() {
    assert!(matches!(
        Superblock::parse_at(&sb_bytes(), SUPER_OFFSETS[1]),
        Err(Error::BlockIdentityMismatch { .. })
    ));
}

#[test]
fn rejects_wrong_magic() {
    let mut b = sb_bytes();
    b[offsets::MAGIC..offsets::MAGIC + 8].copy_from_slice(b"NOTBTRFS");
    reseal(&mut b);
    assert!(matches!(Superblock::parse(&b), Err(Error::NotBtrfs { .. })));
}

#[test]
fn rejects_byte_reversed_magic() {
    let mut b = sb_bytes();
    let mut rev = BTRFS_MAGIC;
    rev.reverse();
    b[offsets::MAGIC..offsets::MAGIC + 8].copy_from_slice(&rev);
    reseal(&mut b);
    assert!(matches!(Superblock::parse(&b), Err(Error::NotBtrfs { .. })));
}

#[test]
fn rejects_short_buffer() {
    assert!(matches!(
        Superblock::parse(&[0u8; 512]),
        Err(Error::BadSuperblock(_))
    ));
    assert!(matches!(
        Superblock::parse(&vec![0u8; SUPER_INFO_SIZE - 1]),
        Err(Error::BadSuperblock(_))
    ));
}

#[test]
fn rejects_a_corrupt_checksum() {
    let mut b = sb_bytes();
    b[offsets::GENERATION] ^= 0xFF;
    assert!(matches!(
        Superblock::parse(&b),
        Err(Error::ChecksumMismatch { .. })
    ));
}

#[test]
fn checksum_covers_the_whole_structure_not_just_parsed_fields() {
    let mut b = sb_bytes();
    b[SUPER_INFO_SIZE - 1] ^= 0xFF;
    assert!(matches!(
        Superblock::parse(&b),
        Err(Error::ChecksumMismatch { .. })
    ));
}

#[test]
fn crc32c_ignores_the_unused_tail_of_the_csum_field() {
    let mut b = sb_bytes();
    b[8] = 0xEE;
    b[31] = 0xEE;
    assert!(Superblock::parse(&b).is_ok());
}

#[test]
fn parses_every_supported_checksum_type() {
    for (raw, want) in [
        (0u16, ChecksumType::Crc32c),
        (1, ChecksumType::XxHash64),
        (2, ChecksumType::Sha256),
        (3, ChecksumType::Blake2b256),
    ] {
        let mut b = sb_bytes();
        put16(&mut b, offsets::CSUM_TYPE, raw);
        reseal(&mut b);
        let sb = Superblock::parse(&b).unwrap_or_else(|e| panic!("csum_type {raw}: {e:?}"));
        assert_eq!(sb.csum_type, want);
        assert_eq!(sb.csum_type.to_raw(), raw);
    }
}

#[test]
fn a_checksum_from_the_wrong_algorithm_is_rejected() {
    let mut b = sb_bytes();
    put16(&mut b, offsets::CSUM_TYPE, 2);
    assert!(matches!(
        Superblock::parse(&b),
        Err(Error::ChecksumMismatch { .. })
    ));
}

#[test]
fn rejects_unknown_checksum_type() {
    let mut b = sb_bytes();
    put16(&mut b, offsets::CSUM_TYPE, 9);
    assert!(matches!(
        Superblock::parse(&b),
        Err(Error::UnsupportedChecksum(9))
    ));
}

#[test]
fn rejects_unknown_incompat_bit() {
    let mut b = sb_bytes();
    put64(&mut b, offsets::INCOMPAT_FLAGS, 1 << 40);
    reseal(&mut b);
    assert!(matches!(
        Superblock::parse(&b),
        Err(Error::UnsupportedFeature(_))
    ));
}

#[test]
fn rejects_known_but_unimplemented_incompat_features() {
    for bit in [
        incompat::COMPRESS_LZO,
        incompat::COMPRESS_ZSTD,
        incompat::RAID56,
        incompat::ZONED,
        incompat::EXTENT_TREE_V2,
        incompat::RAID_STRIPE_TREE,
        incompat::SIMPLE_QUOTA,
        incompat::REMAP_TREE,
    ] {
        let mut b = sb_bytes();
        put64(
            &mut b,
            offsets::INCOMPAT_FLAGS,
            incompat::MIXED_BACKREF | bit,
        );
        reseal(&mut b);
        assert!(
            matches!(Superblock::parse(&b), Err(Error::UnsupportedFeature(_))),
            "incompat bit {bit:#x} should have been refused"
        );
    }
}

#[test]
fn accepts_every_supported_incompat_bit_together() {
    let mut b = sb_bytes();
    put64(&mut b, offsets::INCOMPAT_FLAGS, incompat::SUPPORTED);
    b[offsets::METADATA_UUID..offsets::METADATA_UUID + UUID_SIZE].copy_from_slice(&TEST_FSID);
    reseal(&mut b);
    assert!(Superblock::parse(&b).is_ok());
}

#[test]
fn unknown_compat_ro_bits_are_tolerated() {
    let mut b = sb_bytes();
    put64(&mut b, offsets::COMPAT_RO_FLAGS, 1 << 60);
    reseal(&mut b);
    assert!(Superblock::parse(&b).is_ok());
}

#[test]
fn reports_free_space_tree_and_block_group_tree() {
    let mut b = sb_bytes();
    put64(
        &mut b,
        offsets::COMPAT_RO_FLAGS,
        compat_ro::FREE_SPACE_TREE
            | compat_ro::FREE_SPACE_TREE_VALID
            | compat_ro::BLOCK_GROUP_TREE,
    );
    reseal(&mut b);
    let sb = Superblock::parse(&b).unwrap();
    assert!(sb.has_free_space_tree());
    assert!(sb.has_block_group_tree());
}

#[test]
fn rejects_bytenr_that_is_not_a_mirror_offset() {
    let mut b = sb_bytes();
    put64(&mut b, offsets::BYTENR, 0x1234);
    reseal(&mut b);
    assert!(matches!(
        Superblock::parse(&b),
        Err(Error::BadSuperblock(_))
    ));
}

#[test]
fn accepts_each_mirror_offset() {
    for off in SUPER_OFFSETS {
        let mut b = sb_bytes();
        put64(&mut b, offsets::BYTENR, off);
        reseal(&mut b);
        assert_eq!(Superblock::parse_at(&b, off).unwrap().bytenr, off);
    }
}

#[test]
fn rejects_bad_sectorsize() {
    for bad in [0u32, 512, 3000, 1 << 17] {
        let mut b = sb_bytes();
        put32(&mut b, offsets::SECTORSIZE, bad);
        put32(&mut b, offsets::STRIPESIZE, bad);
        reseal(&mut b);
        assert!(
            matches!(Superblock::parse(&b), Err(Error::BadSuperblock(_))),
            "sectorsize {bad} should have been refused"
        );
    }
}

#[test]
fn rejects_nodesize_below_sectorsize() {
    let mut b = sb_bytes();
    put32(&mut b, offsets::NODESIZE, 2048);
    reseal(&mut b);
    assert!(matches!(
        Superblock::parse(&b),
        Err(Error::BadSuperblock(_))
    ));
}

#[test]
fn rejects_nodesize_above_the_metadata_maximum() {
    let mut b = sb_bytes();
    put32(&mut b, offsets::NODESIZE, 1 << 17);
    reseal(&mut b);
    assert!(matches!(
        Superblock::parse(&b),
        Err(Error::BadSuperblock(_))
    ));
}

#[test]
fn rejects_stripesize_disagreeing_with_sectorsize() {
    let mut b = sb_bytes();
    put32(&mut b, offsets::STRIPESIZE, 8192);
    reseal(&mut b);
    assert!(matches!(
        Superblock::parse(&b),
        Err(Error::BadSuperblock(_))
    ));
}

#[test]
fn rejects_zero_devices() {
    let mut b = sb_bytes();
    put64(&mut b, offsets::NUM_DEVICES, 0);
    reseal(&mut b);
    assert!(matches!(
        Superblock::parse(&b),
        Err(Error::BadSuperblock(_))
    ));
}

#[test]
fn rejects_zero_or_misaligned_total_bytes() {
    for bad in [0u64, (1 << 30) + 1] {
        let mut b = sb_bytes();
        put64(&mut b, offsets::TOTAL_BYTES, bad);
        reseal(&mut b);
        assert!(
            matches!(Superblock::parse(&b), Err(Error::BadSuperblock(_))),
            "total_bytes {bad} should have been refused"
        );
    }
}

#[test]
fn rejects_bytes_used_exceeding_total() {
    let mut b = sb_bytes();
    put64(&mut b, offsets::BYTES_USED, (1u64 << 30) + 4096);
    put64(&mut b, offsets::TOTAL_BYTES, 1 << 30);
    reseal(&mut b);
    assert!(matches!(
        Superblock::parse(&b),
        Err(Error::BadSuperblock(_))
    ));
}

#[test]
fn rejects_impossible_tree_heights() {
    for off in [
        offsets::ROOT_LEVEL,
        offsets::CHUNK_ROOT_LEVEL,
        offsets::LOG_ROOT_LEVEL,
    ] {
        let mut b = sb_bytes();
        b[off] = MAX_LEVEL;
        reseal(&mut b);
        assert!(
            matches!(Superblock::parse(&b), Err(Error::BadSuperblock(_))),
            "level field at {off:#x} should have been refused"
        );
    }
}

#[test]
fn rejects_unaligned_tree_roots() {
    for off in [offsets::ROOT, offsets::CHUNK_ROOT, offsets::LOG_ROOT] {
        let mut b = sb_bytes();
        put64(&mut b, off, 0x2000_0001);
        reseal(&mut b);
        assert!(
            matches!(Superblock::parse(&b), Err(Error::BadSuperblock(_))),
            "unaligned address at {off:#x} should have been refused"
        );
    }
}

#[test]
fn rejects_zero_chunk_root() {
    let mut b = sb_bytes();
    put64(&mut b, offsets::CHUNK_ROOT, 0);
    reseal(&mut b);
    assert!(matches!(
        Superblock::parse(&b),
        Err(Error::BadSuperblock(_))
    ));
}

#[test]
fn rejects_sys_chunk_array_size_out_of_range() {
    for bad in [0u32, 96, (SYS_CHUNK_ARRAY_SIZE + 1) as u32] {
        let mut b = sb_bytes();
        put32(&mut b, offsets::SYS_CHUNK_ARRAY_SIZE, bad);
        reseal(&mut b);
        assert!(
            matches!(Superblock::parse(&b), Err(Error::BadSuperblock(_))),
            "sys_chunk_array_size {bad} should have been refused"
        );
    }
}

#[test]
fn copies_out_exactly_the_valid_prefix_of_the_sys_chunk_array() {
    let mut b = sb_bytes();
    put32(&mut b, offsets::SYS_CHUNK_ARRAY_SIZE, 200);
    for (i, slot) in b[offsets::SYS_CHUNK_ARRAY..offsets::SYS_CHUNK_ARRAY + 300]
        .iter_mut()
        .enumerate()
    {
        *slot = (i % 251) as u8;
    }
    reseal(&mut b);
    let sb = Superblock::parse(&b).unwrap();
    assert_eq!(sb.sys_chunk_array.len(), 200);
    assert_eq!(sb.sys_chunk_array[0], 0);
    assert_eq!(sb.sys_chunk_array[199], 199);
}

#[test]
fn rejects_dev_item_fsid_mismatch() {
    let mut b = sb_bytes();
    let d = offsets::DEV_ITEM + dev_item_offsets::FSID;
    b[d..d + UUID_SIZE].copy_from_slice(&[0xCC; UUID_SIZE]);
    reseal(&mut b);
    assert!(matches!(
        Superblock::parse(&b),
        Err(Error::BadSuperblock(_))
    ));
}

#[test]
fn tolerates_dev_item_fsid_mismatch_while_identity_is_in_flux() {
    for flag in [
        super_flags::SEEDING,
        super_flags::CHANGING_FSID,
        super_flags::CHANGING_FSID_V2,
    ] {
        let mut b = sb_bytes();
        let d = offsets::DEV_ITEM + dev_item_offsets::FSID;
        b[d..d + UUID_SIZE].copy_from_slice(&[0xCC; UUID_SIZE]);
        put64(&mut b, offsets::FLAGS, flag);
        reseal(&mut b);
        assert!(
            Superblock::parse(&b).is_ok(),
            "flag {flag:#x} should have suspended the fsid identity check"
        );
    }
}

#[test]
fn node_uuid_follows_the_metadata_uuid_feature() {
    let plain = Superblock::parse(&sb_bytes()).unwrap();
    assert_eq!(plain.node_uuid(), plain.fsid);

    let mut b = sb_bytes();
    put64(
        &mut b,
        offsets::INCOMPAT_FLAGS,
        incompat::MIXED_BACKREF | incompat::METADATA_UUID,
    );
    let meta = [0x5A; UUID_SIZE];
    b[offsets::METADATA_UUID..offsets::METADATA_UUID + UUID_SIZE].copy_from_slice(&meta);
    let d = offsets::DEV_ITEM + dev_item_offsets::FSID;
    b[d..d + UUID_SIZE].copy_from_slice(&meta);
    reseal(&mut b);
    let sb = Superblock::parse(&b).unwrap();
    assert_eq!(sb.node_uuid(), meta);
    assert_ne!(sb.node_uuid(), sb.fsid);
}

#[test]
fn reports_a_dirty_log() {
    let mut b = sb_bytes();
    put64(&mut b, offsets::LOG_ROOT, 0x3000_0000);
    reseal(&mut b);
    let sb = Superblock::parse(&b).unwrap();
    assert!(sb.has_dirty_log());
}

#[test]
fn reports_flag_bits() {
    let mut b = sb_bytes();
    put64(
        &mut b,
        offsets::FLAGS,
        super_flags::ERROR | super_flags::METADUMP_V2,
    );
    reseal(&mut b);
    let sb = Superblock::parse(&b).unwrap();
    assert!(sb.has_error_flag());
    assert!(sb.is_metadump());
    assert!(!sb.is_seeding());
}

#[test]
fn label_is_trimmed_at_the_first_nul_and_a_full_label_survives() {
    let sb = Superblock::parse(&sb_bytes()).unwrap();
    assert_eq!(sb.label, "disks");

    let mut b = sb_bytes();
    b[offsets::LABEL..offsets::LABEL + LABEL_SIZE].copy_from_slice(&[b'x'; LABEL_SIZE]);
    reseal(&mut b);
    assert_eq!(Superblock::parse(&b).unwrap().label.len(), LABEL_SIZE);
}

#[test]
fn checksum_digest_lengths_match_the_algorithms() {
    assert_eq!(ChecksumType::Crc32c.digest_len(), 4);
    assert_eq!(ChecksumType::XxHash64.digest_len(), 8);
    assert_eq!(ChecksumType::Sha256.digest_len(), 32);
    assert_eq!(ChecksumType::Blake2b256.digest_len(), 32);
    for t in [
        ChecksumType::Crc32c,
        ChecksumType::XxHash64,
        ChecksumType::Sha256,
        ChecksumType::Blake2b256,
    ] {
        let d = t.digest(b"btrfs");
        assert_eq!(d.len(), CSUM_SIZE);
        assert!(d[t.digest_len()..].iter().all(|&b| b == 0));
        assert!(t.verify(b"btrfs", &d));
        assert!(!t.verify(b"btrfz", &d));
        assert!(!t.verify(b"btrfs", &d[..t.digest_len() - 1]));
    }
}

#[test]
fn crc32c_digest_is_stored_little_endian() {
    let raw = crc32c::crc32c(b"btrfs");
    let d = ChecksumType::Crc32c.digest(b"btrfs");
    assert_eq!(&d[..4], &raw.to_le_bytes());
    assert_ne!(&d[..4], &raw.to_be_bytes());
}
