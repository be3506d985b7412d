//! Digests of data sectors.

use fs_btrfs::btree::{
    header_offsets, Tree, TreeGeometry, HEADER_SIZE, ITEM_SIZE, LEAF_DATA_OFFSET,
};
use fs_btrfs::chunk::DiskKey;
use fs_btrfs::csum::{
    digests_for_range, CSUM_TREE_OBJECTID, EXTENT_CSUM_KEY, EXTENT_CSUM_OBJECTID,
};
use fs_btrfs::error::Result;
use fs_btrfs::superblock::{ChecksumType, CSUM_SIZE, UUID_SIZE};

const NODESIZE: u32 = 4096;
const FSID: [u8; UUID_SIZE] = [0x5A; UUID_SIZE];
const CSUM: ChecksumType = ChecksumType::Crc32c;
const LEAF_A: u64 = 0x1000;

fn geom() -> TreeGeometry {
    TreeGeometry {
        nodesize: NODESIZE,
        csum_type: CSUM,
        fsid: FSID,
    }
}

fn key(objectid: u64, key_type: u8, offset: u64) -> DiskKey {
    DiskKey {
        objectid,
        key_type,
        offset,
    }
}

fn put_key(b: &mut [u8], at: usize, k: &DiskKey) {
    b[at..at + 8].copy_from_slice(&k.objectid.to_le_bytes());
    b[at + 8] = k.key_type;
    b[at + 9..at + 17].copy_from_slice(&k.offset.to_le_bytes());
}

fn leaf(bytenr: u64, owner: u64, items: &[(DiskKey, Vec<u8>)]) -> Vec<u8> {
    let mut b = vec![0u8; NODESIZE as usize];
    b[header_offsets::FSID..header_offsets::FSID + UUID_SIZE].copy_from_slice(&FSID);
    b[header_offsets::BYTENR..header_offsets::BYTENR + 8].copy_from_slice(&bytenr.to_le_bytes());
    b[header_offsets::GENERATION..header_offsets::GENERATION + 8]
        .copy_from_slice(&9u64.to_le_bytes());
    b[header_offsets::OWNER..header_offsets::OWNER + 8].copy_from_slice(&owner.to_le_bytes());
    b[header_offsets::NRITEMS..header_offsets::NRITEMS + 4]
        .copy_from_slice(&(items.len() as u32).to_le_bytes());
    let mut data_end = NODESIZE as usize - LEAF_DATA_OFFSET;
    for (i, (k, data)) in items.iter().enumerate() {
        data_end -= data.len();
        let at = HEADER_SIZE + i * ITEM_SIZE;
        put_key(&mut b, at, k);
        b[at + 17..at + 21].copy_from_slice(&(data_end as u32).to_le_bytes());
        b[at + 21..at + 25].copy_from_slice(&(data.len() as u32).to_le_bytes());
        let start = LEAF_DATA_OFFSET + data_end;
        b[start..start + data.len()].copy_from_slice(data);
    }
    let digest = CSUM.digest(&b[CSUM_SIZE..]);
    b[..CSUM_SIZE].copy_from_slice(&digest);
    b
}

fn tree_over(block: Vec<u8>) -> (Vec<u8>, u64) {
    (block, LEAF_A)
}

fn four_sector_item(first_logical: u64) -> (DiskKey, Vec<u8>) {
    let mut data = Vec::new();
    for i in 0..4u8 {
        data.extend_from_slice(&[0xA0 + i; 4]);
    }
    (
        key(EXTENT_CSUM_OBJECTID, EXTENT_CSUM_KEY, first_logical),
        data,
    )
}

#[test]
fn a_sector_inside_a_run_gets_the_digest_from_the_item_that_starts_before_it() {
    let sectorsize = 4096u64;
    let base = 1 << 20;
    let (k, data) = four_sector_item(base);
    let (block, at) = tree_over(leaf(LEAF_A, CSUM_TREE_OBJECTID, &[(k, data)]));
    let read = |logical: u64, len: usize| -> Result<Vec<u8>> {
        assert_eq!(logical, at);
        Ok(block[..len].to_vec())
    };
    let tree = Tree::new(geom(), &read);

    let third = base + 2 * sectorsize;
    let found = digests_for_range(&tree, at, 4, sectorsize, third, sectorsize).unwrap();
    assert_eq!(found.len(), 1, "the covering item was not found");
    assert_eq!(found[&third], vec![0xA2; 4]);
}

#[test]
fn a_run_yields_one_digest_per_sector() {
    let sectorsize = 4096u64;
    let base = 1 << 20;
    let (k, data) = four_sector_item(base);
    let (block, at) = tree_over(leaf(LEAF_A, CSUM_TREE_OBJECTID, &[(k, data)]));
    let read = |_logical: u64, len: usize| -> Result<Vec<u8>> {
        Ok(block[..len].to_vec())
    };
    let tree = Tree::new(geom(), &read);

    let found = digests_for_range(&tree, at, 4, sectorsize, base, 4 * sectorsize).unwrap();
    assert_eq!(found.len(), 4);
    for i in 0..4u64 {
        assert_eq!(found[&(base + i * sectorsize)], vec![0xA0 + i as u8; 4]);
    }
}

#[test]
fn a_sector_no_item_covers_is_absent_rather_than_zero() {
    let sectorsize = 4096u64;
    let base = 1 << 20;
    let (k, data) = four_sector_item(base);
    let (block, at) = tree_over(leaf(LEAF_A, CSUM_TREE_OBJECTID, &[(k, data)]));
    let read = |_logical: u64, len: usize| -> Result<Vec<u8>> {
        Ok(block[..len].to_vec())
    };
    let tree = Tree::new(geom(), &read);

    let past = base + 4 * sectorsize;
    let found = digests_for_range(&tree, at, 4, sectorsize, past, sectorsize).unwrap();
    assert!(
        found.is_empty(),
        "invented a digest for an uncovered sector"
    );
}

#[test]
fn the_digest_length_decides_how_many_sectors_an_item_covers() {
    let sectorsize = 4096u64;
    let base = 1 << 20;
    let mut data = Vec::new();
    data.extend_from_slice(&[0x11u8; 32]);
    data.extend_from_slice(&[0x22u8; 32]);
    let k = key(EXTENT_CSUM_OBJECTID, EXTENT_CSUM_KEY, base);
    let (block, at) = tree_over(leaf(LEAF_A, CSUM_TREE_OBJECTID, &[(k, data)]));
    let read = |_logical: u64, len: usize| -> Result<Vec<u8>> {
        Ok(block[..len].to_vec())
    };
    let tree = Tree::new(geom(), &read);

    let found = digests_for_range(&tree, at, 32, sectorsize, base, 4 * sectorsize).unwrap();
    assert_eq!(found.len(), 2, "64 bytes of sha256 is two sectors");
    assert_eq!(found[&base], vec![0x11; 32]);
    assert_eq!(found[&(base + sectorsize)], vec![0x22; 32]);
}

#[test]
fn items_of_another_type_are_not_read_as_digests() {
    let sectorsize = 4096u64;
    let base = 1 << 20;
    let k = key(EXTENT_CSUM_OBJECTID, EXTENT_CSUM_KEY - 1, base);
    let (block, at) = tree_over(leaf(LEAF_A, CSUM_TREE_OBJECTID, &[(k, vec![0xFF; 16])]));
    let read = |_logical: u64, len: usize| -> Result<Vec<u8>> {
        Ok(block[..len].to_vec())
    };
    let tree = Tree::new(geom(), &read);

    let found = digests_for_range(&tree, at, 4, sectorsize, base, sectorsize).unwrap();
    assert!(found.is_empty(), "read a non-csum item as digests");
}

#[test]
fn key_encoding_round_trips() {
    let mut b = vec![0u8; 32];
    let k = key(EXTENT_CSUM_OBJECTID, EXTENT_CSUM_KEY, 4096);
    put_key(&mut b, 0, &k);
    assert_eq!(b[0..8], EXTENT_CSUM_OBJECTID.to_le_bytes());
    assert_eq!(b[8], EXTENT_CSUM_KEY);
}
