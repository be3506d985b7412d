//! Finding the root of a tree.

use fs_btrfs::btree::{
    header_offsets, Tree, TreeGeometry, HEADER_SIZE, ITEM_SIZE, LEAF_DATA_OFFSET,
};
use fs_btrfs::chunk::{objectid, DiskKey};
use fs_btrfs::error::Result;
use fs_btrfs::fs::{root_item, ROOT_ITEM_KEY};
use fs_btrfs::superblock::{ChecksumType, CSUM_SIZE, UUID_SIZE};
use fs_btrfs::volume::root_item_target;

const NODESIZE: u32 = 4096;
const FSID: [u8; UUID_SIZE] = [0x5A; UUID_SIZE];
const CSUM: ChecksumType = ChecksumType::Crc32c;
const LEAF_A: u64 = 0x1000;

fn geom() -> TreeGeometry {
    TreeGeometry {
        nodesize: NODESIZE,
        csum_type: CSUM,
        fsid: FSID,
    }
}

fn key(objectid: u64, key_type: u8, offset: u64) -> DiskKey {
    DiskKey {
        objectid,
        key_type,
        offset,
    }
}

fn put_key(b: &mut [u8], at: usize, k: &DiskKey) {
    b[at..at + 8].copy_from_slice(&k.objectid.to_le_bytes());
    b[at + 8] = k.key_type;
    b[at + 9..at + 17].copy_from_slice(&k.offset.to_le_bytes());
}

fn leaf(bytenr: u64, owner: u64, items: &[(DiskKey, Vec<u8>)]) -> Vec<u8> {
    let mut b = vec![0u8; NODESIZE as usize];
    b[header_offsets::FSID..header_offsets::FSID + UUID_SIZE].copy_from_slice(&FSID);
    b[header_offsets::BYTENR..header_offsets::BYTENR + 8].copy_from_slice(&bytenr.to_le_bytes());
    b[header_offsets::GENERATION..header_offsets::GENERATION + 8]
        .copy_from_slice(&9u64.to_le_bytes());
    b[header_offsets::OWNER..header_offsets::OWNER + 8].copy_from_slice(&owner.to_le_bytes());
    b[header_offsets::NRITEMS..header_offsets::NRITEMS + 4]
        .copy_from_slice(&(items.len() as u32).to_le_bytes());
    let mut data_end = NODESIZE as usize - LEAF_DATA_OFFSET;
    for (i, (k, data)) in items.iter().enumerate() {
        data_end -= data.len();
        let at = HEADER_SIZE + i * ITEM_SIZE;
        put_key(&mut b, at, k);
        b[at + 17..at + 21].copy_from_slice(&(data_end as u32).to_le_bytes());
        b[at + 21..at + 25].copy_from_slice(&(data.len() as u32).to_le_bytes());
        let start = LEAF_DATA_OFFSET + data_end;
        b[start..start + data.len()].copy_from_slice(data);
    }
    let digest = CSUM.digest(&b[CSUM_SIZE..]);
    b[..CSUM_SIZE].copy_from_slice(&digest);
    b
}

fn minimal_root_item(bytenr: u64) -> Vec<u8> {
    let mut body = vec![0u8; root_item::BYTENR + 8];
    body[root_item::BYTENR..root_item::BYTENR + 8].copy_from_slice(&bytenr.to_le_bytes());
    body
}

fn tree_over(block: Vec<u8>) -> (Vec<u8>, u64) {
    (block, LEAF_A)
}

fn lookup(entries: &[(DiskKey, Vec<u8>)], objectid: u64) -> Result<u64> {
    let (block, at) = tree_over(leaf(LEAF_A, objectid::ROOT_TREE, entries));
    let read = |logical: u64, len: usize| -> Result<Vec<u8>> {
        assert_eq!(logical, at, "the walk asked for a block that is not there");
        Ok(block[..len].to_vec())
    };
    let tree = Tree::new(geom(), &read);
    root_item_target(&tree, at, objectid)
}

#[test]
fn a_root_item_long_enough_to_answer_from_is_accepted() {
    let entries = vec![(key(7, ROOT_ITEM_KEY, 0), minimal_root_item(0xABCD_0000))];
    assert_eq!(lookup(&entries, 7).unwrap(), 0xABCD_0000);
}

#[test]
fn a_root_item_one_byte_too_short_is_not_used() {
    let mut short = minimal_root_item(0xABCD_0000);
    short.pop();
    let entries = vec![(key(7, ROOT_ITEM_KEY, 0), short)];
    assert!(
        lookup(&entries, 7).is_err(),
        "a body that cannot hold the field must not be read from"
    );
}

#[test]
fn the_first_matching_root_item_is_the_answer() {
    let entries = vec![
        (key(7, ROOT_ITEM_KEY, 0), minimal_root_item(0x1111_0000)),
        (key(7, ROOT_ITEM_KEY, 1), minimal_root_item(0x2222_0000)),
    ];
    assert_eq!(lookup(&entries, 7).unwrap(), 0x1111_0000);
}

#[test]
fn a_missing_root_item_is_an_error_naming_the_tree() {
    let entries = vec![(key(7, ROOT_ITEM_KEY, 0), minimal_root_item(1))];
    let err = lookup(&entries, 9).unwrap_err();
    assert!(
        err.to_string().contains('9'),
        "the error should name the tree that is missing, got: {err:?}"
    );
}

#[test]
fn only_root_items_are_considered() {
    let entries = vec![(key(7, ROOT_ITEM_KEY + 1, 0), minimal_root_item(0x3333_0000))];
    assert!(lookup(&entries, 7).is_err());
}

#[test]
fn the_fixture_leaf_has_room_for_two_root_items() {
    assert!(NODESIZE as usize > 2 * (root_item::BYTENR + 8) + 128);
}
