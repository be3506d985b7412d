//! Tree blocks, and walking trees of them.

use std::cmp::Ordering;

use fs_btrfs::btree::{
    compare_keys, header_flags, header_offsets, LeafItem, Tree, TreeBlock, TreeGeometry,
    HEADER_SIZE, ITEM_SIZE, KEY_PTR_SIZE, LEAF_DATA_OFFSET,
};
use fs_btrfs::chunk::{objectid, DiskKey, DISK_KEY_SIZE};
use fs_btrfs::error::{Error, Result};
use fs_btrfs::superblock::{ChecksumType, CSUM_SIZE, MAX_LEVEL, UUID_SIZE};

use std::collections::HashMap;

const NODESIZE: u32 = 4096;
const FSID: [u8; UUID_SIZE] = [0x5A; UUID_SIZE];
const CSUM: ChecksumType = ChecksumType::Crc32c;

const LEAF_A: u64 = 0x1000;
const LEAF_B: u64 = 0x2000;
const ROOT: u64 = 0x3000;

fn geom() -> TreeGeometry {
    TreeGeometry {
        nodesize: NODESIZE,
        csum_type: CSUM,
        fsid: FSID,
    }
}

fn key(objectid: u64, key_type: u8, offset: u64) -> DiskKey {
    DiskKey {
        objectid,
        key_type,
        offset,
    }
}

fn put_key(b: &mut [u8], at: usize, k: &DiskKey) {
    b[at..at + 8].copy_from_slice(&k.objectid.to_le_bytes());
    b[at + 8] = k.key_type;
    b[at + 9..at + 17].copy_from_slice(&k.offset.to_le_bytes());
}

fn put_header(b: &mut [u8], bytenr: u64, owner: u64, nritems: u32, level: u8) {
    b[header_offsets::FSID..header_offsets::FSID + UUID_SIZE].copy_from_slice(&FSID);
    b[header_offsets::BYTENR..header_offsets::BYTENR + 8].copy_from_slice(&bytenr.to_le_bytes());
    let flags = (u64::from(header_flags::MIXED_BACKREF_REV) << header_flags::BACKREF_REV_SHIFT)
        | header_flags::WRITTEN;
    b[header_offsets::FLAGS..header_offsets::FLAGS + 8].copy_from_slice(&flags.to_le_bytes());
    b[header_offsets::CHUNK_TREE_UUID..header_offsets::CHUNK_TREE_UUID + UUID_SIZE].copy_from_slice(&[0xC4; UUID_SIZE]);
    b[header_offsets::GENERATION..header_offsets::GENERATION + 8].copy_from_slice(&9u64.to_le_bytes());
    b[header_offsets::OWNER..header_offsets::OWNER + 8].copy_from_slice(&owner.to_le_bytes());
    b[header_offsets::NRITEMS..header_offsets::NRITEMS + 4].copy_from_slice(&nritems.to_le_bytes());
    b[header_offsets::LEVEL] = level;
}

fn seal(b: &mut [u8]) {
    let digest = CSUM.digest(&b[CSUM_SIZE..]);
    b[..CSUM_SIZE].copy_from_slice(&digest);
}

fn leaf(bytenr: u64, owner: u64, entries: &[(DiskKey, Vec<u8>)]) -> Vec<u8> {
    let mut b = vec![0u8; NODESIZE as usize];
    put_header(&mut b, bytenr, owner, entries.len() as u32, 0);
    let mut end = NODESIZE as usize - LEAF_DATA_OFFSET;
    for (i, (k, data)) in entries.iter().enumerate() {
        let offset = end - data.len();
        let at = LEAF_DATA_OFFSET + i * ITEM_SIZE;
        put_key(&mut b, at, k);
        b[at + DISK_KEY_SIZE..at + DISK_KEY_SIZE + 4]
            .copy_from_slice(&(offset as u32).to_le_bytes());
        b[at + DISK_KEY_SIZE + 4..at + DISK_KEY_SIZE + 8]
            .copy_from_slice(&(data.len() as u32).to_le_bytes());
        let start = LEAF_DATA_OFFSET + offset;
        b[start..start + data.len()].copy_from_slice(data);
        end = offset;
    }
    seal(&mut b);
    b
}

fn node(bytenr: u64, owner: u64, level: u8, children: &[(DiskKey, u64)]) -> Vec<u8> {
    let mut b = vec![0u8; NODESIZE as usize];
    put_header(&mut b, bytenr, owner, children.len() as u32, level);
    for (i, (k, child)) in children.iter().enumerate() {
        let at = HEADER_SIZE + i * KEY_PTR_SIZE;
        put_key(&mut b, at, k);
        b[at + DISK_KEY_SIZE..at + DISK_KEY_SIZE + 8].copy_from_slice(&child.to_le_bytes());
        b[at + DISK_KEY_SIZE + 8..at + DISK_KEY_SIZE + 16].copy_from_slice(&8u64.to_le_bytes());
    }
    seal(&mut b);
    b
}

fn two_level_tree() -> HashMap<u64, Vec<u8>> {
    let a = leaf(
        LEAF_A,
        objectid::FS_TREE,
        &[
            (key(1, 1, 0), b"a".to_vec()),
            (key(2, 1, 0), b"bb".to_vec()),
        ],
    );
    let b = leaf(
        LEAF_B,
        objectid::FS_TREE,
        &[
            (key(5, 1, 0), b"ccc".to_vec()),
            (key(9, 1, 0), b"dddd".to_vec()),
        ],
    );
    let r = node(
        ROOT,
        objectid::FS_TREE,
        1,
        &[(key(1, 1, 0), LEAF_A), (key(5, 1, 0), LEAF_B)],
    );
    HashMap::from([(LEAF_A, a), (LEAF_B, b), (ROOT, r)])
}

fn reader(blocks: &HashMap<u64, Vec<u8>>) -> impl Fn(u64, usize) -> Result<Vec<u8>> + '_ {
    move |logical, len| match blocks.get(&logical) {
        Some(block) => {
            assert_eq!(block.len(), len);
            Ok(block.clone())
        }
        None => Err(Error::Io(format!("no block at {logical:#x}"))),
    }
}

fn collect<F: Fn(u64, usize) -> Result<Vec<u8>>>(
    tree: &Tree<'_, F>,
    root: u64,
) -> Vec<(DiskKey, Vec<u8>)> {
    tree.for_each(root, &|_: &LeafItem| Ok(true))
        .unwrap()
        .into_iter()
        .map(|i| (i.key, i.data))
        .collect()
}

fn objectids(items: &[LeafItem]) -> Vec<u64> {
    items.iter().map(|i| i.key.objectid).collect()
}

#[test]
fn btree_struct_sizes_match_the_on_disk_layout() {
    assert_eq!(HEADER_SIZE, 32 + 16 + 8 + 8 + 16 + 8 + 8 + 4 + 1);
    assert_eq!(HEADER_SIZE, header_offsets::LEVEL + 1);
    assert_eq!(KEY_PTR_SIZE, 17 + 8 + 8);
    assert_eq!(ITEM_SIZE, 17 + 4 + 4);
    assert_eq!(header_offsets::CSUM, fs_btrfs::superblock::offsets::CSUM);
    assert_eq!(header_offsets::FSID, fs_btrfs::superblock::offsets::FSID);
    assert_eq!(header_offsets::BYTENR, fs_btrfs::superblock::offsets::BYTENR);
}

#[test]
fn parses_and_verifies_a_leaf_header() {
    let bytes = leaf(
        LEAF_A,
        objectid::CHUNK_TREE,
        &[(key(7, 3, 11), vec![0xAB; 6])],
    );
    let block = TreeBlock::parse(bytes, LEAF_A, &geom()).unwrap();
    assert_eq!(block.header.bytenr, LEAF_A);
    assert_eq!(block.header.owner, objectid::CHUNK_TREE);
    assert_eq!(block.header.nritems, 1);
    assert_eq!(block.header.level, 0);
    assert!(block.header.is_leaf());
    assert!(block.header.is_written());
    assert!(!block.header.is_reloc());
    assert_eq!(block.header.backref_rev(), header_flags::MIXED_BACKREF_REV);
    let items = block.body.items().unwrap();
    assert_eq!(items.len(), 1);
    assert_eq!(items[0].key, key(7, 3, 11));
    assert_eq!(block.item_data(&items[0]).unwrap(), &[0xAB; 6]);
}

#[test]
fn parses_an_internal_node() {
    let bytes = node(
        ROOT,
        objectid::ROOT_TREE,
        2,
        &[(key(1, 1, 0), LEAF_A), (key(5, 1, 0), LEAF_B)],
    );
    let block = TreeBlock::parse(bytes, ROOT, &geom()).unwrap();
    assert!(!block.is_leaf());
    assert_eq!(block.header.level, 2);
    let ptrs = block.body.key_ptrs().unwrap();
    assert_eq!(ptrs.len(), 2);
    assert_eq!(ptrs[1].blockptr, LEAF_B);
    assert_eq!(ptrs[1].generation, 8);
    assert!(block.body.items().is_none());
    assert_eq!(block.body.len(), 2);
    assert!(!block.body.is_empty());
}

#[test]
fn rejects_a_corrupted_block() {
    let mut bytes = leaf(LEAF_A, objectid::FS_TREE, &[(key(1, 1, 0), vec![1, 2, 3])]);
    bytes[HEADER_SIZE + 3] ^= 0xFF;
    assert!(matches!(
        TreeBlock::parse(bytes, LEAF_A, &geom()),
        Err(Error::ChecksumMismatch {
            what: "tree block",
            offset: LEAF_A
        })
    ));
}

#[test]
fn rejects_an_intact_block_read_from_the_wrong_address() {
    let bytes = leaf(LEAF_A, objectid::FS_TREE, &[(key(1, 1, 0), vec![1])]);
    assert!(matches!(
        TreeBlock::parse(bytes, LEAF_B, &geom()),
        Err(Error::BlockIdentityMismatch {
            what: "tree block",
            expected: LEAF_B,
            found: LEAF_A
        })
    ));
}

#[test]
fn rejects_a_block_belonging_to_another_filesystem() {
    let mut bytes = leaf(LEAF_A, objectid::FS_TREE, &[(key(1, 1, 0), vec![1])]);
    bytes[header_offsets::FSID..header_offsets::FSID + UUID_SIZE].copy_from_slice(&[0x11; 16]);
    seal(&mut bytes);
    let err = TreeBlock::parse(bytes, LEAF_A, &geom()).unwrap_err();
    assert!(
        err.to_string().contains("is not this volume's"),
        "unexpected error: {err:?}"
    );
}

#[test]
fn rejects_a_level_above_the_maximum_tree_height() {
    let mut bytes = node(ROOT, objectid::FS_TREE, 1, &[(key(1, 1, 0), LEAF_A)]);
    bytes[header_offsets::LEVEL] = MAX_LEVEL;
    seal(&mut bytes);
    let err = TreeBlock::parse(bytes, ROOT, &geom()).unwrap_err();
    assert!(
        err.to_string().contains("maximum tree height"),
        "unexpected error: {err:?}"
    );
}

#[test]
fn rejects_an_item_count_that_cannot_fit_in_the_block() {
    let mut bytes = leaf(LEAF_A, objectid::FS_TREE, &[(key(1, 1, 0), vec![1])]);
    let too_many = (NODESIZE as usize / ITEM_SIZE) as u32 + 1;
    bytes[header_offsets::NRITEMS..header_offsets::NRITEMS + 4]
        .copy_from_slice(&too_many.to_le_bytes());
    seal(&mut bytes);
    let err = TreeBlock::parse(bytes, LEAF_A, &geom()).unwrap_err();
    assert!(
        err.to_string().contains("but the node is only"),
        "unexpected error: {err:?}"
    );
}

#[test]
fn rejects_item_data_running_past_the_end_of_the_leaf() {
    let mut bytes = leaf(LEAF_A, objectid::FS_TREE, &[(key(1, 1, 0), vec![1, 2, 3])]);
    let size_at = LEAF_DATA_OFFSET + DISK_KEY_SIZE + 4;
    bytes[size_at..size_at + 4].copy_from_slice(&9999u32.to_le_bytes());
    seal(&mut bytes);
    let err = TreeBlock::parse(bytes, LEAF_A, &geom()).unwrap_err();
    assert!(
        err.to_string().contains("runs past"),
        "unexpected error: {err:?}"
    );
}

#[test]
fn rejects_item_data_overlapping_the_item_array() {
    let mut bytes = leaf(
        LEAF_A,
        objectid::FS_TREE,
        &[(key(1, 1, 0), vec![0; 8]), (key(2, 1, 0), vec![0; 8])],
    );
    let at = LEAF_DATA_OFFSET + ITEM_SIZE;
    bytes[at + DISK_KEY_SIZE..at + DISK_KEY_SIZE + 4].copy_from_slice(&0u32.to_le_bytes());
    bytes[at + DISK_KEY_SIZE + 4..at + DISK_KEY_SIZE + 8].copy_from_slice(&8u32.to_le_bytes());
    seal(&mut bytes);
    let err = TreeBlock::parse(bytes, LEAF_A, &geom()).unwrap_err();
    assert!(
        err.to_string().contains("inside the item array"),
        "unexpected error: {err:?}"
    );
}

#[test]
fn rejects_a_leaf_whose_keys_do_not_ascend() {
    let bytes = leaf(
        LEAF_A,
        objectid::FS_TREE,
        &[(key(9, 1, 0), vec![1]), (key(2, 1, 0), vec![2])],
    );
    let err = TreeBlock::parse(bytes, LEAF_A, &geom()).unwrap_err();
    assert!(
        err.to_string().contains("does not follow"),
        "unexpected error: {err:?}"
    );
}

#[test]
fn rejects_an_internal_node_with_no_children() {
    let bytes = node(ROOT, objectid::FS_TREE, 1, &[]);
    let err = TreeBlock::parse(bytes, ROOT, &geom()).unwrap_err();
    assert!(
        err.to_string().contains("no children"),
        "unexpected error: {err:?}"
    );
}

#[test]
fn compares_keys_objectid_then_type_then_offset() {
    assert_eq!(compare_keys(&key(1, 9, 9), &key(2, 0, 0)), Ordering::Less);
    assert_eq!(compare_keys(&key(1, 1, 9), &key(1, 2, 0)), Ordering::Less);
    assert_eq!(compare_keys(&key(1, 1, 1), &key(1, 1, 2)), Ordering::Less);
    assert_eq!(compare_keys(&key(1, 1, 1), &key(1, 1, 1)), Ordering::Equal);
    assert_eq!(
        compare_keys(&key(u64::MAX, 0, 0), &key(1, 0, 0)),
        Ordering::Greater
    );
}

#[test]
fn walks_a_two_level_tree_in_key_order() {
    let blocks = two_level_tree();
    let read = reader(&blocks);
    let tree = Tree::new(geom(), &read);
    let items = collect(&tree, ROOT);
    assert_eq!(
        items.iter().map(|(k, _)| k.objectid).collect::<Vec<_>>(),
        vec![1, 2, 5, 9]
    );
    assert_eq!(items[3].1, b"dddd");
}

#[test]
fn finds_an_item_in_each_leaf() {
    let blocks = two_level_tree();
    let read = reader(&blocks);
    let tree = Tree::new(geom(), &read);
    assert_eq!(
        tree.search(ROOT, &key(2, 1, 0)).unwrap().unwrap().data,
        b"bb"
    );
    assert_eq!(
        tree.search(ROOT, &key(9, 1, 0)).unwrap().unwrap().data,
        b"dddd"
    );
}

#[test]
fn reports_a_missing_key_rather_than_the_neighbouring_one() {
    let blocks = two_level_tree();
    let read = reader(&blocks);
    let tree = Tree::new(geom(), &read);
    assert!(tree.search(ROOT, &key(3, 1, 0)).unwrap().is_none());
    assert!(tree.search(ROOT, &key(0, 0, 0)).unwrap().is_none());
    assert!(tree.search(ROOT, &key(99, 1, 0)).unwrap().is_none());
    assert!(tree.search(ROOT, &key(5, 2, 0)).unwrap().is_none());
}

#[test]
fn descends_to_the_leaf_that_would_hold_a_key() {
    let blocks = two_level_tree();
    let read = reader(&blocks);
    let tree = Tree::new(geom(), &read);
    assert_eq!(
        tree.descend(ROOT, &key(2, 1, 0)).unwrap().header.bytenr,
        LEAF_A
    );
    assert_eq!(
        tree.descend(ROOT, &key(7, 1, 0)).unwrap().header.bytenr,
        LEAF_B
    );
    assert_eq!(
        tree.descend(ROOT, &key(0, 0, 0)).unwrap().header.bytenr,
        LEAF_A
    );
}

#[test]
fn iterating_from_a_key_skips_everything_before_it() {
    let blocks = two_level_tree();
    let read = reader(&blocks);
    let tree = Tree::new(geom(), &read);
    let seen = tree
        .for_each_from(ROOT, &key(5, 1, 0), &|_: &LeafItem| Ok(true))
        .unwrap();
    assert_eq!(objectids(&seen), vec![5, 9]);

    let seen = tree
        .for_each_from(ROOT, &key(3, 0, 0), &|_: &LeafItem| Ok(true))
        .unwrap();
    assert_eq!(objectids(&seen), vec![5, 9]);
}

#[test]
fn a_visitor_can_stop_the_walk_early() {
    let blocks = two_level_tree();
    let read = reader(&blocks);
    let tree = Tree::new(geom(), &read);
    let seen = tree
        .for_each(ROOT, &|item: &LeafItem| Ok(item.key.objectid < 2))
        .unwrap();
    assert_eq!(objectids(&seen), vec![1, 2]);
}

#[test]
fn a_visitor_that_fails_ends_the_walk_with_its_error() {
    let blocks = two_level_tree();
    let read = reader(&blocks);
    let tree = Tree::new(geom(), &read);
    let visit = |item: &LeafItem| match item.key.objectid {
        id if id < 2 => Ok(true),
        id => Err(Error::Io(format!("stopped at {id}"))),
    };
    let want = Error::Io("stopped at 2".to_owned());
    assert_eq!(tree.for_each(ROOT, &visit).unwrap_err(), want);
    assert_eq!(
        tree.for_each_from(ROOT, &key(2, 0, 0), &visit).unwrap_err(),
        want
    );
}

#[test]
fn find_all_collects_one_objectid_and_type_and_stops() {
    let a = leaf(
        LEAF_A,
        objectid::FS_TREE,
        &[
            (key(4, 1, 0), b"before".to_vec()),
            (key(5, 1, 0), b"first".to_vec()),
        ],
    );
    let b = leaf(
        LEAF_B,
        objectid::FS_TREE,
        &[
            (key(5, 1, 7), b"second".to_vec()),
            (key(5, 2, 0), b"other type".to_vec()),
            (key(6, 1, 0), b"after".to_vec()),
        ],
    );
    let r = node(
        ROOT,
        objectid::FS_TREE,
        1,
        &[(key(4, 1, 0), LEAF_A), (key(5, 1, 7), LEAF_B)],
    );
    let blocks = HashMap::from([(LEAF_A, a), (LEAF_B, b), (ROOT, r)]);
    let read = reader(&blocks);
    let tree = Tree::new(geom(), &read);

    let found = tree.find_all(ROOT, 5, 1).unwrap();
    assert_eq!(
        found.iter().map(|i| i.key.offset).collect::<Vec<_>>(),
        vec![0, 7]
    );
    assert_eq!(found[1].data, b"second");
    assert!(tree.find_all(ROOT, 5, 3).unwrap().is_empty());
}

#[test]
fn a_child_at_the_wrong_level_stops_the_descent() {
    let mut blocks = two_level_tree();
    let bogus = node(LEAF_A, objectid::FS_TREE, 1, &[(key(1, 1, 0), LEAF_B)]);
    blocks.insert(LEAF_A, bogus);
    let read = reader(&blocks);
    let tree = Tree::new(geom(), &read);
    let err = tree.search(ROOT, &key(1, 1, 0)).unwrap_err();
    assert!(
        err.to_string().contains("the tree is inconsistent"),
        "unexpected error: {err:?}"
    );
}

#[test]
fn a_cycle_in_a_corrupt_tree_terminates() {
    let mut b = vec![0u8; NODESIZE as usize];
    put_header(&mut b, ROOT, objectid::FS_TREE, 1, 7);
    put_key(&mut b, HEADER_SIZE, &key(0, 0, 0));
    b[HEADER_SIZE + DISK_KEY_SIZE..HEADER_SIZE + DISK_KEY_SIZE + 8]
        .copy_from_slice(&ROOT.to_le_bytes());
    seal(&mut b);
    let blocks = HashMap::from([(ROOT, b)]);
    let read = reader(&blocks);
    let tree = Tree::new(geom(), &read);
    assert!(tree.search(ROOT, &key(1, 1, 0)).is_err());
    assert!(tree.for_each(ROOT, &|_: &LeafItem| Ok(true)).is_err());
}

#[test]
fn a_short_read_is_rejected_rather_than_parsed() {
    let bytes = vec![0u8; NODESIZE as usize - 1];
    let err = TreeBlock::parse(bytes, LEAF_A, &geom()).unwrap_err();
    assert!(
        err.to_string().contains("for a 4096-byte node"),
        "unexpected error: {err:?}"
    );
}
