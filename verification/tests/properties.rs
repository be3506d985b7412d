//! The library's laws, each on concrete values.

use fs_btrfs::block_group::runs::{gaps, merge_adjacent, place_in_run};
use fs_btrfs::block_group::{BlockGroup, FreeExtent};
use fs_btrfs::block_input::{logical_of, node, restamp};
use fs_btrfs::btree::{key_before, KeyPtr, LeafItem, TreeBlock, TreeGeometry, HEADER_SIZE};
use fs_btrfs::chunk::{block_group, Chunk, ChunkMap, DiskKey};
use fs_btrfs::device_write::{
    mirror_spans, writable_span, write_logical, write_logical_all_mirrors, Action, Span,
};
use fs_btrfs::error::Error;
use fs_btrfs::extent_write::{record_tree_block, used_after_allocating, TreeBlockAllocation};
use fs_btrfs::item_map::ItemMap;
use fs_btrfs::leaf_edit::{delete, insert, insert_or_split, split, OwnedItem};
use fs_btrfs::subvol::path_of;
use fs_btrfs::super_write::{apply, backup_slot, offsets, Commit, SUPERBLOCK_SIZE};
use fs_btrfs::superblock::{
    dev_item_offsets, incompat, offsets as sb, ChecksumType, Superblock, BTRFS_MAGIC, CSUM_SIZE,
    SUPER_INFO_OFFSET, SUPER_INFO_SIZE, UUID_SIZE,
};
use fs_btrfs::transaction::free_space::carve;
use fs_btrfs::tree_write::{
    build_leaf, build_node, chunk_tree_uuid_of, flags_for_new_block, BlockIdentity,
    space_needed, LeafItem as Placed,
};

const FSID: [u8; UUID_SIZE] = [0x5A; UUID_SIZE];

fn key(objectid: u64, key_type: u8, offset: u64) -> DiskKey {
    DiskKey {
        objectid,
        key_type,
        offset,
    }
}

fn put32(b: &mut [u8], at: usize, v: u32) {
    b[at..at + 4].copy_from_slice(&v.to_le_bytes());
}

fn put64(b: &mut [u8], at: usize, v: u64) {
    b[at..at + 8].copy_from_slice(&v.to_le_bytes());
}

fn raw_superblock(features: u64) -> Vec<u8> {
    let mut b = vec![0u8; SUPER_INFO_SIZE];
    b[sb::MAGIC..sb::MAGIC + 8].copy_from_slice(&BTRFS_MAGIC);
    b[sb::FSID..sb::FSID + UUID_SIZE].copy_from_slice(&FSID);
    put64(&mut b, sb::BYTENR, SUPER_INFO_OFFSET);
    put64(&mut b, sb::ROOT, 0x2000);
    put64(&mut b, sb::CHUNK_ROOT, 0x1000);
    put64(&mut b, sb::TOTAL_BYTES, 1 << 30);
    put64(&mut b, sb::NUM_DEVICES, 1);
    put32(&mut b, sb::SECTORSIZE, 4096);
    put32(&mut b, sb::NODESIZE, 4096);
    put32(&mut b, sb::STRIPESIZE, 4096);
    put32(&mut b, sb::SYS_CHUNK_ARRAY_SIZE, 97);
    put64(&mut b, sb::INCOMPAT_FLAGS, features);
    let d = sb::DEV_ITEM + dev_item_offsets::FSID;
    b[d..d + UUID_SIZE].copy_from_slice(&FSID);
    let digest = ChecksumType::Crc32c.digest(&b[CSUM_SIZE..]);
    b[..CSUM_SIZE].copy_from_slice(&digest);
    b
}

fn superblock() -> Superblock {
    Superblock::parse(&raw_superblock(incompat::SKINNY_METADATA)).unwrap()
}

fn identity(bytenr: u64, level: u8) -> BlockIdentity {
    BlockIdentity {
        bytenr,
        owner: 5,
        generation: 9,
        level,
        flags: flags_for_new_block(),
        chunk_tree_uuid: [0xC4; 16],
    }
}

#[test]
fn keys_are_totally_ordered() {
    let keys = [key(1, 1, 1), key(1, 1, 2), key(1, 2, 0), key(2, 0, 0)];
    for (i, a) in keys.iter().enumerate() {
        for (j, b) in keys.iter().enumerate() {
            assert_eq!(key_before(a, b), i < j);
        }
    }
}

#[test]
fn a_built_leaf_reads_back() {
    let sb = superblock();
    let geom = TreeGeometry::from_superblock(&sb);
    let items = [(key(1, 1, 0), &b"one"[..]), (key(1, 2, 7), b""), (key(9, 0, 0), b"nine")];
    let placed: Vec<Placed> = items
        .iter()
        .map(|(k, data)| Placed { key: *k, data })
        .collect();
    let block = build_leaf(&sb, identity(0x7000, 0), &placed).unwrap();
    assert_eq!(block.len(), 4096);
    assert_eq!(chunk_tree_uuid_of(&block), [0xC4; 16]);
    let parsed = TreeBlock::parse(block.clone(), 0x7000, &geom).unwrap();
    assert_eq!((parsed.header.owner, parsed.header.generation), (5, 9));
    let read: Vec<(DiskKey, &[u8])> = parsed
        .body
        .items()
        .unwrap()
        .iter()
        .map(|i| (i.key, parsed.item_data(i).unwrap()))
        .collect();
    assert_eq!(read, items);
    assert!(TreeBlock::parse(block, 0x8000, &geom).is_err());

    let backwards: Vec<Placed> = placed.iter().rev().cloned().collect();
    let err = build_leaf(&sb, identity(0x7000, 0), &backwards).unwrap_err();
    assert!(err.to_string().contains("out of order"), "{err:?}");
    let big = vec![0u8; 4096];
    let full = [Placed {
        key: key(1, 1, 1),
        data: &big,
    }];
    let err = build_leaf(&sb, identity(0x7000, 0), &full).unwrap_err();
    assert!(err.to_string().contains("1 items need"), "{err:?}");
}

#[test]
fn a_built_node_reads_back() {
    let sb = superblock();
    let geom = TreeGeometry::from_superblock(&sb);
    let ptrs = [
        KeyPtr {
            key: key(1, 1, 0),
            blockptr: 0x9000,
            generation: 8,
        },
        KeyPtr {
            key: key(4, 1, 0),
            blockptr: 0xA000,
            generation: 9,
        },
    ];
    let block = build_node(&sb, identity(0x7000, 2), &ptrs).unwrap();
    let parsed = TreeBlock::parse(block, 0x7000, &geom).unwrap();
    assert_eq!(parsed.header.level, 2);
    assert_eq!(parsed.body.key_ptrs().unwrap(), &ptrs[..]);
}

fn owned(id: u64, len: usize) -> OwnedItem {
    OwnedItem {
        key: key(id, 1, 0),
        data: vec![id as u8; len],
    }
}

#[test]
fn deleting_undoes_inserting() {
    let items = vec![owned(1, 4), owned(5, 4)];
    let more = insert(4096, &items, owned(3, 4)).unwrap();
    assert_eq!(more.len(), 3);
    assert_eq!(delete(&more, &key(3, 1, 0)).unwrap(), items);
}

#[test]
fn a_split_divides_a_leaf_and_keeps_its_items() {
    let items: Vec<OwnedItem> = (0..6).map(|i| owned(i, 100)).collect();
    let (left, right) = split(&items).unwrap();
    assert!(!left.is_empty() && !right.is_empty());
    let joined: Vec<OwnedItem> = left.into_iter().chain(right).collect();
    assert_eq!(joined, items);
    assert!(split(&items[..1]).is_err());

    let one = insert_or_split(4096, &items, owned(9, 10)).unwrap();
    assert_eq!(one.len(), 1);
    let crowded: Vec<OwnedItem> = (0..6).map(|i| owned(i, 600)).collect();
    let two = insert_or_split(4096, &crowded, owned(9, 600)).unwrap();
    assert_eq!(two.len(), 2);
    let ids: Vec<u64> = two.concat().iter().map(|i| i.key.objectid).collect();
    assert_eq!(ids, vec![0, 1, 2, 3, 4, 5, 9]);
}

fn room(items: &[OwnedItem]) -> usize {
    let placed: Vec<_> = items.iter().map(|i| i.as_leaf_item()).collect();
    space_needed(&placed)
}

#[test]
fn a_split_makes_room() {
    let crowded: Vec<OwnedItem> = (0..6).map(|i| owned(i, 600)).collect();
    assert_eq!(room(&crowded), 3851);
    let two = insert_or_split(4096, &crowded, owned(9, 600)).unwrap();
    assert_eq!((room(&two[0]), room(&two[1])), (2601, 1976));
    assert_eq!(
        room(&two[0]) + room(&two[1]),
        room(&crowded) + room(&[owned(9, 600)])
    );

    // Half the items are too many for a block here, and an earlier boundary
    // leaves two leaves that fit.
    let large = vec![owned(1, 3000), owned(5, 800)];
    let two = insert_or_split(4096, &large, owned(3, 3000)).unwrap();
    assert!(room(&large) <= 4096);
    assert_eq!((room(&two[0]), room(&two[1])), (3126, 3951));
    let mixed = vec![owned(1, 1500), owned(5, 800), owned(6, 800), owned(7, 500)];
    let two = insert_or_split(4096, &mixed, owned(3, 2000)).unwrap();
    assert_eq!((room(&two[0]), room(&two[1])), (3651, 2276));
}

#[test]
fn a_leaf_no_boundary_divides_is_refused() {
    // A large item between two others needs three leaves.
    let items = vec![owned(1, 1900), owned(5, 1900)];
    assert!(room(&items) <= 4096);
    let err = insert_or_split(4096, &items, owned(3, 3500)).unwrap_err();
    assert_eq!(
        err.to_string(),
        "unsupported Btrfs feature: no boundary divides 3 items into two leaves that each fit in \
         a block of 4096 bytes"
    );
    let err = insert_or_split(4096, &[], owned(3, 5000)).unwrap_err();
    assert_eq!(
        err.to_string(),
        "unsupported Btrfs feature: a leaf of 1 item(s) cannot be split into two that both hold \
         something"
    );
}

#[test]
fn a_small_item_always_goes_in() {
    // The most an item can take and still be half a leaf's room.
    let items = vec![owned(1, 1900), owned(5, 1900)];
    let two = insert_or_split(4096, &items, owned(3, 1972)).unwrap();
    assert_eq!((room(&two[0]), room(&two[1])), (4023, 2026));
}

fn run(start: u64, len: u64) -> FreeExtent {
    FreeExtent { start, len }
}

#[test]
fn free_is_what_is_not_taken() {
    let group = BlockGroup {
        start: 100,
        length: 50,
        used: 20,
        flags: block_group::METADATA,
    };
    let free = gaps(&group, &[run(100, 5), run(110, 15)]).unwrap();
    assert_eq!(free, vec![run(105, 5), run(125, 25)]);
    assert_eq!(free.iter().map(|f| f.len).sum::<u64>(), group.free());
    assert_eq!(gaps(&group, &[run(100, 50)]).unwrap(), vec![]);
    assert_eq!(gaps(&group, &[]).unwrap(), vec![run(100, 50)]);
    assert!(gaps(&group, &[run(100, 10), run(105, 5)]).is_err(), "taken twice");
    let touching = vec![run(1, 2), run(3, 4), run(8, 1)];
    assert_eq!(merge_adjacent(touching), vec![run(1, 6), run(8, 1)]);
    assert_eq!(place_in_run(run(1, 4096 * 2), 4096), Some(4096));
}

#[test]
fn carving_leaves_the_rest() {
    assert_eq!(carve(run(100, 50), 110, 10), vec![run(100, 10), run(120, 30)]);
    assert_eq!(carve(run(100, 50), 100, 50), vec![]);
    assert_eq!(carve(run(100, 50), 140, 10), vec![run(100, 40)]);
    assert_eq!(carve(run(100, 50), 10, 10), vec![run(100, 50)]);
}

#[test]
fn allocating_stays_inside_the_group() {
    let group = BlockGroup {
        start: 0,
        length: 100,
        used: 90,
        flags: 0,
    };
    assert_eq!(used_after_allocating(&group, 10), Ok(100));
    assert!(used_after_allocating(&group, 11).is_err());
    assert!(group.contains(0) && group.contains(99) && !group.contains(100));
}

#[test]
fn a_record_needs_skinny_metadata() {
    let alloc = TreeBlockAllocation {
        bytenr: 0x7000,
        level: 1,
        generation: 9,
        owner: 5,
    };
    let (k, body) = record_tree_block(&superblock(), alloc).unwrap();
    assert_eq!((k, body), (alloc.key(), alloc.body()));
    let plain = Superblock::parse(&raw_superblock(0)).unwrap();
    assert!(matches!(
        record_tree_block(&plain, alloc),
        Err(Error::UnsupportedFeature(_))
    ));
}

#[test]
fn backup_slots_rotate() {
    let slots: Vec<usize> = (5..10).map(backup_slot).collect();
    assert_eq!(slots, vec![0, 1, 2, 3, 0]);
}

#[test]
fn a_commit_changes_its_fields_and_nothing_else() {
    let before = raw_superblock(0);
    let mut after = before.clone();
    let commit = Commit {
        generation: 12,
        root: 0x9000,
        root_level: Some(1),
        bytes_used: Some(4096),
        ..Commit::default()
    };
    apply(&mut after, ChecksumType::Crc32c, &commit).unwrap();
    let parsed = Superblock::parse(&after).unwrap();
    assert_eq!((parsed.generation, parsed.root), (12, 0x9000));
    assert_eq!((parsed.root_level, parsed.bytes_used), (1, 4096));
    assert_eq!(parsed.uuid_tree_generation, 12);
    let set = |j: usize| {
        j < CSUM_SIZE
            || (offsets::GENERATION..offsets::GENERATION + 8).contains(&j)
            || (offsets::ROOT..offsets::ROOT + 8).contains(&j)
            || (offsets::UUID_TREE_GENERATION..offsets::UUID_TREE_GENERATION + 8).contains(&j)
            || (offsets::BYTES_USED..offsets::BYTES_USED + 8).contains(&j)
            || j == offsets::ROOT_LEVEL
    };
    assert!((0..SUPERBLOCK_SIZE).all(|j| set(j) || before[j] == after[j]));
}

fn dup_map() -> ChunkMap {
    let mut b = vec![0u8; 48];
    put64(&mut b, 0x00, 0x10000);
    put64(&mut b, 0x10, 65536);
    put64(&mut b, 0x18, block_group::METADATA | block_group::DUP);
    b[0x2c] = 2;
    for at in [0x10_0000u64, 0x20_0000] {
        b.extend_from_slice(&1u64.to_le_bytes());
        b.extend_from_slice(&at.to_le_bytes());
        b.extend_from_slice(&[0; 16]);
    }
    let mut map = ChunkMap::new();
    map.insert(Chunk::parse(0x4000, &b).unwrap()).unwrap();
    map
}

#[test]
fn every_copy_of_a_write_is_written() {
    let map = dup_map();
    let spans = mirror_spans(0x40_0000, &map, 0x5000, 8).unwrap();
    let at = |physical| Span {
        physical,
        from: 0,
        len: 8,
    };
    assert_eq!(spans, vec![at(0x10_1000), at(0x20_1000)]);
    let write = |at| Action::Write {
        at,
        bytes: b"contents".to_vec(),
    };
    assert_eq!(
        write_logical_all_mirrors(0x40_0000, &map, 0x5000, b"contents").unwrap(),
        vec![write(0x10_1000), write(0x20_1000)]
    );
    assert_eq!(
        write_logical(&map, 0x5000, b"contents").unwrap(),
        vec![write(0x10_1000)]
    );
    assert_eq!(
        mirror_spans(0x40_0000, &map, 0x100, 8),
        Err(Error::UnmappedLogical(0x100))
    );
    let err = mirror_spans(0x20_1000, &map, 0x5000, 8).unwrap_err();
    assert!(err.to_string().contains("on a device of 2101248 bytes"), "{err:?}");
    assert!(writable_span(100, u64::MAX, 2).is_err());
    assert!(writable_span(100, 98, 2).is_ok());
}

#[test]
fn the_last_item_filed_under_a_key_stays() {
    let item = |id, data: &[u8]| LeafItem {
        key: key(id, 1, 0),
        data: data.to_vec(),
    };
    let mut map = ItemMap::load(vec![item(5, b"a"), item(1, b"b"), item(5, b"c")]);
    assert_eq!(map.get(&key(5, 1, 0)), Some(&b"c"[..]));
    map.put(item(3, b"d"));
    assert_eq!(map.get(&key(3, 1, 0)), Some(&b"d"[..]));
    assert_eq!(map.get(&key(4, 1, 0)), None);
    assert_eq!(map.range(1, 1).len(), 1);
}

#[test]
fn a_path_is_bounded_however_the_parents_loop() {
    let mut names = std::collections::BTreeMap::new();
    names.insert(256u64, (256u64, b"x".to_vec()));
    assert!(path_of(256, &names).split('/').count() <= 256);
}

#[test]
fn a_restamped_block_verifies() {
    let mut block = node(b"pattern", 4096);
    assert_eq!(&block[..9], b"patternpa");
    restamp(&mut block, ChecksumType::Sha256);
    assert!(ChecksumType::Sha256.verify(&block[CSUM_SIZE..], &block[..CSUM_SIZE]));
    assert_eq!(
        logical_of(&block),
        u64::from_le_bytes(block[48..56].try_into().unwrap())
    );
    assert_eq!(logical_of(&block[..HEADER_SIZE.min(55)]), 0);
    assert_eq!(node(b"", 3), vec![0, 0, 0]);
}
