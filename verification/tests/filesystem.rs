//! A whole volume, held in memory: mounting, reading, writing, committing.

use std::collections::BTreeSet;
use std::sync::{Arc, Mutex};

use fs_btrfs::block_group::FreeExtent;
use fs_btrfs::btree::KeyPtr;
use fs_btrfs::chunk::{block_group, key_type, objectid, DiskKey};
use fs_btrfs::csum::{CSUM_TREE_OBJECTID, EXTENT_CSUM_KEY, EXTENT_CSUM_OBJECTID};
use fs_btrfs::device_write::Action;
use fs_btrfs::dir::{ftype, name_hash, DIR_INDEX_KEY, DIR_ITEM_KEY, XATTR_ITEM_KEY};
use fs_btrfs::error::{Error, Result};
use fs_btrfs::extent_write::TreeBlockAllocation;
use fs_btrfs::fs::{root_item, Filesystem, EXTENT_DATA_KEY, FS_TREE_OBJECTID, ROOT_ITEM_KEY};
use fs_btrfs::inode::{FileType, INODE_ITEM_KEY, INODE_ITEM_SIZE, INODE_NODATACOW, INODE_NODATASUM};
use fs_btrfs::subvol::ROOT_BACKREF_KEY;
use fs_btrfs::super_write::Commit;
use fs_btrfs::superblock::{
    dev_item_offsets, incompat, offsets, ChecksumType, Superblock, BTRFS_MAGIC, CSUM_SIZE,
    SUPER_INFO_OFFSET, SUPER_INFO_SIZE, UUID_SIZE,
};
use fs_btrfs::transaction::Plan;
use fs_btrfs::tree_write::{build_leaf, build_node, flags_for_new_block, BlockIdentity, LeafItem};
use fs_btrfs::xattr::XattrEntry;

const FSID: [u8; UUID_SIZE] = [0x5A; UUID_SIZE];
const MIB: u64 = 1 << 20;
const SIZE: u64 = 6 * MIB;
const NODE: u64 = 4096;
const GENERATION: u64 = 7;

/// Where each chunk lies: the system and the data chunk once, the metadata
/// chunk twice.
const SYSTEM: u64 = MIB;
const METADATA: u64 = 2 * MIB;
const MIRROR: u64 = 3 * MIB;
const DATA: u64 = 4 * MIB;

const CHUNK_ROOT: u64 = SYSTEM;
const ROOT: u64 = METADATA;
const EXTENTS: u64 = METADATA + NODE;
const FILES: u64 = METADATA + 2 * NODE;
const SPACE: u64 = METADATA + 3 * NODE;
const SUBVOLUME: u64 = METADATA + 4 * NODE;
const NODES: u64 = 5;

/// The file that may be overwritten: two extents, one behind the other in the
/// file and apart on the volume.
const COW_FREE: u64 = 257;
const FIRST: u64 = DATA;
const SECOND: u64 = DATA + 4 * NODE;

type Items = Vec<(DiskKey, Vec<u8>)>;

fn key(objectid: u64, key_type: u8, offset: u64) -> DiskKey {
    DiskKey {
        objectid,
        key_type,
        offset,
    }
}

fn put16(b: &mut [u8], at: usize, v: u16) {
    b[at..at + 2].copy_from_slice(&v.to_le_bytes());
}

fn put32(b: &mut [u8], at: usize, v: u32) {
    b[at..at + 4].copy_from_slice(&v.to_le_bytes());
}

fn put64(b: &mut [u8], at: usize, v: u64) {
    b[at..at + 8].copy_from_slice(&v.to_le_bytes());
}

fn chunk_item(length: u64, kind: u64, stripes: &[u64]) -> Vec<u8> {
    let mut b = vec![0u8; 48];
    put64(&mut b, 0x00, length);
    put64(&mut b, 0x08, 2);
    put64(&mut b, 0x10, 65536);
    put64(&mut b, 0x18, kind);
    put32(&mut b, 0x20, 4096);
    put32(&mut b, 0x24, 4096);
    put32(&mut b, 0x28, 4096);
    put16(&mut b, 0x2c, stripes.len() as u16);
    put16(&mut b, 0x2e, 1);
    for at in stripes {
        b.extend_from_slice(&1u64.to_le_bytes());
        b.extend_from_slice(&at.to_le_bytes());
        b.extend_from_slice(&[0xB2; 16]);
    }
    b
}

fn reseal(b: &mut [u8]) {
    let digest = ChecksumType::Crc32c.digest(&b[CSUM_SIZE..SUPER_INFO_SIZE]);
    b[..CSUM_SIZE].copy_from_slice(&digest);
}

fn superblock() -> Vec<u8> {
    let mut b = vec![0u8; SUPER_INFO_SIZE];
    b[offsets::MAGIC..offsets::MAGIC + 8].copy_from_slice(&BTRFS_MAGIC);
    b[offsets::FSID..offsets::FSID + UUID_SIZE].copy_from_slice(&FSID);
    put64(&mut b, offsets::BYTENR, SUPER_INFO_OFFSET);
    put64(&mut b, offsets::GENERATION, GENERATION);
    put64(&mut b, offsets::ROOT, ROOT);
    put64(&mut b, offsets::CHUNK_ROOT, CHUNK_ROOT);
    put64(&mut b, offsets::TOTAL_BYTES, SIZE);
    put64(&mut b, offsets::BYTES_USED, MIB);
    put64(&mut b, offsets::ROOT_DIR_OBJECTID, 6);
    put64(&mut b, offsets::NUM_DEVICES, 1);
    put32(&mut b, offsets::SECTORSIZE, 4096);
    put32(&mut b, offsets::NODESIZE, NODE as u32);
    put32(&mut b, offsets::LEAFSIZE, NODE as u32);
    put32(&mut b, offsets::STRIPESIZE, 4096);
    put64(&mut b, offsets::CHUNK_ROOT_GENERATION, GENERATION);
    put64(
        &mut b,
        offsets::INCOMPAT_FLAGS,
        incompat::MIXED_BACKREF | incompat::SKINNY_METADATA | incompat::NO_HOLES,
    );
    let d = offsets::DEV_ITEM;
    put64(&mut b, d + dev_item_offsets::DEVID, 1);
    put64(&mut b, d + dev_item_offsets::TOTAL_BYTES, SIZE);
    b[d + dev_item_offsets::FSID..d + dev_item_offsets::FSID + UUID_SIZE].copy_from_slice(&FSID);
    b[offsets::LABEL..offsets::LABEL + 5].copy_from_slice(b"a\xffb\0c");
    let mut array = vec![0u8; 17];
    put64(&mut array, 0, objectid::FIRST_CHUNK_TREE);
    array[8] = key_type::CHUNK_ITEM;
    put64(&mut array, 9, SYSTEM);
    array.extend(chunk_item(MIB, block_group::SYSTEM, &[SYSTEM]));
    put32(&mut b, offsets::SYS_CHUNK_ARRAY_SIZE, array.len() as u32);
    b[offsets::SYS_CHUNK_ARRAY..offsets::SYS_CHUNK_ARRAY + array.len()].copy_from_slice(&array);
    reseal(&mut b);
    b
}

fn inode(mode: u32, size: u64, flags: u64) -> Vec<u8> {
    let mut b = vec![0u8; INODE_ITEM_SIZE];
    put64(&mut b, 0, GENERATION);
    put64(&mut b, 16, size);
    put32(&mut b, 40, 1);
    put32(&mut b, 52, mode);
    put64(&mut b, 64, flags);
    b
}

fn record(ino: u64, kind: u8, location: u8, name: &[u8], value: &[u8]) -> Vec<u8> {
    let mut b = vec![0u8; 30];
    put64(&mut b, 0, ino);
    b[8] = location;
    put64(&mut b, 17, GENERATION);
    put16(&mut b, 25, value.len() as u16);
    put16(&mut b, 27, name.len() as u16);
    b[29] = kind;
    b.extend_from_slice(name);
    b.extend_from_slice(value);
    b
}

fn inline_extent(data: &[u8]) -> Vec<u8> {
    let mut b = vec![0u8; 21];
    put64(&mut b, 8, data.len() as u64);
    b.extend_from_slice(data);
    b
}

fn stored_extent(at: u64, len: u64) -> Vec<u8> {
    let mut b = vec![0u8; 53];
    b[20] = 1;
    put64(&mut b, 8, len);
    put64(&mut b, 21, at);
    put64(&mut b, 29, len);
    put64(&mut b, 45, len);
    b
}

/// The names in the root directory, and what they name.
const NAMES: [(&[u8], u64, u8, u8); 5] = [
    (b"plain", COW_FREE, ftype::REG_FILE, INODE_ITEM_KEY),
    (b"small", 258, ftype::REG_FILE, INODE_ITEM_KEY),
    (b"link", 259, ftype::SYMLINK, INODE_ITEM_KEY),
    (b"dir", 260, ftype::DIR, INODE_ITEM_KEY),
    (b"sub", 256, ftype::DIR, ROOT_ITEM_KEY),
];

fn files() -> Items {
    let mut items = vec![
        (key(256, INODE_ITEM_KEY, 0), inode(0o040755, 0, 0)),
        (
            key(COW_FREE, INODE_ITEM_KEY, 0),
            inode(0o100644, 4 * NODE, INODE_NODATACOW | INODE_NODATASUM),
        ),
        (
            key(COW_FREE, EXTENT_DATA_KEY, 0),
            stored_extent(FIRST, NODE),
        ),
        (
            key(COW_FREE, EXTENT_DATA_KEY, NODE),
            stored_extent(SECOND, NODE),
        ),
        (key(258, INODE_ITEM_KEY, 0), inode(0o100600, 11, 0)),
        (
            key(258, EXTENT_DATA_KEY, 0),
            inline_extent(b"hello world"),
        ),
        (key(259, INODE_ITEM_KEY, 0), inode(0o120777, 5, 0)),
        (key(259, EXTENT_DATA_KEY, 0), inline_extent(b"small")),
        (key(260, INODE_ITEM_KEY, 0), inode(0o040700, 0, 0)),
    ];
    for (place, (name, ino, kind, location)) in NAMES.into_iter().enumerate() {
        let entry = record(ino, kind, location, name, b"");
        items.push((key(256, DIR_INDEX_KEY, place as u64 + 2), entry.clone()));
        items.push((key(256, DIR_ITEM_KEY, name_hash(name)), entry));
    }
    for (name, value) in [(&b"user.colour"[..], &b"blue"[..]), (b"user.flag", b"")] {
        items.push((
            key(COW_FREE, XATTR_ITEM_KEY, name_hash(name)),
            record(0, ftype::XATTR, 0, name, value),
        ));
    }
    items
}

fn root_entry(bytenr: u64, flags: u64) -> Vec<u8> {
    let mut b = vec![0u8; 439];
    put64(&mut b, root_item::GENERATION, GENERATION);
    put64(&mut b, root_item::BYTENR, bytenr);
    put64(&mut b, root_item::FLAGS, flags);
    b
}

fn roots() -> Items {
    let mut backref = vec![0u8; 18];
    put16(&mut backref, 16, 3);
    backref.extend_from_slice(b"sub");
    vec![
        (
            key(objectid::EXTENT_TREE, ROOT_ITEM_KEY, 0),
            root_entry(EXTENTS, 0),
        ),
        (
            key(FS_TREE_OBJECTID, ROOT_ITEM_KEY, 0),
            root_entry(FILES, 0),
        ),
        (
            key(objectid::FREE_SPACE_TREE, ROOT_ITEM_KEY, 0),
            root_entry(SPACE, 0),
        ),
        (key(256, ROOT_ITEM_KEY, 0), root_entry(SUBVOLUME, 1)),
        (key(256, ROOT_BACKREF_KEY, FS_TREE_OBJECTID), backref),
    ]
}

fn group(used: u64, flags: u64) -> Vec<u8> {
    let mut b = vec![0u8; 24];
    put64(&mut b, 0, used);
    put64(&mut b, 8, 256);
    put64(&mut b, 16, flags);
    b
}

fn extents() -> Items {
    let mut items = vec![
        (
            key(METADATA, key_type::BLOCK_GROUP_ITEM, MIB),
            group(NODES * NODE, block_group::METADATA | block_group::DUP),
        ),
        (
            key(DATA, key_type::BLOCK_GROUP_ITEM, MIB),
            group(2 * NODE, block_group::DATA),
        ),
    ];
    for (bytenr, owner) in [(ROOT, 1), (EXTENTS, 2), (FILES, 5), (SPACE, 10), (SUBVOLUME, 256)] {
        let alloc = TreeBlockAllocation {
            bytenr,
            level: 0,
            generation: GENERATION,
            owner,
        };
        items.push((alloc.key(), alloc.body().to_vec()));
    }
    for at in [FIRST, SECOND] {
        let mut body = vec![0u8; 24];
        put64(&mut body, 0, 1);
        put64(&mut body, 8, GENERATION);
        put64(&mut body, 16, 1);
        items.push((key(at, key_type::EXTENT_ITEM, NODE), body));
    }
    items
}

fn space_info(count: u32) -> Vec<u8> {
    let mut b = vec![0u8; 8];
    put32(&mut b, 0, count);
    b
}

fn space() -> Items {
    let free = METADATA + NODES * NODE;
    vec![
        (
            key(METADATA, key_type::FREE_SPACE_INFO, MIB),
            space_info(1),
        ),
        (
            key(free, key_type::FREE_SPACE_EXTENT, MIB - NODES * NODE),
            Vec::new(),
        ),
        (key(DATA, key_type::FREE_SPACE_INFO, MIB), space_info(2)),
        (
            key(FIRST + NODE, key_type::FREE_SPACE_EXTENT, SECOND - FIRST - NODE),
            Vec::new(),
        ),
        (
            key(SECOND + NODE, key_type::FREE_SPACE_EXTENT, DATA + MIB - SECOND - NODE),
            Vec::new(),
        ),
    ]
}

fn chunks() -> Items {
    let at = |logical| key(objectid::FIRST_CHUNK_TREE, key_type::CHUNK_ITEM, logical);
    vec![
        (at(SYSTEM), chunk_item(MIB, block_group::SYSTEM, &[SYSTEM])),
        (
            at(METADATA),
            chunk_item(
                MIB,
                block_group::METADATA | block_group::DUP,
                &[METADATA, MIRROR],
            ),
        ),
        (at(DATA), chunk_item(MIB, block_group::DATA, &[DATA])),
    ]
}

fn leaf(sb: &Superblock, bytenr: u64, owner: u64, mut items: Items) -> Vec<u8> {
    items.sort_by_key(|(k, _)| (k.objectid, k.key_type, k.offset));
    let borrowed: Vec<LeafItem> = items
        .iter()
        .map(|(k, data)| LeafItem { key: *k, data })
        .collect();
    let id = BlockIdentity {
        bytenr,
        owner,
        generation: GENERATION,
        level: 0,
        flags: flags_for_new_block(),
        chunk_tree_uuid: [0xC4; 16],
    };
    build_leaf(sb, id, &borrowed).unwrap()
}

/// The volume, as its one device holds it.
fn image() -> Vec<u8> {
    image_of(files(), extents(), space())
}

/// A volume with these items in its file, extent and free-space trees.
fn image_of(files: Items, extents: Items, space: Items) -> Vec<u8> {
    let raw = superblock();
    let sb = Superblock::parse(&raw).unwrap();
    let mut image = vec![0u8; SIZE as usize];
    let mut put = |at: u64, bytes: &[u8]| {
        image[at as usize..at as usize + bytes.len()].copy_from_slice(bytes);
    };
    put(SUPER_INFO_OFFSET, &raw);
    put(CHUNK_ROOT, &leaf(&sb, CHUNK_ROOT, 3, chunks()));
    for (at, owner, items) in [
        (ROOT, 1, roots()),
        (EXTENTS, 2, extents),
        (FILES, 5, files),
        (SPACE, 10, space),
        (SUBVOLUME, 256, vec![(key(256, INODE_ITEM_KEY, 0), inode(0o040755, 0, 0))]),
    ] {
        let block = leaf(&sb, at, owner, items);
        put(at, &block);
        put(at - METADATA + MIRROR, &block);
    }
    put(FIRST, &[0x11; NODE as usize]);
    put(SECOND, &[0x22; NODE as usize]);
    image
}

type Disk = Arc<Mutex<Vec<u8>>>;

fn disk(image: Vec<u8>) -> Disk {
    Arc::new(Mutex::new(image))
}

fn reader(disk: &Disk) -> impl Fn(usize, u64, usize) -> Result<Vec<u8>> {
    let disk = disk.clone();
    move |device, at, len| {
        let bytes = disk.lock().unwrap();
        let from = at as usize;
        match bytes.get(from..from + len) {
            Some(found) if device == 0 => Ok(found.to_vec()),
            _ => Err(Error::Io(format!("no {len} bytes at {at} of device {device}"))),
        }
    }
}

fn perform(disk: &Disk, actions: &[Action]) {
    let mut bytes = disk.lock().unwrap();
    for action in actions {
        if let Action::Write { at, bytes: new } = action {
            let from = *at as usize;
            bytes[from..from + new.len()].copy_from_slice(new);
        }
    }
}

#[test]
fn a_volume_mounts_and_says_what_it_is() {
    let fs = Filesystem::mount(reader(&disk(image()))).unwrap();
    assert!(!fs.is_writable());
    assert_eq!(fs.superblock().generation, GENERATION);
    assert_eq!(fs.superblock().label, "a\u{fffd}b");
    assert_eq!(fs.chunk_map().len(), 3);
    assert_eq!(fs.root_inode().unwrap().ino, 256);
    assert_eq!(fs.root_tree_items().unwrap().len(), 5);
    assert_eq!(fs.read_tree_block(FILES).unwrap().header.owner, 5);
}

#[test]
fn a_directory_lists_its_entries_in_creation_order() {
    let fs = Filesystem::mount(reader(&disk(image()))).unwrap();
    let entries = fs.list_path("/").unwrap();
    let names: Vec<&[u8]> = entries.iter().map(|e| e.name.as_slice()).collect();
    assert_eq!(names, vec![&b"plain"[..], b"small", b"link", b"dir", b"sub"]);
    assert_eq!(entries[2].ftype, Some(FileType::Symlink));
    assert!(fs.list_path("/dir").unwrap().is_empty());
    assert_eq!(fs.list_path("/plain"), Err(Error::NotADirectory));
}

#[test]
fn a_lookup_agrees_with_the_listing() {
    let fs = Filesystem::mount(reader(&disk(image()))).unwrap();
    for entry in fs.read_dir(256).unwrap() {
        match fs.lookup(256, &entry.name) {
            Ok(inode) => assert_eq!(inode.ino, entry.ino),
            Err(e) => {
                assert!(!entry.is_inode());
                let said = e.to_string();
                assert!(said.contains("\"sub\" names subvolume 256"), "{said}");
            }
        }
    }
    assert_eq!(fs.lookup(256, b"absent"), Err(Error::NotFound));
    assert_eq!(fs.lookup(COW_FREE, b"x"), Err(Error::NotADirectory));
    assert_eq!(fs.lookup(9999, b"x"), Err(Error::NotFound));
}

#[test]
fn a_name_is_found_only_under_its_hash() {
    let fs = Filesystem::mount(reader(&disk(image()))).unwrap();
    let hash = name_hash(b"small");
    assert_eq!(fs.lookup_hashed(256, hash, b"small").unwrap().ino, 258);
    assert_eq!(
        fs.lookup_hashed(256, hash ^ 1, b"small"),
        Err(Error::NotFound)
    );
    assert_eq!(fs.lookup_hashed(256, hash, b"other"), Err(Error::NotFound));
}

#[test]
fn paths_ignore_empty_parts_and_refuse_dot_dot() {
    let fs = Filesystem::mount(reader(&disk(image()))).unwrap();
    assert_eq!(fs.lookup_path("//./small").unwrap().ino, 258);
    assert_eq!(fs.lookup_path("small/").unwrap().ino, 258);
    assert_eq!(fs.lookup_path("").unwrap().ino, 256);
    assert_eq!(fs.lookup_path("/small/x"), Err(Error::NotADirectory));
    let err = fs.lookup_path("/dir/..").unwrap_err();
    assert_eq!(
        err,
        Error::UnsupportedFeature("`..` in a path is not resolved by lookup_path".into())
    );
}

#[test]
fn contents_come_from_items_and_from_extents() {
    let fs = Filesystem::mount(reader(&disk(image()))).unwrap();
    assert_eq!(fs.read_path("/small").unwrap(), b"hello world");
    assert_eq!(fs.read_link(259).unwrap(), b"small");
    assert_eq!(fs.read_link(258), Err(Error::NotAFile));
    assert_eq!(fs.read_file(260), Err(Error::NotAFile));
    let all = fs.read_file(COW_FREE).unwrap();
    assert_eq!(all.len(), 4 * NODE as usize);
    assert!(all[..NODE as usize].iter().all(|&b| b == 0x11));
    assert!(all[NODE as usize..2 * NODE as usize].iter().all(|&b| b == 0x22));
    assert!(all[2 * NODE as usize..].iter().all(|&b| b == 0), "a hole");
}

#[test]
fn a_part_of_a_file_is_cut_out_of_the_whole() {
    let fs = Filesystem::mount(reader(&disk(image()))).unwrap();
    let all = fs.read_file(COW_FREE).unwrap();
    for (offset, len) in [(0usize, 10usize), (4090, 20), (8190, 5), (16380, 100), (20000, 4)] {
        let mut buf = vec![0xEE; len];
        let n = fs.read_at(COW_FREE, offset as u64, &mut buf).unwrap();
        let want = &all[offset.min(all.len())..(offset + len).min(all.len())];
        assert_eq!(n, want.len());
        assert_eq!(&buf[..n], want);
        assert!(buf[n..].iter().all(|&b| b == 0xEE), "untouched past the end");
    }
}

#[test]
fn attributes_are_listed_and_found_by_name() {
    let fs = Filesystem::mount(reader(&disk(image()))).unwrap();
    let mut all = fs.list_xattrs(COW_FREE).unwrap();
    all.sort_by(|a, b| a.name.cmp(&b.name));
    assert_eq!(
        all,
        vec![
            XattrEntry {
                name: b"user.colour".to_vec(),
                value: b"blue".to_vec()
            },
            XattrEntry {
                name: b"user.flag".to_vec(),
                value: Vec::new()
            },
        ]
    );
    let get = |name: &[u8]| fs.get_xattr(COW_FREE, name).unwrap();
    assert_eq!(get(b"user.colour"), Some(b"blue".to_vec()));
    assert_eq!(get(b"user.flag"), Some(Vec::new()), "empty is not absent");
    assert_eq!(get(b"user.none"), None);
    assert_eq!(fs.list_xattrs(258).unwrap(), Vec::new());
    assert_eq!(fs.list_xattrs(9999), Err(Error::NotFound));
    assert_eq!(
        fs.get_xattr_hashed(COW_FREE, name_hash(b"user.colour"), b"user.flag")
            .unwrap(),
        None
    );
}

#[test]
fn space_is_what_the_extent_tree_leaves() {
    let fs = Filesystem::mount(reader(&disk(image()))).unwrap();
    let groups = fs.block_groups().unwrap();
    assert_eq!(groups.len(), 2);
    assert_eq!(groups[0].used, NODES * NODE);
    let free = fs.free_extents(&groups[0]).unwrap();
    let rest = METADATA + NODES * NODE;
    assert_eq!(
        free,
        vec![FreeExtent {
            start: rest,
            len: METADATA + MIB - rest
        }]
    );
    let by_group = fs.free_extents_by_group(&groups).unwrap();
    assert_eq!(by_group[0], free);
    assert_eq!(by_group[1].len(), 2);
    assert_eq!(fs.cached_free_extents(&groups[0]).unwrap(), Some(free));
    assert_eq!(
        fs.cached_free_extents(&groups[1]).unwrap(),
        Some(by_group[1].clone())
    );
    assert_eq!(fs.find_metadata_block().unwrap(), rest);
    assert_eq!(fs.for_each_extent_item().unwrap().len(), 9);
}

#[test]
fn subvolumes_are_listed_and_opened() {
    let fs = Filesystem::mount(reader(&disk(image()))).unwrap();
    let all = fs.subvolumes().unwrap();
    let paths: Vec<(u64, &str)> = all.iter().map(|s| (s.id, s.path.as_str())).collect();
    assert_eq!(paths, vec![(5, "/"), (256, "sub")]);
    assert!(all[0].is_default() && !all[0].read_only);
    assert!(all[1].read_only);
    let sub = fs.open_subvolume(256).unwrap();
    assert_eq!(sub.list_path("/").unwrap().len(), 0);
    assert!(fs.open_subvolume(300).is_err());
}

#[test]
fn a_write_into_a_file_is_read_back() {
    let disk = disk(image());
    let fs = Filesystem::mount_rw(reader(&disk), true, SIZE).unwrap();
    assert!(fs.can_write_in_place(COW_FREE).unwrap());
    let data: Vec<u8> = (0..2000u32).map(|i| i as u8).collect();
    let offset = NODE - 700;
    let actions = fs.write_at(COW_FREE, offset, &data).unwrap();
    assert_eq!(
        actions,
        vec![
            Action::Write {
                at: FIRST + offset,
                bytes: data[..700].to_vec()
            },
            Action::Write {
                at: SECOND,
                bytes: data[700..].to_vec()
            },
            Action::Flush,
        ]
    );
    perform(&disk, &actions);
    let mut buf = vec![0u8; data.len()];
    assert_eq!(fs.read_at(COW_FREE, offset, &mut buf).unwrap(), data.len());
    assert_eq!(buf, data);
    let all = fs.read_file(COW_FREE).unwrap();
    assert_eq!(all[offset as usize - 1], 0x11);
    assert_eq!(all[offset as usize + data.len()], 0x22);
}

#[test]
fn what_cannot_be_written_in_place_is_refused() {
    let disk = disk(image());
    let fs = Filesystem::mount_rw(reader(&disk), true, SIZE).unwrap();
    let refusal = |ino: u64, offset: u64, len: usize| {
        fs.write_at(ino, offset, &vec![1; len]).unwrap_err().to_string()
    };
    assert!(refusal(258, 0, 1).contains("is copy-on-write"));
    assert!(refusal(COW_FREE, 2 * NODE, 1).contains("is a hole"));
    assert!(refusal(COW_FREE, 4 * NODE, 1).contains("would grow the file"));
    assert!(refusal(COW_FREE, u64::MAX, 2).contains("write range overflows"));
    assert_eq!(fs.write_at(260, 0, b"x"), Err(Error::NotAFile));
    assert_eq!(fs.write_at(COW_FREE, 0, b""), Ok(Vec::new()));
    assert!(!fs.can_write_in_place(258).unwrap());
    let read_only = Filesystem::mount(reader(&disk)).unwrap();
    assert_eq!(read_only.write_at(COW_FREE, 0, b"x"), Err(Error::ReadOnly));
    assert_eq!(
        Filesystem::mount_rw(reader(&disk), false, SIZE).err(),
        Some(Error::ReadOnly)
    );
    let small = Filesystem::mount_rw(reader(&disk), true, DATA).unwrap();
    let err = small.write_at(COW_FREE, 0, b"x").unwrap_err();
    assert!(err.to_string().contains("on a device of"), "{err:?}");
}

#[test]
fn a_plan_moves_what_moving_a_block_implies() {
    let fs = Filesystem::mount(reader(&disk(image()))).unwrap();
    let plan = fs.plan_transaction(&[FILES]).unwrap();
    let moved: BTreeSet<u64> = plan.released().into_iter().collect();
    assert_eq!(moved, [ROOT, FILES].into_iter().collect());
    let homes: BTreeSet<u64> = plan.allocated().into_iter().collect();
    assert_eq!(homes.len(), 2, "no two blocks share a home");
    assert!(homes.iter().all(|&at| at >= METADATA + NODES * NODE));
    assert_eq!(plan.trees(), [1, 5].into_iter().collect());
    assert_eq!(plan.usage_delta(NODE), 0);
    assert_eq!(Plan::default().released(), Vec::<u64>::new());

    let closed = fs.plan_transaction_closed(&[FILES], 8).unwrap();
    let moved: BTreeSet<u64> = closed.released().into_iter().collect();
    assert_eq!(moved, [ROOT, EXTENTS, FILES, SPACE].into_iter().collect());
    assert!(fs.plan_transaction(&[METADATA + 9 * NODE]).is_err());
}

#[test]
fn a_committed_transaction_moves_the_trees_and_keeps_the_files() {
    let disk = disk(image());
    let fs = Filesystem::mount_rw(reader(&disk), true, SIZE).unwrap();
    let generation = GENERATION + 1;
    let plan = fs.plan_transaction_closed(&[ROOT, FILES], 8).unwrap();
    let blocks = fs.render_plan(&plan, generation).unwrap();
    let root = fs.planned_root(&plan).unwrap();
    assert_ne!(root, ROOT);
    let commit = Commit {
        generation,
        root,
        ..Commit::default()
    };
    let actions = fs.commit(&blocks, &commit).unwrap();

    // Each block twice, a flush, the one superblock copy that fits, a flush.
    let flushes: Vec<usize> = actions
        .iter()
        .enumerate()
        .filter(|(_, a)| **a == Action::Flush)
        .map(|(i, _)| i)
        .collect();
    assert_eq!(flushes, vec![2 * blocks.len(), actions.len() - 1]);
    assert_eq!(actions.len(), 2 * blocks.len() + 3);

    let before: Vec<_> = fs.list_path("/").unwrap();
    let groups = fs.block_groups().unwrap();

    // Cut short before the superblock, the old filesystem is what is there.
    perform(&disk, &actions[..flushes[0] + 1]);
    let old = Filesystem::mount(reader(&disk)).unwrap();
    assert_eq!(old.superblock().generation, GENERATION);
    assert_eq!(old.list_path("/").unwrap(), before);

    perform(&disk, &actions);
    let new = Filesystem::mount(reader(&disk)).unwrap();
    assert_eq!(new.superblock().generation, generation);
    assert_eq!(new.superblock().root, root);
    assert_eq!(new.list_path("/").unwrap(), before);
    assert_eq!(new.read_path("/small").unwrap(), b"hello world");
    for r in &plan.rewrites {
        let block = new.read_tree_block(r.new).unwrap();
        assert_eq!(block.header.generation, generation);
        assert_eq!(block.header.owner, r.owner);
    }

    // The records follow: what was released is free, what was taken is not,
    // and the cache says the same.
    assert_eq!(new.block_groups().unwrap(), groups);
    let free = new.free_extents(&groups[0]).unwrap();
    let is_free = |at: u64| free.iter().any(|f| f.start <= at && at < f.start + f.len);
    assert!(plan.released().into_iter().all(is_free));
    assert!(!plan.allocated().into_iter().any(is_free));
    assert_eq!(new.cached_free_extents(&groups[0]).unwrap(), Some(free));
}

#[test]
fn a_block_of_the_wrong_size_is_not_committed() {
    let disk = disk(image());
    let fs = Filesystem::mount_rw(reader(&disk), true, SIZE).unwrap();
    let plan = fs.plan_transaction(&[FILES]).unwrap();
    let mut blocks = fs.render_plan(&plan, GENERATION + 1).unwrap();
    blocks[0].bytes.pop();
    let err = fs.commit(&blocks, &Commit::default()).unwrap_err();
    assert!(err.to_string().contains("a tree block is 4096 bytes"), "{err:?}");
    let read_only = Filesystem::mount(reader(&disk)).unwrap();
    assert_eq!(
        read_only.commit(&[], &Commit::default()),
        Err(Error::ReadOnly)
    );
}

#[test]
fn a_pool_needs_every_device() {
    let one = disk(image());
    assert_eq!(
        Filesystem::mount_pool(reader(&one), 0).err(),
        Some(Error::UnsupportedFeature(
            "a pool needs at least one device".into()
        ))
    );
    let fs = Filesystem::mount_pool(reader(&one), 1).unwrap();
    assert_eq!(fs.read_path("/small").unwrap(), b"hello world");

    let mut spanning = image();
    let at = SUPER_INFO_OFFSET as usize;
    put64(&mut spanning[at..], offsets::NUM_DEVICES, 2);
    reseal(&mut spanning[at..]);
    let err = Filesystem::mount(reader(&disk(spanning))).err().unwrap();
    assert!(err.to_string().contains("spans 2 devices and 0 were given"), "{err:?}");

    let twice = {
        let one = one.clone();
        move |_device: usize, at: u64, len: usize| reader(&one)(0, at, len)
    };
    assert_eq!(
        Filesystem::mount_pool(twice, 2).err(),
        Some(Error::UnsupportedFeature(
            "two devices both claim to be device 1".into()
        ))
    );
}

#[test]
fn a_volume_with_a_log_is_refused() {
    let mut logged = image();
    let at = SUPER_INFO_OFFSET as usize;
    put64(&mut logged[at..], offsets::LOG_ROOT, 65536);
    reseal(&mut logged[at..]);
    let err = Filesystem::mount(reader(&disk(logged))).err();
    assert_eq!(err, Some(Error::DirtyLog));
}

#[test]
fn damage_is_noticed() {
    let mut torn = image();
    torn[FILES as usize + 200] ^= 1;
    assert_eq!(
        Filesystem::mount(reader(&disk(torn))).err(),
        Some(Error::ChecksumMismatch {
            what: "tree block",
            offset: FILES
        })
    );
    let mut moved = image();
    let root = moved[ROOT as usize..(ROOT + NODE) as usize].to_vec();
    moved[FILES as usize..(FILES + NODE) as usize].copy_from_slice(&root);
    assert_eq!(
        Filesystem::mount(reader(&disk(moved))).err(),
        Some(Error::BlockIdentityMismatch {
            what: "tree block",
            expected: FILES,
            found: ROOT
        })
    );
    let short = image()[..SUPER_INFO_OFFSET as usize].to_vec();
    assert!(matches!(
        Filesystem::mount(reader(&disk(short))).err(),
        Some(Error::Io(_))
    ));
}

/// The value filed under `key`.
fn under(items: &mut Items, key: DiskKey) -> &mut Vec<u8> {
    &mut items.iter_mut().find(|(k, _)| *k == key).unwrap().1
}

#[test]
fn a_shared_extent_is_not_overwritten() {
    let mut records = extents();
    put64(
        under(&mut records, key(SECOND, key_type::EXTENT_ITEM, NODE)),
        0,
        2,
    );
    let disk = disk(image_of(files(), records, space()));
    let fs = Filesystem::mount_rw(reader(&disk), true, SIZE).unwrap();
    assert!(!fs.can_write_in_place(COW_FREE).unwrap());
    assert!(fs.write_at(COW_FREE, 0, b"x").is_ok(), "the first is not shared");
    let err = fs.write_at(COW_FREE, NODE - 1, b"xy").unwrap_err();
    assert!(err.to_string().contains("has 2 references"), "{err:?}");
}

#[test]
fn an_extent_without_a_record_is_not_overwritten() {
    let mut records = extents();
    records.retain(|(k, _)| k.objectid != FIRST || k.key_type != key_type::EXTENT_ITEM);
    let disk = disk(image_of(files(), records, space()));
    let fs = Filesystem::mount_rw(reader(&disk), true, SIZE).unwrap();
    let err = fs.write_at(COW_FREE, 0, b"x").unwrap_err();
    assert!(err.to_string().contains("holds no item for the extent"), "{err:?}");
    assert!(fs.can_write_in_place(COW_FREE).is_err());
}

#[test]
fn a_reference_that_leaves_its_extent_is_not_overwritten() {
    let mut tree = files();
    *under(&mut tree, key(COW_FREE, EXTENT_DATA_KEY, 0)) = stored_extent(FIRST, 2 * NODE);
    let disk = disk(image_of(tree, extents(), space()));
    let fs = Filesystem::mount_rw(reader(&disk), true, SIZE).unwrap();
    let err = fs.write_at(COW_FREE, 0, b"x").unwrap_err();
    assert!(err.to_string().contains("outside the 4096-byte extent"), "{err:?}");
}

#[test]
fn a_file_that_is_checksummed_is_not_overwritten() {
    let mut tree = files();
    *under(&mut tree, key(COW_FREE, INODE_ITEM_KEY, 0)) =
        inode(0o100644, 4 * NODE, INODE_NODATACOW);
    let disk = disk(image_of(tree, extents(), space()));
    let fs = Filesystem::mount_rw(reader(&disk), true, SIZE).unwrap();
    let err = fs.write_at(COW_FREE, 0, b"x").unwrap_err();
    assert!(err.to_string().contains("nodatacow but still checksummed"), "{err:?}");
}

#[test]
fn compressed_extents_are_decoded_and_then_cut() {
    let plain: Vec<u8> = (0..2 * NODE).map(|i| (i / 7) as u8).collect();
    let packed = miniz_oxide::deflate::compress_to_vec_zlib(&plain, 6);
    let mut extent = stored_extent(FIRST, NODE);
    extent[16] = 1;
    put64(&mut extent, 8, plain.len() as u64);
    put64(&mut extent, 29, packed.len() as u64);
    put64(&mut extent, 37, 100);
    let mut tree = files();
    *under(&mut tree, key(COW_FREE, EXTENT_DATA_KEY, 0)) = extent;
    let mut image = image_of(tree, extents(), space());
    image[FIRST as usize..FIRST as usize + packed.len()].copy_from_slice(&packed);
    let disk = disk(image);
    let fs = Filesystem::mount_rw(reader(&disk), true, SIZE).unwrap();
    let all = fs.read_file(COW_FREE).unwrap();
    assert_eq!(&all[..NODE as usize], &plain[100..100 + NODE as usize]);
    let mut buf = [0u8; 50];
    fs.read_at(COW_FREE, 1000, &mut buf).unwrap();
    assert_eq!(&buf[..], &plain[1100..1150]);
    let err = fs.write_at(COW_FREE, 0, b"x").unwrap_err();
    assert!(err.to_string().contains("is in a compressed extent"), "{err:?}");
}

/// Where the checksum tree goes in a volume that has one.
const SUMS: u64 = METADATA + NODES * NODE;

/// `image` with a checksum tree that names the sectors at `sectors`, by what
/// they hold now.
fn with_sums(mut image: Vec<u8>, sectors: &[u64]) -> Vec<u8> {
    let sb = Superblock::parse(&superblock()).unwrap();
    let mut trees = roots();
    trees.push((
        key(CSUM_TREE_OBJECTID, ROOT_ITEM_KEY, 0),
        root_entry(SUMS, 0),
    ));
    let sums = sectors
        .iter()
        .map(|&at| {
            let sector = &image[at as usize..(at + NODE) as usize];
            let digest = ChecksumType::Crc32c.digest(sector)[..4].to_vec();
            (key(EXTENT_CSUM_OBJECTID, EXTENT_CSUM_KEY, at), digest)
        })
        .collect();
    for (at, owner, items) in [(ROOT, 1, trees), (SUMS, CSUM_TREE_OBJECTID, sums)] {
        let block = leaf(&sb, at, owner, items);
        for copy in [at, at - METADATA + MIRROR] {
            image[copy as usize..copy as usize + block.len()].copy_from_slice(&block);
        }
    }
    image
}

#[test]
fn data_that_matches_its_digests_is_read() {
    let plain = Filesystem::mount(reader(&disk(image()))).unwrap();
    let summed = Filesystem::mount(reader(&disk(with_sums(image(), &[FIRST, SECOND])))).unwrap();
    let all = plain.read_file(COW_FREE).unwrap();
    assert_eq!(summed.read_file(COW_FREE).unwrap(), all);
    for (offset, len) in [(0usize, 10usize), (4090, 20), (8190, 5), (16380, 100)] {
        let mut buf = vec![0u8; len];
        let n = summed.read_at(COW_FREE, offset as u64, &mut buf).unwrap();
        assert_eq!(&buf[..n], &all[offset..(offset + len).min(all.len())]);
    }
}

#[test]
fn a_sector_that_does_not_match_its_digest_is_refused() {
    let mut image = with_sums(image(), &[SECOND]);
    // The sector the tree is silent about is not checked.
    image[FIRST as usize] ^= 1;
    image[SECOND as usize + 77] ^= 1;
    let fs = Filesystem::mount(reader(&disk(image))).unwrap();
    let want = Error::ChecksumMismatch {
        what: "data sector",
        offset: SECOND,
    };
    assert_eq!(
        want.to_string(),
        format!("data sector at offset {SECOND} failed its checksum")
    );
    assert_eq!(fs.read_file(COW_FREE), Err(want));
    let mut buf = [0u8; 10];
    assert_eq!(fs.read_at(COW_FREE, 0, &mut buf).unwrap(), 10);
    assert_eq!(buf[0], 0x10);
    // Neither end of the window is near the byte that changed.
    assert!(matches!(
        fs.read_at(COW_FREE, NODE + 2000, &mut buf),
        Err(Error::ChecksumMismatch { offset: SECOND, .. })
    ));
}

#[test]
fn compressed_data_is_checked_before_it_is_decoded() {
    let plain: Vec<u8> = (0..2 * NODE).map(|i| (i / 7) as u8).collect();
    let packed = miniz_oxide::deflate::compress_to_vec_zlib(&plain, 6);
    let mut extent = stored_extent(FIRST, NODE);
    extent[16] = 1;
    put64(&mut extent, 8, plain.len() as u64);
    put64(&mut extent, 29, packed.len() as u64);
    let mut tree = files();
    *under(&mut tree, key(COW_FREE, EXTENT_DATA_KEY, 0)) = extent;
    let mut image = image_of(tree, extents(), space());
    image[FIRST as usize..FIRST as usize + packed.len()].copy_from_slice(&packed);
    let mut image = with_sums(image, &[FIRST]);
    let mut buf = [0u8; 50];
    let fs = Filesystem::mount(reader(&disk(image.clone()))).unwrap();
    assert_eq!(fs.read_at(COW_FREE, 1000, &mut buf).unwrap(), 50);
    assert_eq!(&buf[..], &plain[1000..1050]);
    image[FIRST as usize + 5] ^= 1;
    let fs = Filesystem::mount(reader(&disk(image))).unwrap();
    assert!(matches!(
        fs.read_at(COW_FREE, 1000, &mut buf),
        Err(Error::ChecksumMismatch { offset: FIRST, .. })
    ));
}

#[test]
fn a_damaged_checksum_tree_stops_the_read() {
    let mut image = with_sums(image(), &[FIRST]);
    image[SUMS as usize + 200] ^= 1;
    image[(SUMS - METADATA + MIRROR) as usize + 200] ^= 1;
    let fs = Filesystem::mount(reader(&disk(image))).unwrap();
    assert!(matches!(
        fs.read_file(COW_FREE),
        Err(Error::ChecksumMismatch { what: "tree block", offset: SUMS })
    ));
    assert_eq!(fs.read_file(258).unwrap(), b"hello world");
}

#[test]
fn unwritten_space_reads_as_zeros() {
    let mut prealloc = stored_extent(FIRST, NODE);
    prealloc[20] = 2;
    let mut tree = files();
    *under(&mut tree, key(COW_FREE, EXTENT_DATA_KEY, 0)) = prealloc;
    let fs = Filesystem::mount(reader(&disk(image_of(tree, extents(), space())))).unwrap();
    let all = fs.read_file(COW_FREE).unwrap();
    assert!(all[..NODE as usize].iter().all(|&b| b == 0));
}

#[test]
fn malformed_extents_are_refused() {
    let refused = |extent: Vec<u8>| {
        let mut tree = files();
        *under(&mut tree, key(COW_FREE, EXTENT_DATA_KEY, 0)) = extent;
        let fs = Filesystem::mount(reader(&disk(image_of(tree, extents(), space())))).unwrap();
        fs.read_file(COW_FREE).unwrap_err().to_string()
    };
    assert!(refused(vec![0; 20]).contains("too short to hold a type"));
    let mut short = vec![0u8; 30];
    short[20] = 1;
    assert!(refused(short).contains("non-inline extent item is 30 bytes, need 53"));
    let mut encrypted = stored_extent(FIRST, NODE);
    encrypted[17] = 1;
    assert!(refused(encrypted).contains("extent is encoded (encryption 1, other 0)"));
    let mut unknown = stored_extent(FIRST, NODE);
    unknown[20] = 9;
    assert!(refused(unknown).contains("extent type 9 is not a defined value"));
    let mut outside = stored_extent(FIRST, NODE);
    put64(&mut outside, 37, 1);
    assert!(refused(outside).contains("covers [1, +4096) of an extent that is 4096 bytes long"));
}

#[test]
fn a_file_larger_than_its_volume_is_not_read_whole() {
    let mut tree = files();
    *under(&mut tree, key(258, INODE_ITEM_KEY, 0)) = inode(0o100600, SIZE + 1, 0);
    *under(&mut tree, key(259, INODE_ITEM_KEY, 0)) = inode(0o120777, 4097, 0);
    let fs = Filesystem::mount(reader(&disk(image_of(tree, extents(), space())))).unwrap();
    let err = fs.read_file(258).unwrap_err();
    assert!(err.to_string().contains("more than the 6291456 the filesystem holds"), "{err:?}");
    let mut buf = [1u8; 16];
    assert_eq!(fs.read_at(258, 0, &mut buf).unwrap(), 16);
    assert_eq!(&buf, b"hello world\0\0\0\0\0");
    let err = fs.read_link(259).unwrap_err();
    assert!(err.to_string().contains("is longer than any path"), "{err:?}");
}

#[test]
fn a_bitmap_is_read_least_significant_bit_first() {
    let mut cache = space();
    cache.retain(|(k, _)| k.objectid < METADATA || k.objectid >= METADATA + MIB);
    let mut info = space_info(3);
    info[4] = 1;
    cache.push((key(METADATA, key_type::FREE_SPACE_INFO, MIB), info));
    cache.push((
        key(METADATA, key_type::FREE_SPACE_BITMAP, 8 * NODE),
        vec![0b1011_0010],
    ));
    cache.push((
        key(METADATA + 8 * NODE, key_type::FREE_SPACE_EXTENT, NODE),
        Vec::new(),
    ));
    let fs = Filesystem::mount(reader(&disk(image_of(files(), extents(), cache)))).unwrap();
    let group = fs.block_groups().unwrap()[0];
    let at = |sector: u64, sectors: u64| FreeExtent {
        start: METADATA + sector * NODE,
        len: sectors * NODE,
    };
    assert_eq!(
        fs.cached_free_extents(&group).unwrap(),
        Some(vec![at(1, 1), at(4, 2), at(7, 2)])
    );
}

#[test]
fn a_group_the_cache_does_not_know_is_reported() {
    let mut cache = space();
    cache.retain(|(k, _)| k.objectid >= DATA);
    let fs = Filesystem::mount(reader(&disk(image_of(files(), extents(), cache)))).unwrap();
    let group = fs.block_groups().unwrap()[0];
    let err = fs.cached_free_extents(&group).unwrap_err();
    assert!(err.to_string().contains("holds no info item"), "{err:?}");
}

/// `image` with these items in its root tree.
fn with_roots(mut image: Vec<u8>, trees: Items) -> Vec<u8> {
    let sb = Superblock::parse(&superblock()).unwrap();
    let block = leaf(&sb, ROOT, 1, trees);
    for copy in [ROOT, ROOT - METADATA + MIRROR] {
        image[copy as usize..copy as usize + block.len()].copy_from_slice(&block);
    }
    image
}

#[test]
fn a_volume_without_a_free_space_tree_has_no_cache() {
    let mut trees = roots();
    trees.retain(|(k, _)| k.objectid != objectid::FREE_SPACE_TREE);
    let fs = Filesystem::mount(reader(&disk(with_roots(image(), trees)))).unwrap();
    let group = fs.block_groups().unwrap()[0];
    assert_eq!(fs.cached_free_extents(&group), Ok(None));
    let leaves = fs.free_space_leaves_for(&[FILES]).unwrap();
    assert_eq!(leaves.as_slice(), &[] as &[u64]);
    let plan = fs.plan_transaction_closed(&[FILES], 8).unwrap();
    assert!(!plan.trees().contains(&objectid::FREE_SPACE_TREE));
}

#[test]
fn a_root_tree_that_cannot_be_read_does_not_say_there_is_no_cache() {
    let disk = disk(image());
    let fs = Filesystem::mount(reader(&disk)).unwrap();
    let group = fs.block_groups().unwrap()[0];
    for copy in [ROOT, ROOT - METADATA + MIRROR] {
        disk.lock().unwrap()[copy as usize + 200] ^= 1;
    }
    let damaged = Error::ChecksumMismatch {
        what: "tree block",
        offset: ROOT,
    };
    assert_eq!(fs.cached_free_extents(&group), Err(damaged.clone()));
    assert_eq!(fs.free_space_leaves_for(&[FILES]).err(), Some(damaged));
}

/// The two leaves of an extent tree whose root is a node.
const LEFT: u64 = METADATA + 5 * NODE;
const RIGHT: u64 = METADATA + 6 * NODE;

/// Of an extent tree in two leaves, what each holds. The record of the file
/// tree ends the first, and the second begins with a reference to it.
fn divided_extents() -> (Items, Items) {
    let mut items = extents();
    items.retain(|(k, _)| *k != key(EXTENTS, key_type::METADATA_ITEM, 0));
    for (bytenr, level) in [(EXTENTS, 1), (LEFT, 0), (RIGHT, 0)] {
        let alloc = TreeBlockAllocation {
            bytenr,
            level,
            generation: GENERATION,
            owner: objectid::EXTENT_TREE,
        };
        items.push((alloc.key(), alloc.body().to_vec()));
    }
    items.push((key(FILES, 176, FS_TREE_OBJECTID), Vec::new()));
    items.sort_by_key(|(k, _)| (k.objectid, k.key_type, k.offset));
    let at = items.iter().position(|(k, _)| k.key_type == 176).unwrap();
    let right = items.split_off(at);
    (items, right)
}

fn divided_image() -> Vec<u8> {
    let (left, right) = divided_extents();
    let mut cache = space();
    let free = METADATA + 7 * NODE;
    cache[1].0 = key(free, key_type::FREE_SPACE_EXTENT, MIB - 7 * NODE);
    let mut image = image_of(files(), extents(), cache);
    let sb = Superblock::parse(&superblock()).unwrap();
    let id = BlockIdentity {
        bytenr: EXTENTS,
        owner: objectid::EXTENT_TREE,
        generation: GENERATION,
        level: 1,
        flags: flags_for_new_block(),
        chunk_tree_uuid: [0xC4; 16],
    };
    let ptrs = [(&left, LEFT), (&right, RIGHT)].map(|(items, blockptr)| KeyPtr {
        key: items[0].0,
        blockptr,
        generation: GENERATION,
    });
    let node = build_node(&sb, id, &ptrs).unwrap();
    for (at, block) in [
        (EXTENTS, node),
        (LEFT, leaf(&sb, LEFT, objectid::EXTENT_TREE, left)),
        (RIGHT, leaf(&sb, RIGHT, objectid::EXTENT_TREE, right)),
    ] {
        for copy in [at, at - METADATA + MIRROR] {
            image[copy as usize..copy as usize + block.len()].copy_from_slice(&block);
        }
    }
    image
}

#[test]
fn a_record_lies_before_the_reference_the_next_leaf_begins_with() {
    let fs = Filesystem::mount(reader(&disk(divided_image()))).unwrap();
    let lands = |k: DiskKey| fs.extent_leaves_for(&[k]).unwrap().as_slice().to_vec();
    assert_eq!(lands(key(FILES, key_type::METADATA_ITEM, 0)), vec![LEFT]);
    assert_eq!(lands(key(FILES, 175, u64::MAX)), vec![LEFT]);
    assert_eq!(lands(key(FILES, 176, FS_TREE_OBJECTID)), vec![RIGHT]);
    assert_eq!(lands(key(SPACE, key_type::METADATA_ITEM, 0)), vec![RIGHT]);
    // What precedes everything lands in the first leaf, what is past
    // everything in the last.
    assert_eq!(lands(key(0, 0, 0)), vec![LEFT]);
    assert_eq!(lands(key(u64::MAX, 0, 0)), vec![RIGHT]);
}

/// Everything the extent tree holds.
fn extent_items<R>(fs: &Filesystem<R>) -> Items
where
    R: Fn(usize, u64, usize) -> Result<Vec<u8>>,
{
    let items = fs.for_each_extent_item().unwrap();
    items.iter().map(|i| (i.key, i.data.to_vec())).collect()
}

#[test]
fn a_committed_transaction_moves_the_records() {
    let disk = disk(divided_image());
    let fs = Filesystem::mount_rw(reader(&disk), true, SIZE).unwrap();
    let generation = GENERATION + 1;
    let before = extent_items(&fs);
    let groups = fs.block_groups().unwrap();
    let free: Vec<_> = groups.iter().map(|g| fs.free_extents(g).unwrap()).collect();
    let plan = fs.plan_transaction_closed(&[FILES], 8).unwrap();
    assert!(plan.released().contains(&LEFT), "where the record is");
    let blocks = fs.render_plan(&plan, generation).unwrap();
    let commit = Commit {
        generation,
        root: fs.planned_root(&plan).unwrap(),
        ..Commit::default()
    };
    let actions = fs.commit(&blocks, &commit).unwrap();
    perform(&disk, &actions);

    // The extent tree: what it held, without a record for what was released
    // and with one for what was taken, in key order.
    let mut expected = before;
    for r in &plan.rewrites {
        let old = key(r.old, key_type::METADATA_ITEM, u64::from(r.level));
        assert_eq!(expected.iter().filter(|(k, _)| *k == old).count(), 1);
        expected.retain(|(k, _)| *k != old);
        let alloc = TreeBlockAllocation {
            bytenr: r.new,
            level: r.level,
            generation,
            owner: r.owner,
        };
        expected.push((alloc.key(), alloc.body().to_vec()));
    }
    expected.sort_by_key(|(k, _)| (k.objectid, k.key_type, k.offset));
    let new = Filesystem::mount(reader(&disk)).unwrap();
    assert_eq!(extent_items(&new), expected);

    // The free-space tree: group by group what was free or is released, and
    // is not taken.
    assert_eq!(new.block_groups().unwrap(), groups);
    for (group, was) in groups.iter().zip(&free) {
        let now = new.cached_free_extents(group).unwrap().unwrap();
        let inside = |runs: &[FreeExtent], at: u64| {
            runs.iter().any(|f| f.start <= at && at < f.start + f.len)
        };
        for at in (group.start..group.start + group.length).step_by(NODE as usize) {
            let expected = (inside(was, at) || plan.released().contains(&at))
                && !plan.allocated().contains(&at);
            assert_eq!(inside(&now, at), expected, "{at}");
        }
    }
    assert_eq!(new.read_path("/small").unwrap(), b"hello world");
}

#[test]
fn a_transaction_without_a_record_to_change_is_refused() {
    let mut records = extents();
    records.retain(|(k, _)| k.objectid != FILES);
    let fs = Filesystem::mount(reader(&disk(image_of(files(), records, space())))).unwrap();
    let plan = fs.plan_transaction_closed(&[FILES], 8).unwrap();
    let err = fs.render_plan(&plan, GENERATION + 1).unwrap_err();
    assert!(err.to_string().contains("no item under"), "{err:?}");
}

#[test]
fn one_round_does_not_close_a_plan() {
    let fs = Filesystem::mount(reader(&disk(image()))).unwrap();
    let err = fs.plan_transaction_closed(&[FILES], 1).unwrap_err();
    assert!(err.to_string().contains("did not settle in 1 rounds"), "{err:?}");
}

#[test]
fn names_that_share_a_hash_are_told_apart() {
    let hash = name_hash(b"small");
    let mut tree = files();
    let packed = under(&mut tree, key(256, DIR_ITEM_KEY, hash));
    let mut both = record(260, ftype::DIR, INODE_ITEM_KEY, b"other", b"");
    both.extend_from_slice(packed);
    *packed = both;
    let fs = Filesystem::mount(reader(&disk(image_of(tree, extents(), space())))).unwrap();
    assert_eq!(fs.lookup_hashed(256, hash, b"other").unwrap().ino, 260);
    assert_eq!(fs.lookup(256, b"small").unwrap().ino, 258);
}

/// The volume again, its data chunk on a second device.
fn pool() -> [Vec<u8>; 2] {
    let mut first = image();
    let mut second = vec![0u8; 3 * MIB as usize];
    let at = SUPER_INFO_OFFSET as usize;
    put64(&mut first[at..], offsets::NUM_DEVICES, 2);
    reseal(&mut first[at..]);
    let sb = Superblock::parse(&first[at..at + SUPER_INFO_SIZE]).unwrap();
    let mut map = chunks();
    let data = under(
        &mut map,
        key(objectid::FIRST_CHUNK_TREE, key_type::CHUNK_ITEM, DATA),
    );
    *data = chunk_item(MIB, block_group::DATA, &[MIB]);
    put64(data, 48, 2);
    let block = leaf(&sb, CHUNK_ROOT, 3, map);
    first[CHUNK_ROOT as usize..(CHUNK_ROOT + NODE) as usize].copy_from_slice(&block);
    first[FIRST as usize..].fill(0);

    let mut raw = first[at..at + SUPER_INFO_SIZE].to_vec();
    put64(&mut raw, offsets::DEV_ITEM + dev_item_offsets::DEVID, 2);
    reseal(&mut raw);
    second[at..at + SUPER_INFO_SIZE].copy_from_slice(&raw);
    second[MIB as usize..(MIB + NODE) as usize].fill(0x33);
    let next = MIB + SECOND - DATA;
    second[next as usize..(next + NODE) as usize].fill(0x44);
    [first, second]
}

fn pool_reader(devices: Vec<Vec<u8>>) -> impl Fn(usize, u64, usize) -> Result<Vec<u8>> {
    move |device, at, len| {
        let from = at as usize;
        match devices.get(device).and_then(|d| d.get(from..from + len)) {
            Some(found) => Ok(found.to_vec()),
            None => Err(Error::Io(format!("no {len} bytes at {at} of device {device}"))),
        }
    }
}

#[test]
fn a_pool_reads_each_chunk_from_its_device() {
    let [a, b] = pool();
    for devices in [vec![a.clone(), b.clone()], vec![b.clone(), a.clone()]] {
        let fs = Filesystem::mount_pool(pool_reader(devices), 2).unwrap();
        assert_eq!(fs.read_path("/small").unwrap(), b"hello world");
        let all = fs.read_file(COW_FREE).unwrap();
        assert_eq!((all[0], all[NODE as usize]), (0x33, 0x44));
        assert!(!fs.is_writable());
    }
    let err = Filesystem::mount_pool(pool_reader(vec![a]), 1).err().unwrap();
    assert!(err.to_string().contains("spans 2 devices and 1 was given"), "{err:?}");
}

#[test]
fn a_pool_is_one_filesystem() {
    let [a, mut b] = pool();
    let at = SUPER_INFO_OFFSET as usize;
    b[at + offsets::FSID] ^= 1;
    b[at + offsets::DEV_ITEM + dev_item_offsets::FSID] ^= 1;
    reseal(&mut b[at..]);
    let err = Filesystem::mount_pool(pool_reader(vec![a, b]), 2).err();
    assert_eq!(
        err,
        Some(Error::UnsupportedFeature(
            "these devices belong to different filesystems".into()
        ))
    );
}
