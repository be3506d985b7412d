//! Directory items.

use fs_btrfs::chunk::DISK_KEY_SIZE;
use fs_btrfs::dir::{
    ftype, ftype_from_raw, name_hash, offsets, parse_dir_items, DIR_ITEM_HEADER_SIZE, MAX_NAME_LEN,
};
use fs_btrfs::error::Error;
use fs_btrfs::inode::{FileType, INODE_ITEM_KEY};

fn encode(name: &[u8], ino: u64, ft: u8, loc_type: u8, value: &[u8]) -> Vec<u8> {
    let mut b = vec![0u8; DIR_ITEM_HEADER_SIZE];
    b[0..8].copy_from_slice(&ino.to_le_bytes());
    b[8] = loc_type;
    b[9..17].copy_from_slice(&0u64.to_le_bytes());
    b[offsets::TRANSID..offsets::TRANSID + 8].copy_from_slice(&42u64.to_le_bytes());
    b[offsets::DATA_LEN..offsets::DATA_LEN + 2]
        .copy_from_slice(&(value.len() as u16).to_le_bytes());
    b[offsets::NAME_LEN..offsets::NAME_LEN + 2]
        .copy_from_slice(&(name.len() as u16).to_le_bytes());
    b[offsets::TYPE] = ft;
    b.extend_from_slice(name);
    b.extend_from_slice(value);
    b
}

fn one(name: &[u8], ino: u64, ft: u8) -> Vec<u8> {
    encode(name, ino, ft, INODE_ITEM_KEY, &[])
}

#[test]
fn parses_a_single_entry() {
    let entries = parse_dir_items(&one(b"hello.txt", 257, ftype::REG_FILE)).unwrap();
    assert_eq!(entries.len(), 1);
    assert_eq!(entries[0].name, b"hello.txt");
    assert_eq!(entries[0].ino, 257);
    assert_eq!(entries[0].ftype, Some(FileType::Regular));
    assert_eq!(entries[0].transid, 42);
    assert!(entries[0].is_inode());
}

#[test]
fn parses_several_entries_packed_into_one_item() {
    let mut data = one(b"a", 300, ftype::REG_FILE);
    data.extend(one(b"bb", 301, ftype::DIR));
    data.extend(one(b"ccc", 302, ftype::SYMLINK));
    let entries = parse_dir_items(&data).unwrap();
    assert_eq!(entries.len(), 3);
    assert_eq!(entries[0].name, b"a");
    assert_eq!(entries[1].name, b"bb");
    assert_eq!(entries[2].name, b"ccc");
    assert_eq!(entries[1].ftype, Some(FileType::Directory));
    assert_eq!(entries[2].ino, 302);
}

#[test]
fn a_trailing_value_is_skipped_by_exactly_its_length() {
    let mut data = encode(b"user.thing", 0, ftype::XATTR, 0, b"the value");
    data.extend(one(b"after", 400, ftype::REG_FILE));
    let entries = parse_dir_items(&data).unwrap();
    assert_eq!(entries.len(), 2);
    assert_eq!(entries[0].name, b"user.thing");
    assert_eq!(entries[0].ftype, None, "an xattr is not a file type");
    assert_eq!(entries[1].name, b"after");
}

#[test]
fn an_entry_naming_a_subvolume_is_flagged_as_such() {
    let entries = parse_dir_items(&encode(b"sub", 260, ftype::DIR, 132, &[])).unwrap();
    assert!(!entries[0].is_inode());
    assert_eq!(entries[0].location_type, 132);
}

#[test]
fn dir_empty_data_is_an_empty_list() {
    assert!(parse_dir_items(&[]).unwrap().is_empty());
}

#[test]
fn rejects_a_truncated_header() {
    let data = vec![0u8; DIR_ITEM_HEADER_SIZE - 1];
    assert!(matches!(
        parse_dir_items(&data),
        Err(Error::BadSuperblock(_))
    ));
}

#[test]
fn rejects_a_name_running_past_the_end() {
    let mut data = one(b"name", 300, ftype::REG_FILE);
    data[offsets::NAME_LEN..offsets::NAME_LEN + 2].copy_from_slice(&200u16.to_le_bytes());
    assert!(matches!(
        parse_dir_items(&data),
        Err(Error::BadSuperblock(_))
    ));
}

#[test]
fn rejects_an_empty_name() {
    let mut data = one(b"name", 300, ftype::REG_FILE);
    data[offsets::NAME_LEN..offsets::NAME_LEN + 2].copy_from_slice(&0u16.to_le_bytes());
    assert!(matches!(
        parse_dir_items(&data),
        Err(Error::BadSuperblock(_))
    ));
}

#[test]
fn rejects_a_name_past_the_format_limit() {
    let mut data = one(b"name", 300, ftype::REG_FILE);
    data[offsets::NAME_LEN..offsets::NAME_LEN + 2]
        .copy_from_slice(&((MAX_NAME_LEN + 1) as u16).to_le_bytes());
    data.resize(DIR_ITEM_HEADER_SIZE + MAX_NAME_LEN + 1, b'x');
    match parse_dir_items(&data) {
        Err(Error::BadSuperblock(m)) => assert!(m.contains("255"), "message: {m}"),
        other => panic!("expected a refusal, got {other:?}"),
    }
}

#[test]
fn rejects_data_the_entries_do_not_exactly_consume() {
    let mut data = one(b"name", 300, ftype::REG_FILE);
    data.push(0);
    match parse_dir_items(&data) {
        Err(Error::BadSuperblock(m)) => {
            assert!(
                m.contains('1') && m.contains(&DIR_ITEM_HEADER_SIZE.to_string()),
                "message should name the leftover byte count and the header size: {m}"
            );
        }
        other => panic!("expected a refusal, got {other:?}"),
    }
}

#[test]
fn rejects_an_undefined_type_byte() {
    let data = one(b"name", 300, 99);
    assert!(matches!(
        parse_dir_items(&data),
        Err(Error::BadSuperblock(_))
    ));
}

#[test]
fn decodes_every_defined_type_byte() {
    for (raw, want) in [
        (ftype::REG_FILE, Some(FileType::Regular)),
        (ftype::DIR, Some(FileType::Directory)),
        (ftype::CHRDEV, Some(FileType::CharDevice)),
        (ftype::BLKDEV, Some(FileType::BlockDevice)),
        (ftype::FIFO, Some(FileType::Fifo)),
        (ftype::SOCK, Some(FileType::Socket)),
        (ftype::SYMLINK, Some(FileType::Symlink)),
        (ftype::UNKNOWN, None),
        (ftype::XATTR, None),
    ] {
        assert_eq!(ftype_from_raw(raw).unwrap(), want, "raw type {raw}");
    }
}

#[test]
fn name_hash_matches_an_independently_computed_vector() {
    assert_eq!(name_hash(b"hello"), 0x5d9f_2b1f);
    assert_eq!(name_hash(b"f1.txt"), 0xb0c1_9af9);
    assert_eq!(name_hash(b"many"), 0xb870_7cbf);
    assert_eq!(name_hash(b"."), 0xd32c_1e54);
    assert_eq!(name_hash(b".."), 0x1aa9_502b);
    assert_eq!(name_hash(b""), u64::from(!1u32));
}

#[test]
fn the_header_arithmetic_closes() {
    assert_eq!(DIR_ITEM_HEADER_SIZE, 30);
    assert_eq!(offsets::NAME, DIR_ITEM_HEADER_SIZE);
    assert_eq!(offsets::TRANSID, DISK_KEY_SIZE);
    assert_eq!(offsets::TYPE + 1, offsets::NAME);
}
