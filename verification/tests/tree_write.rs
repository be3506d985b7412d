//! Building tree blocks.

use fs_btrfs::btree::{key_before, HEADER_SIZE, ITEM_SIZE};
use fs_btrfs::chunk::DiskKey;
use fs_btrfs::tree_write::{space_needed, LeafItem};

fn key(objectid: u64, key_type: u8, offset: u64) -> DiskKey {
    DiskKey {
        objectid,
        key_type,
        offset,
    }
}

#[test]
fn keys_order_by_all_three_fields() {
    assert!(key_before(&key(1, 0, 0), &key(2, 0, 0)), "objectid first");
    assert!(key_before(&key(1, 1, 0), &key(1, 2, 0)), "then type");
    assert!(key_before(&key(1, 1, 1), &key(1, 1, 2)), "then offset");

    assert!(key_before(&key(1, 99, 0), &key(2, 0, 0)));
    assert!(!key_before(&key(1, 0, 0), &key(1, 0, 0)), "strictly before");
}

#[test]
fn space_is_the_header_plus_each_item_and_its_body() {
    let a = [1u8; 10];
    let b = [2u8; 20];
    let items = [
        LeafItem {
            key: key(1, 1, 0),
            data: &a,
        },
        LeafItem {
            key: key(2, 1, 0),
            data: &b,
        },
    ];
    assert_eq!(space_needed(&items), HEADER_SIZE + 2 * ITEM_SIZE + 10 + 20);
    assert_eq!(
        space_needed(&[]),
        HEADER_SIZE,
        "an empty leaf is its header"
    );
}
