//! Editing the items of a leaf.

use fs_btrfs::chunk::DiskKey;
use fs_btrfs::leaf_edit::{delete, fits, insert, OwnedItem};

fn key(objectid: u64, key_type: u8, offset: u64) -> DiskKey {
    DiskKey {
        objectid,
        key_type,
        offset,
    }
}

fn item(objectid: u64, len: usize) -> OwnedItem {
    OwnedItem {
        key: key(objectid, 1, 0),
        data: vec![objectid as u8; len],
    }
}

#[test]
fn insertion_keeps_the_order_a_search_depends_on() {
    let items = vec![item(1, 8), item(5, 8), item(9, 8)];

    let out = insert(4096, &items, item(7, 8)).expect("inserting");
    let ids: Vec<u64> = out.iter().map(|i| i.key.objectid).collect();
    assert_eq!(ids, vec![1, 5, 7, 9]);

    let out = insert(4096, &items, item(0, 8)).expect("inserting at the front");
    assert_eq!(out[0].key.objectid, 0);
    let out = insert(4096, &items, item(99, 8)).expect("inserting at the back");
    assert_eq!(out.last().unwrap().key.objectid, 99);
}

#[test]
fn inserting_over_an_existing_key_is_refused() {
    let items = vec![item(1, 8), item(5, 8)];
    let err = insert(4096, &items, item(5, 16)).expect_err("5 is already there");
    assert!(err.to_string().contains("already holds"), "{err:?}");
}

#[test]
fn an_item_that_does_not_fit_is_refused_and_says_why() {
    let items = vec![item(1, 3000)];
    let err = insert(4096, &items, item(2, 3000)).expect_err("two 3000-byte items");
    assert!(
        err.to_string().contains("does not fit"),
        "the refusal should name what went wrong: {err:?}"
    );
    assert!(
        err.to_string().contains("insert_or_split"),
        "the refusal should name the function that handles it: {err:?}"
    );
    assert!(!fits(4096, &items, &item(2, 3000)));
    assert!(fits(4096, &items, &item(2, 8)));
}

#[test]
fn deletion_removes_exactly_one_item() {
    let items = vec![item(1, 8), item(5, 8), item(9, 8)];
    let out = delete(&items, &key(5, 1, 0)).expect("deleting");
    let ids: Vec<u64> = out.iter().map(|i| i.key.objectid).collect();
    assert_eq!(ids, vec![1, 9]);
}

#[test]
fn deleting_what_is_not_there_is_refused() {
    let items = vec![item(1, 8)];
    let err = delete(&items, &key(2, 1, 0)).expect_err("2 is not there");
    assert!(err.to_string().contains("no item under"), "{err:?}");
}

#[test]
fn keys_that_share_an_objectid_order_by_type_then_offset() {
    let mut items = vec![
        OwnedItem {
            key: key(1, 1, 0),
            data: vec![0; 8],
        },
        OwnedItem {
            key: key(1, 1, 9),
            data: vec![0; 8],
        },
    ];
    items = insert(
        4096,
        &items,
        OwnedItem {
            key: key(1, 1, 4),
            data: vec![0; 8],
        },
    )
    .expect("inserting between two offsets of one objectid");
    let offsets: Vec<u64> = items.iter().map(|i| i.key.offset).collect();
    assert_eq!(offsets, vec![0, 4, 9]);
}
