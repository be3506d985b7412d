//! Subvolumes.

use fs_btrfs::subvol::{is_subvolume_id, path_of, reference_name, FS_TREE_OBJECTID};

#[test]
fn internal_trees_are_not_subvolumes() {
    assert!(is_subvolume_id(FS_TREE_OBJECTID), "the default subvolume");
    assert!(is_subvolume_id(256), "the first created one");
    assert!(is_subvolume_id(1000));

    assert!(!is_subvolume_id(1), "the root tree");
    assert!(!is_subvolume_id(2), "the extent tree");
    assert!(!is_subvolume_id(255), "below the free range");

    assert!(
        !is_subvolume_id(u64::MAX - 8),
        "a negatively numbered internal tree is not a subvolume"
    );
    assert!(!is_subvolume_id(u64::MAX));
}

#[test]
fn a_reference_name_is_read_from_its_declared_length() {
    let mut item = vec![0u8; 18];
    item[16..18].copy_from_slice(&3u16.to_le_bytes());
    item.extend_from_slice(b"sub");
    assert_eq!(reference_name(&item).as_deref(), Some(&b"sub"[..]));

    let mut lying = vec![0u8; 18];
    lying[16..18].copy_from_slice(&99u16.to_le_bytes());
    lying.extend_from_slice(b"sub");
    assert_eq!(reference_name(&lying), None);

    assert_eq!(
        reference_name(&[0u8; 4]),
        None,
        "too short to hold a header"
    );
}

#[test]
fn a_path_is_the_chain_of_parents() {
    let mut names = std::collections::BTreeMap::new();
    names.insert(256u64, (5u64, b"sub".to_vec()));
    names.insert(257u64, (256u64, b"inner".to_vec()));

    assert_eq!(path_of(5, &names), "/");
    assert_eq!(path_of(256, &names), "sub");
    assert_eq!(path_of(257, &names), "sub/inner");
}

#[test]
fn a_cycle_in_the_references_terminates() {
    let mut names = std::collections::BTreeMap::new();
    names.insert(256u64, (257u64, b"a".to_vec()));
    names.insert(257u64, (256u64, b"b".to_vec()));

    let path = path_of(256, &names);
    assert!(!path.is_empty());
}
