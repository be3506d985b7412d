//! Records of tree blocks in the extent tree.

use fs_btrfs::block_group::BlockGroup;
use fs_btrfs::chunk::block_group as bg_flags;
use fs_btrfs::chunk::key_type;
use fs_btrfs::extent_write::{
    used_after_allocating, TreeBlockAllocation, EXTENT_FLAG_DATA, EXTENT_FLAG_TREE_BLOCK,
};

#[test]
fn the_level_is_filed_in_the_key_not_the_body() {
    let alloc = TreeBlockAllocation {
        bytenr: 30_425_088,
        level: 2,
        generation: 7,
        owner: 5,
    };
    let key = alloc.key();
    assert_eq!(key.objectid, 30_425_088);
    assert_eq!(key.key_type, key_type::METADATA_ITEM);
    assert_eq!(key.offset, 2, "the offset is the level");

    let other = TreeBlockAllocation { level: 0, ..alloc };
    assert_eq!(alloc.body(), other.body());
}

#[test]
fn the_body_is_the_thirty_three_bytes_the_kernel_writes() {
    let body = TreeBlockAllocation {
        bytenr: 22_024_192,
        level: 0,
        generation: 6,
        owner: 3,
    }
    .body();

    assert_eq!(body.len(), 33);
    assert_eq!(&body[0..8], &1u64.to_le_bytes(), "refs");
    assert_eq!(&body[8..16], &6u64.to_le_bytes(), "generation");
    assert_eq!(&body[16..24], &2u64.to_le_bytes(), "flags = TREE_BLOCK");
    assert_eq!(body[24], 0xb0, "an inline TREE_BLOCK_REF");
    assert_eq!(&body[25..33], &3u64.to_le_bytes(), "the owning tree");
}

#[test]
fn a_tree_block_is_not_flagged_as_data() {
    let body = TreeBlockAllocation {
        bytenr: 4096,
        level: 1,
        generation: 1,
        owner: 5,
    }
    .body();
    let flags = u64::from_le_bytes(body[16..24].try_into().unwrap());
    assert_eq!(flags & EXTENT_FLAG_TREE_BLOCK, EXTENT_FLAG_TREE_BLOCK);
    assert_eq!(flags & EXTENT_FLAG_DATA, 0);
}

fn group(used: u64, length: u64) -> BlockGroup {
    BlockGroup {
        start: 22_020_096,
        length,
        used,
        flags: bg_flags::METADATA,
    }
}

#[test]
fn allocating_moves_the_groups_used_count_up() {
    let g = group(16384, 1 << 20);
    assert_eq!(used_after_allocating(&g, 4096).unwrap(), 20480);
    let g = group((1 << 20) - 4096, 1 << 20);
    assert_eq!(used_after_allocating(&g, 4096).unwrap(), 1 << 20);
}

#[test]
fn overfilling_a_group_is_refused() {
    let g = group(1 << 20, 1 << 20);
    assert!(used_after_allocating(&g, 4096).is_err(), "a full group");

    let g = group((1 << 20) - 1, 1 << 20);
    assert!(
        used_after_allocating(&g, 4096).is_err(),
        "one free byte is not four thousand"
    );
}
