//! Well-known objectid numbers.

use vstd::prelude::*;

verus! {

/// `BTRFS_DEV_ITEMS_OBJECTID` — the objectid device items are filed
/// under. Shares the numeric value 1 with the root tree's objectid;
/// they live in different trees, so there is no ambiguity.
pub const DEV_ITEMS: u64 = 1;
/// `BTRFS_ROOT_TREE_OBJECTID`.
pub const ROOT_TREE: u64 = 1;
/// `BTRFS_EXTENT_TREE_OBJECTID`.
pub const EXTENT_TREE: u64 = 2;
/// `BTRFS_CHUNK_TREE_OBJECTID`.
pub const CHUNK_TREE: u64 = 3;
/// `BTRFS_DEV_TREE_OBJECTID`.
pub const DEV_TREE: u64 = 4;
/// `BTRFS_FS_TREE_OBJECTID`.
pub const FS_TREE: u64 = 5;
/// `BTRFS_FREE_SPACE_TREE_OBJECTID`.
pub const FREE_SPACE_TREE: u64 = 10;
/// `BTRFS_FIRST_CHUNK_TREE_OBJECTID` — the objectid every chunk item
/// is filed under.
pub const FIRST_CHUNK_TREE: u64 = 256;

} // verus!
