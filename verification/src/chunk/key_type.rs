//! Well-known key type numbers.

use vstd::prelude::*;

verus! {

/// `BTRFS_EXTENT_ITEM_KEY`: an allocated run, its length in the key offset.
pub const EXTENT_ITEM: u8 = 168;
/// `BTRFS_METADATA_ITEM_KEY`: an allocated tree block, its level in the key
/// offset.
pub const METADATA_ITEM: u8 = 169;
/// `BTRFS_BLOCK_GROUP_ITEM_KEY`.
pub const BLOCK_GROUP_ITEM: u8 = 192;
/// `BTRFS_FREE_SPACE_INFO_KEY`.
pub const FREE_SPACE_INFO: u8 = 198;
/// `BTRFS_FREE_SPACE_EXTENT_KEY`.
pub const FREE_SPACE_EXTENT: u8 = 199;
/// `BTRFS_FREE_SPACE_BITMAP_KEY`.
pub const FREE_SPACE_BITMAP: u8 = 200;
/// `BTRFS_DEV_ITEM_KEY`.
pub const DEV_ITEM: u8 = 216;
/// `BTRFS_CHUNK_ITEM_KEY`.
pub const CHUNK_ITEM: u8 = 228;

} // verus!
