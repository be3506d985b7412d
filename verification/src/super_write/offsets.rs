//! Byte offsets within the superblock that a commit writes.

use vstd::prelude::*;

verus! {

/// The checksum, over everything after it.
pub const CSUM: usize = 0x000;
/// The transaction this superblock commits.
pub const GENERATION: usize = 0x048;
/// The root tree's address — what makes the commit real.
pub const ROOT: usize = 0x050;
/// The chunk tree's address. Moves only when a chunk is allocated.
pub const CHUNK_ROOT: usize = 0x058;
/// Bytes in use. Moves only when usage changes, and must equal the
/// sum of every `BLOCK_GROUP_ITEM.used`.
pub const BYTES_USED: usize = 0x078;
/// The chunk tree's generation.
pub const CHUNK_ROOT_GENERATION: usize = 0x0a4;
/// Height of the root tree. Moves only when its depth changes.
pub const ROOT_LEVEL: usize = 0x0c6;
/// Zero with the free-space tree; tracks generation under
/// `space_cache=v1`.
pub const CACHE_GENERATION: usize = 0x22b;
/// Tracks generation even when the UUID tree is untouched.
pub const UUID_TREE_GENERATION: usize = 0x233;
/// The first of four `btrfs_root_backup` slots.
pub const ROOT_BACKUPS: usize = 0xb2b;

} // verus!
