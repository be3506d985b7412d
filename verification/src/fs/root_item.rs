//! Byte offsets within `struct btrfs_root_item`.
//!
//! The item opens with an embedded `btrfs_inode_item` of 160 bytes, followed
//! by `generation` and `root_dirid` before the root address.

use vstd::prelude::*;

verus! {

/// `u64`. The transaction this tree was last written in. It stands behind the
/// embedded inode item; the bytes at 16 are inside that inode.
pub const GENERATION: usize = 160;

/// `u64`. The tree's root block.
pub const BYTENR: usize = 176;

/// `u64`. The generation this subvolume was last snapshotted at, or zero if
/// it never was.
pub const LAST_SNAPSHOT: usize = 200;

/// `u64`. Bit 0 is `BTRFS_ROOT_SUBVOL_RDONLY`.
pub const FLAGS: usize = 208;

/// The height of the tree this item names.
pub const LEVEL: usize = 238;

/// The smallest item any of these fields can be read out of.
pub const MIN_SIZE: usize = FLAGS + 8;

} // verus!
