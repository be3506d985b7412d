//! Byte offsets within a `struct btrfs_header`.
//!
//! The first four fields deliberately mirror the superblock's opening
//! layout — csum, fsid, bytenr, flags at the same offsets — which is a
//! useful sanity anchor: [`crate::superblock::offsets::CSUM`],
//! `FSID` and `BYTENR` carry the same values as the constants below.

use vstd::prelude::*;

verus! {

/// Checksum of bytes `0x20 .. nodesize`.
pub const CSUM: usize = 0x00;
/// Filesystem UUID; `metadata_uuid` when that feature is enabled.
pub const FSID: usize = 0x20;
/// Logical address this block belongs at.
pub const BYTENR: usize = 0x30;
/// Header flags — see [`crate::btree::header_flags`].
pub const FLAGS: usize = 0x38;
/// UUID of the chunk tree this block's addresses were allocated
/// under.
pub const CHUNK_TREE_UUID: usize = 0x40;
/// Transaction id that wrote this block.
pub const GENERATION: usize = 0x50;
/// Objectid of the tree that owns this block.
pub const OWNER: usize = 0x58;
/// Number of key pointers (node) or items (leaf) that follow.
pub const NRITEMS: usize = 0x60;
/// Height above the leaves; 0 means this block *is* a leaf.
pub const LEVEL: usize = 0x64;

} // verus!
