//! Byte offsets of every superblock field, relative to the start of the
//! structure.
//!
//! Kept as named constants rather than inlined numbers so that a reader
//! can diff this block against the format documentation directly, and so
//! that a cross-validation harness can assert against the same names the
//! parser uses.

use vstd::prelude::*;

verus! {

/// Checksum of bytes `0x20 .. 0x1000`.
pub const CSUM: usize = 0x00;
/// Filesystem UUID.
pub const FSID: usize = 0x20;
/// Physical byte offset this superblock copy belongs at.
pub const BYTENR: usize = 0x30;
/// Superblock flags — see [`crate::superblock::super_flags`].
pub const FLAGS: usize = 0x38;
/// `_BHRfS_M`.
pub const MAGIC: usize = 0x40;
/// Transaction id that wrote this superblock.
pub const GENERATION: usize = 0x48;
/// Logical address of the root tree's root node.
pub const ROOT: usize = 0x50;
/// Logical address of the chunk tree's root node.
pub const CHUNK_ROOT: usize = 0x58;
/// Logical address of the log tree's root node, 0 when clean.
pub const LOG_ROOT: usize = 0x60;
/// Legacy `log_root_transid`; unused by modern kernels.
pub const LOG_ROOT_TRANSID: usize = 0x68;
/// Total size of the filesystem across all devices.
pub const TOTAL_BYTES: usize = 0x70;
/// Bytes currently allocated.
pub const BYTES_USED: usize = 0x78;
/// Objectid of the root directory (conventionally 6).
pub const ROOT_DIR_OBJECTID: usize = 0x80;
/// Number of devices in the filesystem.
pub const NUM_DEVICES: usize = 0x88;
/// Sector size in bytes.
pub const SECTORSIZE: usize = 0x90;
/// Metadata node size in bytes.
pub const NODESIZE: usize = 0x94;
/// Legacy `leafsize`; modern kernels call this `__unused_leafsize`
/// and mkfs writes `nodesize` into it.
pub const LEAFSIZE: usize = 0x98;
/// Stripe size in bytes; modern kernels require it to equal
/// `sectorsize`.
pub const STRIPESIZE: usize = 0x9c;
/// Valid byte count within [`SYS_CHUNK_ARRAY`].
pub const SYS_CHUNK_ARRAY_SIZE: usize = 0xa0;
/// Transaction id of the chunk tree root.
pub const CHUNK_ROOT_GENERATION: usize = 0xa4;
/// Compatible feature mask.
pub const COMPAT_FLAGS: usize = 0xac;
/// Read-only-compatible feature mask.
pub const COMPAT_RO_FLAGS: usize = 0xb4;
/// Incompatible feature mask.
pub const INCOMPAT_FLAGS: usize = 0xbc;
/// Metadata checksum algorithm selector.
pub const CSUM_TYPE: usize = 0xc4;
/// Height of the root tree.
pub const ROOT_LEVEL: usize = 0xc6;
/// Height of the chunk tree.
pub const CHUNK_ROOT_LEVEL: usize = 0xc7;
/// Height of the log tree.
pub const LOG_ROOT_LEVEL: usize = 0xc8;
/// Embedded `struct btrfs_dev_item` describing *this* device.
pub const DEV_ITEM: usize = 0xc9;
/// NUL-padded volume label.
pub const LABEL: usize = 0x12b;
/// Free-space-cache generation.
pub const CACHE_GENERATION: usize = 0x22b;
/// UUID tree generation.
pub const UUID_TREE_GENERATION: usize = 0x233;
/// UUID stamped into tree node headers when the `METADATA_UUID`
/// incompatible feature is set.
pub const METADATA_UUID: usize = 0x23b;
/// Number of global roots (extent-tree-v2 era). Zero on every volume
/// this driver will accept.
pub const NR_GLOBAL_ROOTS: usize = 0x24b;
/// Bootstrap chunk mappings — `(key, chunk item)` pairs.
pub const SYS_CHUNK_ARRAY: usize = 0x32b;
/// Four backup root records.
pub const SUPER_ROOTS: usize = 0xb2b;

} // verus!
