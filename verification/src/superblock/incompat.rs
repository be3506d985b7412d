//! `incompat_flags` bits. A volume setting a bit this driver does not
//! understand cannot be read at all, let alone written.

use vstd::prelude::*;

verus! {

/// Extent back-references use the mixed format. Universal since 2.6.31.
pub const MIXED_BACKREF: u64 = 0x1;
/// A non-default subvolume is set as the mount default.
pub const DEFAULT_SUBVOL: u64 = 0x2;
/// Data and metadata share block groups (small-volume layout).
pub const MIXED_GROUPS: u64 = 0x4;
/// Some extents may be LZO-compressed.
pub const COMPRESS_LZO: u64 = 0x8;
/// Some extents may be zstd-compressed.
pub const COMPRESS_ZSTD: u64 = 0x10;
/// Metadata nodes may be larger than one page. Universal since 3.4.
pub const BIG_METADATA: u64 = 0x20;
/// Extended inode references (long/many hard links).
pub const EXTENDED_IREF: u64 = 0x40;
/// The volume contains RAID5 or RAID6 chunks.
pub const RAID56: u64 = 0x80;
/// Metadata back-references use the compact "skinny" key form.
pub const SKINNY_METADATA: u64 = 0x100;
/// File holes are implicit — no explicit hole extents are recorded.
pub const NO_HOLES: u64 = 0x200;
/// Tree nodes are stamped with `metadata_uuid` instead of `fsid`.
pub const METADATA_UUID: u64 = 0x400;
/// RAID1C3 and RAID1C4 (three- and four-way mirror) profiles.
pub const RAID1C34: u64 = 0x800;
/// Zoned-device layout — sequential-write zones, no in-place update.
pub const ZONED: u64 = 0x1000;
/// Second-generation extent tree (global roots, per-block-group trees).
pub const EXTENT_TREE_V2: u64 = 0x2000;
/// Separate tree recording RAID stripe placement.
pub const RAID_STRIPE_TREE: u64 = 0x4000;
/// Simple (non-hierarchical) quota accounting.
///
/// Bit 15 is unassigned; simple quotas take bit 16. Both this and
/// [`REMAP_TREE`] are recent enough that they are worth re-checking
/// against the kernel a reader is expected to interoperate with.
pub const SIMPLE_QUOTA: u64 = 0x10000;
/// Device remap tree.
pub const REMAP_TREE: u64 = 0x20000;

/// Every incompatible feature this driver can read.
///
/// The exclusions are deliberate, not accidental:
///
/// - [`COMPRESS_LZO`] / [`COMPRESS_ZSTD`] — the bit means *some*
///   extent may be compressed by that algorithm.
/// - [`RAID56`] — parity reconstruction is not implemented, and
///   guessing at a RAID5 stripe layout is worse than refusing.
/// - [`ZONED`], [`EXTENT_TREE_V2`], [`RAID_STRIPE_TREE`],
///   [`SIMPLE_QUOTA`], [`REMAP_TREE`] — each restructures something
///   the read path depends on.
pub const SUPPORTED: u64 = MIXED_BACKREF
    | DEFAULT_SUBVOL
    | MIXED_GROUPS
    | BIG_METADATA
    | EXTENDED_IREF
    | SKINNY_METADATA
    | NO_HOLES
    | METADATA_UUID
    | RAID1C34;

} // verus!
