//! Recording that a tree block is allocated.
//!
//! On a filesystem with `SKINNY_METADATA` an allocated tree block is one
//! 33-byte item:
//!
//! ```text
//!   key   objectid = the block's address
//!         type     = METADATA_ITEM (169)
//!         offset   = the block's LEVEL, not its length
//!
//!   body   0  refs        u64  = 1 for a block one tree points at
//!          8  generation  u64  the transaction that allocated it
//!         16  flags       u64  = 2, TREE_BLOCK
//!         24  ref type    u8   = 0xb0, TREE_BLOCK_REF
//!         25  ref offset  u64  the objectid of the tree that owns it
//! ```
//!
//! Without the feature the same fact is recorded as a longer item, which is
//! refused rather than approximated.

use vstd::prelude::*;

use crate::block_group::BlockGroup;
use crate::bytes;
use crate::bytes::{put64, put8};
use crate::chunk::{key_type, DiskKey};
use crate::error::{Error, ErrorView, Result};
use crate::superblock::Superblock;
use crate::text;
use crate::text::cat9;
use crate::text::Part::{Dec, Lit};

pub mod offsets;

verus! {

/// `BTRFS_FEATURE_INCOMPAT_SKINNY_METADATA`.
pub const INCOMPAT_SKINNY_METADATA: u64 = 0x100;

/// `BTRFS_EXTENT_FLAG_DATA`: the extent holds file data.
pub const EXTENT_FLAG_DATA: u64 = 0x1;

/// `BTRFS_EXTENT_FLAG_TREE_BLOCK`: the extent holds a tree block.
pub const EXTENT_FLAG_TREE_BLOCK: u64 = 0x2;

/// `BTRFS_TREE_BLOCK_REF_KEY`, as an inline reference type.
pub const TREE_BLOCK_REF: u8 = 176;

/// The size of the item this module writes.
pub const SKINNY_METADATA_ITEM_SIZE: usize = 33;

/// One newly allocated tree block, as the extent tree must record it.
#[derive(Debug, Clone, Copy, PartialEq, Eq, Structural)]
pub struct TreeBlockAllocation {
    /// Where the block is.
    pub bytenr: u64,
    /// Its height above the leaves. Filed in the KEY, not the body.
    pub level: u8,
    /// The transaction allocating it.
    pub generation: u64,
    /// The objectid of the tree the block belongs to.
    pub owner: u64,
}

impl TreeBlockAllocation {
    /// The key an allocation is filed under.
    pub open spec fn filed_under(self) -> DiskKey {
        DiskKey {
            objectid: self.bytenr,
            key_type: key_type::METADATA_ITEM,
            offset: self.level as u64,
        }
    }

    /// The item body of an allocation: one reference, by the owning tree.
    pub open spec fn record(self) -> Seq<u8> {
        bytes::u64_bytes(1) + bytes::u64_bytes(self.generation) + bytes::u64_bytes(
            EXTENT_FLAG_TREE_BLOCK,
        ) + seq![TREE_BLOCK_REF] + bytes::u64_bytes(self.owner)
    }

    /// The key this allocation is filed under. The offset is the level.
    pub fn key(&self) -> (key: DiskKey)
        ensures
            key == self.filed_under(),
    {
        DiskKey {
            objectid: self.bytenr,
            key_type: key_type::METADATA_ITEM,
            offset: self.level as u64,
        }
    }

    /// The item body: an extent item with one inline reference.
    pub fn body(&self) -> (out: [u8; SKINNY_METADATA_ITEM_SIZE])
        ensures
            out@ == self.record(),
    {
        let mut v = bytes::zeroed(SKINNY_METADATA_ITEM_SIZE);
        put64(v.as_mut_slice(), offsets::REFS, 1);
        put64(v.as_mut_slice(), offsets::GENERATION, self.generation);
        put64(v.as_mut_slice(), offsets::FLAGS, EXTENT_FLAG_TREE_BLOCK);
        put8(v.as_mut_slice(), offsets::REF_TYPE, TREE_BLOCK_REF);
        put64(v.as_mut_slice(), offsets::REF_OFFSET, self.owner);
        proof {
            broadcast use crate::bytes::group_fields;

            assert(v@ =~= self.record());
        }
        let out: [u8; 33] = [
            v[0], v[1], v[2], v[3], v[4], v[5], v[6], v[7], v[8], v[9], v[10], v[11], v[12], v[13], v[14], v[15], v[16], v[17], v[18], v[19], v[20], v[21], v[22], v[23], v[24], v[25], v[26], v[27], v[28], v[29], v[30], v[31], v[32],
        ];
        assert(out@ =~= v@);
        out
    }
}

/// The key and body recording `alloc`, checked against the filesystem's
/// features first.
pub fn record_tree_block(sb: &Superblock, alloc: TreeBlockAllocation) -> (r: Result<
    (DiskKey, [u8; SKINNY_METADATA_ITEM_SIZE]),
>)
    ensures
        match r {
            Ok((key, body)) => {
                &&& sb.incompat_flags & INCOMPAT_SKINNY_METADATA != 0
                &&& key == alloc.filed_under()
                &&& body@ == alloc.record()
            },
            Err(e) => sb.incompat_flags & INCOMPAT_SKINNY_METADATA == 0 && e@ == no_skinny(),
        },
{
    if sb.incompat_flags & INCOMPAT_SKINNY_METADATA == 0 {
        return Err(
            Error::UnsupportedFeature(
                "this filesystem records tree blocks as EXTENT_ITEMs with a btrfs_tree_block_info, which is a longer item than this writes; recording an allocation without SKINNY_METADATA is not implemented".to_owned(),
            ),
        );
    }
    Ok((alloc.key(), alloc.body()))
}

/// The complaint about a filesystem without `SKINNY_METADATA`.
pub open spec fn no_skinny() -> ErrorView {
    ErrorView::UnsupportedFeature(
        "this filesystem records tree blocks as EXTENT_ITEMs with a btrfs_tree_block_info, which is a longer item than this writes; recording an allocation without SKINNY_METADATA is not implemented"@,
    )
}

/// A block group's `used` after taking `bytes` out of it. Taking more than is
/// free is refused.
pub fn used_after_allocating(group: &BlockGroup, bytes: u64) -> (r: Result<u64>)
    ensures
        match r {
            Ok(used) => bytes <= group.unused() && used == group.used + bytes,
            Err(e) => bytes > group.unused() && e@ == ErrorView::UnsupportedFeature(
                "allocating "@ + text::dec(bytes as nat) + " bytes in the block group at "@
                    + text::dec(group.start as nat) + " would take it past its own length: "@
                    + text::dec(group.used as nat) + " of "@ + text::dec(group.length as nat)
                    + " bytes are already used"@,
            ),
        },
{
    if bytes > group.free() {
        return Err(
            Error::UnsupportedFeature(
                cat9(
                    Lit("allocating "),
                    Dec(bytes),
                    Lit(" bytes in the block group at "),
                    Dec(group.start),
                    Lit(" would take it past its own length: "),
                    Dec(group.used),
                    Lit(" of "),
                    Dec(group.length),
                    Lit(" bytes are already used"),
                ),
            ),
        );
    }
    Ok(group.used + bytes)
}

/// A group never records more used than it is long because of an allocation:
/// what is taken comes out of what was free.
pub proof fn law_allocating_stays_inside_the_group(group: BlockGroup, bytes: u64)
    requires
        group.used <= group.length,
        bytes <= group.unused(),
    ensures
        group.used + bytes <= group.length,
        (BlockGroup { used: (group.used + bytes) as u64, ..group }).unused() == group.unused()
            - bytes,
{
}

} // verus!
