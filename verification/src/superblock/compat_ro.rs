//! `compat_ro_flags` bits. Unknown bits here still permit a read-only
//! mount, which is exactly what this driver does today, so none of them
//! is a rejection reason.

use vstd::prelude::*;

verus! {

/// A free-space tree (space_cache v2) is present.
pub const FREE_SPACE_TREE: u64 = 0x1;
/// The free-space tree is up to date.
pub const FREE_SPACE_TREE_VALID: u64 = 0x2;
/// fs-verity metadata may be present.
pub const VERITY: u64 = 0x4;
/// Block group items live in their own tree.
pub const BLOCK_GROUP_TREE: u64 = 0x8;

} // verus!
