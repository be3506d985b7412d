//! Byte offsets within the item that records an allocated tree block.

use vstd::prelude::*;

verus! {

/// How many references point at the block.
pub const REFS: usize = 0;
/// The transaction that allocated it.
pub const GENERATION: usize = 8;
/// What kind of extent it is.
pub const FLAGS: usize = 16;
/// The inline reference's type byte.
pub const REF_TYPE: usize = 24;
/// The inline reference's payload — for a tree block reference,
/// the objectid of the owning tree.
pub const REF_OFFSET: usize = 25;

} // verus!
