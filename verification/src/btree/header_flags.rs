//! Header `flags` bits.

use vstd::prelude::*;

verus! {

/// The block has been written out at least once.
pub const WRITTEN: u64 = 0x1;
/// The block belongs to a relocation tree.
pub const RELOC: u64 = 0x2;
/// Bit position of the back-reference revision, which shares the
/// `flags` word with the bits above and occupies its top byte.
pub const BACKREF_REV_SHIFT: u32 = 56;
/// Mask selecting the back-reference revision.
pub const BACKREF_REV_MASK: u64 = 0xff00_0000_0000_0000;
/// Back-reference revision predating the `MIXED_BACKREF` feature.
pub const OLD_BACKREF_REV: u8 = 0;
/// Back-reference revision used by every filesystem with
/// `MIXED_BACKREF` set, which is every modern one.
pub const MIXED_BACKREF_REV: u8 = 1;

} // verus!
