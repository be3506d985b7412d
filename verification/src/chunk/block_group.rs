//! Chunk / block-group type bits, as stored in a chunk item's `type`
//! field.

use vstd::prelude::*;

verus! {

/// Chunk holds file data.
pub const DATA: u64 = 0x1;
/// Chunk holds system metadata — the chunk tree itself.
pub const SYSTEM: u64 = 0x2;
/// Chunk holds filesystem metadata.
pub const METADATA: u64 = 0x4;
/// Striped with no redundancy.
pub const RAID0: u64 = 0x8;
/// Two-way mirror across devices.
pub const RAID1: u64 = 0x10;
/// Two copies on the same device.
pub const DUP: u64 = 0x20;
/// Striped mirrors.
pub const RAID10: u64 = 0x40;
/// Single-parity stripe set.
pub const RAID5: u64 = 0x80;
/// Double-parity stripe set.
pub const RAID6: u64 = 0x100;
/// Three-way mirror across devices.
pub const RAID1C3: u64 = 0x200;
/// Four-way mirror across devices.
pub const RAID1C4: u64 = 0x400;

/// Every bit that names a redundancy profile. A chunk may set at most
/// one of them; setting none means SINGLE.
pub const PROFILE_MASK: u64 = RAID0 | RAID1 | RAID1C3 | RAID1C4 | RAID5 | RAID6 | DUP | RAID10;

/// Every bit that names what a chunk holds. A chunk must set at least
/// one.
pub const TYPE_MASK: u64 = DATA | SYSTEM | METADATA;

} // verus!
