//! Superblock `flags` bits.

use vstd::prelude::*;

verus! {

/// The filesystem was marked as having hit an error.
pub const ERROR: u64 = 0x4;
/// This device is a read-only seed for another filesystem.
pub const SEEDING: u64 = 0x100000000;
/// Image produced by a metadata-only dump tool; data extents are
/// absent, so the volume is not mountable.
pub const METADUMP: u64 = 0x200000000;
/// Second-generation metadata-only dump.
pub const METADUMP_V2: u64 = 0x400000000;
/// A `fsid` change is in flight.
pub const CHANGING_FSID: u64 = 0x800000000;
/// A `fsid` change is in flight (v2 scheme).
pub const CHANGING_FSID_V2: u64 = 0x1000000000;

} // verus!
