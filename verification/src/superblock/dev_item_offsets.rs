//! Byte offsets within the embedded `struct btrfs_dev_item`, relative to
//! [`offsets::DEV_ITEM`].

use vstd::prelude::*;

verus! {

/// Device id.
pub const DEVID: usize = 0x00;
/// Device capacity in bytes.
pub const TOTAL_BYTES: usize = 0x08;
/// Bytes allocated on this device.
pub const BYTES_USED: usize = 0x10;
/// Optimal I/O alignment.
pub const IO_ALIGN: usize = 0x18;
/// Optimal I/O width.
pub const IO_WIDTH: usize = 0x1c;
/// Minimal I/O size.
pub const SECTOR_SIZE: usize = 0x20;
/// Device type flags.
pub const TYPE: usize = 0x24;
/// Generation.
pub const GENERATION: usize = 0x2c;
/// Start offset — bytes at the front of the device left unused.
pub const START_OFFSET: usize = 0x34;
/// Device group.
pub const DEV_GROUP: usize = 0x3c;
/// Seek speed hint.
pub const SEEK_SPEED: usize = 0x40;
/// Bandwidth hint.
pub const BANDWIDTH: usize = 0x41;
/// Device UUID.
pub const UUID: usize = 0x42;
/// UUID of the filesystem this device belongs to.
pub const FSID: usize = 0x52;

} // verus!
