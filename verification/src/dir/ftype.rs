//! Raw `type` values of a directory entry (`BTRFS_FT_*`).

use vstd::prelude::*;

verus! {

/// The filesystem does not record a type for this entry.
pub const UNKNOWN: u8 = 0;
/// Regular file.
pub const REG_FILE: u8 = 1;
/// Directory.
pub const DIR: u8 = 2;
/// Character device.
pub const CHRDEV: u8 = 3;
/// Block device.
pub const BLKDEV: u8 = 4;
/// FIFO.
pub const FIFO: u8 = 5;
/// Unix domain socket.
pub const SOCK: u8 = 6;
/// Symbolic link.
pub const SYMLINK: u8 = 7;
/// Extended attribute, used only by `XATTR_ITEM`.
pub const XATTR: u8 = 8;

} // verus!
