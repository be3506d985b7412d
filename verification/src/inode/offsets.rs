//! Byte offsets within a `struct btrfs_inode_item`.

use vstd::prelude::*;

verus! {

/// `generation` — the transaction that created this inode.
pub const GENERATION: usize = 0;
/// `transid` — the transaction that last modified it.
pub const TRANSID: usize = 8;
/// `size` — file length in bytes. For a directory, the summed length
/// of its entry names rather than an allocation.
pub const SIZE: usize = 16;
/// `nbytes` — bytes allocated on disk, which for a file stored
/// inline in its own extent item is zero.
pub const NBYTES: usize = 24;
/// `block_group` — a hint, unused since the free-space tree.
pub const BLOCK_GROUP: usize = 32;
/// `nlink` — hard link count.
pub const NLINK: usize = 40;
/// `uid` — owning user.
pub const UID: usize = 44;
/// `gid` — owning group.
pub const GID: usize = 48;
/// `mode` — file type and permission bits. Thirty-two bits wide
/// here, unlike the sixteen an `xfs_dinode` uses.
pub const MODE: usize = 52;
/// `rdev` — device number, for character and block device inodes.
pub const RDEV: usize = 56;
/// `flags` — `BTRFS_INODE_*` bits. This driver reads them but acts
/// on none of them; see [`crate::inode::Inode::flags`].
pub const FLAGS: usize = 64;
/// `sequence` — bumped on every modification, for NFS.
pub const SEQUENCE: usize = 72;
/// `reserved[4]` — 32 bytes of future expansion, zero today.
pub const RESERVED: usize = 80;
/// `atime` — last access.
pub const ATIME: usize = 112;
/// `ctime` — last inode change.
///
/// **`ctime` before `mtime` is the one detail in this struct that no
/// fixture corroborates**: the two hold identical values on every
/// inode in every fixture, so a swap here would be invisible to the
/// oracle tests. The order is the published field order.
pub const CTIME: usize = 124;
/// `mtime` — last data modification. See the note on [`CTIME`].
pub const MTIME: usize = 136;
/// `otime` — creation ("origin") time.
pub const OTIME: usize = 148;

} // verus!
