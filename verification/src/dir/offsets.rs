//! Byte offsets within a `struct btrfs_dir_item`.

use vstd::prelude::*;

verus! {

/// `location` — the key of whatever this name resolves to. An
/// ordinary entry points at an `INODE_ITEM` in the same tree; a
/// subvolume mount point points at a `ROOT_ITEM` in the root tree.
pub const LOCATION: usize = 0;
/// `transid` — the transaction that created the entry.
pub const TRANSID: usize = 17;
/// `data_len` — length of the trailing value. Zero for a directory
/// entry; the attribute value's length for an `XATTR_ITEM`.
pub const DATA_LEN: usize = 25;
/// `name_len` — length of the name that follows the header.
pub const NAME_LEN: usize = 27;
/// `type` — the entry's file type, one of [`crate::dir::ftype`].
pub const TYPE: usize = 29;
/// Where the name begins.
pub const NAME: usize = 30;

} // verus!
