//! Byte offsets within `struct btrfs_file_extent_item`.

use vstd::prelude::*;

verus! {

/// Generation of the transaction that created it.
pub const GENERATION: usize = 0;

/// Decoded size of the extent's data.
pub const RAM_BYTES: usize = 8;

/// Compression algorithm, 0 for none.
pub const COMPRESSION: usize = 16;

/// Encryption, 0 for none.
pub const ENCRYPTION: usize = 17;

/// Other encoding, 0 for none.
pub const OTHER_ENCODING: usize = 18;

/// 0 = inline, 1 = regular, 2 = prealloc.
pub const TYPE: usize = 20;

/// Inline data begins here.
pub const INLINE_DATA: usize = 21;

/// Address of the extent, or 0 for a hole.
pub const DISK_BYTENR: usize = 21;

/// Bytes occupied on disk.
pub const DISK_NUM_BYTES: usize = 29;

/// Offset into the extent at which this reference starts.
pub const OFFSET: usize = 37;

/// Logical length of this reference.
pub const NUM_BYTES: usize = 45;

/// Size of the non-inline header.
pub const REGULAR_SIZE: usize = 53;

} // verus!
