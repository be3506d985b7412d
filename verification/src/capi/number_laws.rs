//! The numbers callers are given for errors and types, and how names are cut.

use vstd::prelude::*;

use crate::capi;
use crate::error::ErrorView;
use crate::inode::FileType;

verus! {

/// What is not there is `ENOENT`, what is not a directory `ENOTDIR`, what is
/// not a file `EISDIR` and what may not be written `EROFS`. What this driver
/// cannot serve is `ENOTSUP`, and every other error means that the volume
/// cannot be trusted or read, which is `EIO`.
pub proof fn law_an_error_has_its_number(e: ErrorView, enotsup: i32)
    ensures
        e is NotFound ==> capi::errno_of(e, enotsup) == 2,
        e is NotADirectory ==> capi::errno_of(e, enotsup) == 20,
        e is NotAFile ==> capi::errno_of(e, enotsup) == 21,
        e is ReadOnly ==> capi::errno_of(e, enotsup) == 30,
        e is UnsupportedFeature || e is UnsupportedProfile || e is UnsupportedChecksum
            ==> capi::errno_of(e, enotsup) == enotsup,
        e is Io || e is NotBtrfs || e is BadSuperblock || e is ChecksumMismatch
            || e is BlockIdentityMismatch || e is BadChunkItem || e is UnmappedLogical
            || e is DirtyLog ==> capi::errno_of(e, enotsup) == 5,
{
}

/// File types go by the numbers directory entries have for them.
pub proof fn law_a_file_type_has_its_number(kind: FileType)
    ensures
        capi::code_of(Some(kind)) == (match kind {
            FileType::Regular => 1u32,
            FileType::Directory => 2u32,
            FileType::CharDevice => 3u32,
            FileType::BlockDevice => 4u32,
            FileType::Fifo => 5u32,
            FileType::Socket => 6u32,
            FileType::Symlink => 7u32,
        }),
        capi::code_of(None) == 0,
{
}

/// A name goes into a field of 256 bytes byte for byte, as far as 255 bytes
/// go, and what is left of the field is zeros.
pub proof fn law_a_name_is_cut_to_its_field(name: Seq<u8>)
    ensures
        capi::in_field(name).len() == 256,
        forall|i: int|
            0 <= i < 256 ==> #[trigger] capi::in_field(name)[i] == (if i < 255 && i < name.len() {
                name[i]
            } else {
                0u8
            }),
        capi::kept_len(name) <= 255,
        capi::kept_len(name) <= name.len(),
        capi::kept_len(name) == 255 || capi::kept_len(name) == name.len(),
{
}

} // verus!
