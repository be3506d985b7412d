//! Why bytes are not taken for a superblock.

use vstd::prelude::*;

use crate::bytes;
use crate::error::ErrorView;
use crate::superblock;
use crate::superblock::layout_laws;

verus! {

/// The magic number of a superblock.
pub open spec fn magic() -> Seq<u8> {
    seq![0x5fu8, 0x42u8, 0x48u8, 0x52u8, 0x66u8, 0x53u8, 0x5fu8, 0x4du8]
}

/// Bytes without the magic number are not a Btrfs superblock. With it, an
/// unknown checksum algorithm is told first, then a checksum that does not
/// match, then features that are not known; whatever else is wrong makes a
/// bad superblock.
pub proof fn law_a_refused_superblock_says_why(b: Seq<u8>)
    requires
        b.len() >= 4096,
    ensures
        ({
            let r = superblock::parse_outcome(b, superblock::intact(b));
            let kind = bytes::u16_at(b, 196);
            let found = b.subrange(64, 72);
            &&& found != magic() ==> r == Err::<superblock::SuperblockModel, ErrorView>(
                ErrorView::NotBtrfs(found),
            )
            &&& found == magic() && kind > 3 ==> r == Err::<superblock::SuperblockModel, ErrorView>(
                ErrorView::UnsupportedChecksum(kind),
            )
            &&& found == magic() && kind <= 3 && !layout_laws::sealed(b) ==> (r matches Err(e)
                && e is ChecksumMismatch && e->ChecksumMismatch_offset == bytes::u64_at(b, 48))
            &&& found == magic() && layout_laws::sealed(b) && bytes::u64_at(b, 188)
                & 0xffff_ffff_ffff_f098 != 0 ==> (r matches Err(e) && e is UnsupportedFeature)
            &&& found == magic() && layout_laws::sealed(b) && bytes::u64_at(b, 188)
                & 0xffff_ffff_ffff_f098 == 0 ==> (r matches Err(e) ==> e is BadSuperblock)
        }),
{
    assert(superblock::BTRFS_MAGIC@ =~= magic());
    layout_laws::lemma_supported();
    layout_laws::lemma_sealed(b);
}

/// A superblock that is sound but names another place than it was read from
/// is refused for that, and one that names its place is taken.
pub proof fn law_a_superblock_names_its_place(b: Seq<u8>, offset: u64)
    ensures
        match superblock::parse_outcome(b, superblock::intact(b)) {
            Ok(sb) => {
                let r = superblock::parse_at_outcome(b, superblock::intact(b), offset);
                &&& bytes::u64_at(b, 48) == offset ==> r == Ok::<
                    superblock::SuperblockModel,
                    ErrorView,
                >(sb)
                &&& bytes::u64_at(b, 48) != offset ==> (r matches Err(e)
                    && e is BlockIdentityMismatch && e->expected == offset && e->found
                    == bytes::u64_at(b, 48))
            },
            Err(e) => superblock::parse_at_outcome(b, superblock::intact(b), offset) == Err::<
                superblock::SuperblockModel,
                ErrorView,
            >(e),
        },
{
    layout_laws::law_a_superblock_is_what_its_bytes_say(b);
}

} // verus!
