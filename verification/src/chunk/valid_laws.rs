//! Which chunk items are accepted.

use vstd::prelude::*;

use crate::bytes;
use crate::chunk;
use crate::chunk::place_laws;
use crate::chunk::{ChunkModel, ChunkProfile};
use crate::superblock;

verus! {

/// Whether a chunk of the given profile bits can have `n` stripes, `sub` of
/// them mirrors of each other.
pub open spec fn can_have(bits: u64, n: int, sub: int) -> bool {
    ||| bits == 0 && n == 1
    ||| bits == 0x20 && n == 2
    ||| bits == 0x10 && n == 2
    ||| bits == 0x200 && n == 3
    ||| bits == 0x400 && n == 4
    ||| bits == 0x8 && n >= 2
    ||| bits == 0x40 && sub == 2 && n >= 2 && n % 2 == 0
    ||| bits == 0x80 && n >= 2
    ||| bits == 0x100 && n >= 3
}

proof fn lemma_power(n: nat)
    ensures
        superblock::power_of_two(n) <==> exists|e: nat| n == #[trigger] vstd::arithmetic::power2::pow2(e),
    decreases n,
{
    vstd::arithmetic::power2::lemma2_to64();
    if n <= 1 {
        if n == 1 {
            assert(n == vstd::arithmetic::power2::pow2(0));
        } else {
            assert forall|e: nat| n != #[trigger] vstd::arithmetic::power2::pow2(e) by {
                vstd::arithmetic::power2::lemma_pow2_pos(e);
            }
        }
    } else {
        lemma_power(n / 2);
        if superblock::power_of_two(n) {
            let e = choose|e: nat| n / 2 == #[trigger] vstd::arithmetic::power2::pow2(e);
            vstd::arithmetic::power2::lemma_pow2_unfold(e + 1);
            assert(n == vstd::arithmetic::power2::pow2(e + 1));
        }
        if exists|e: nat| n == #[trigger] vstd::arithmetic::power2::pow2(e) {
            let e = choose|e: nat| n == #[trigger] vstd::arithmetic::power2::pow2(e);
            if e == 0 {
                assert(vstd::arithmetic::power2::pow2(0) == 1);
            }
            vstd::arithmetic::power2::lemma_pow2_unfold(e);
            assert(n / 2 == vstd::arithmetic::power2::pow2((e - 1) as nat));
        }
    }
}

/// A chunk item is accepted exactly where it is long enough for its stripes,
/// covers something within the address space, has rows whose length is a
/// power of two, holds something, and has stripes as its profile needs them.
pub proof fn law_a_chunk_is_accepted_where_it_can_be(logical: u64, b: Seq<u8>)
    ensures
        chunk::chunk_outcome(logical, b) is Ok <==> {
            let n: int = bytes::u16_at(b, 44) as int;
            let t: u64 = bytes::u64_at(b, 24);
            &&& b.len() >= 48 + 32 * n
            &&& bytes::u64_at(b, 0) > 0
            &&& logical + bytes::u64_at(b, 0) <= u64::MAX
            &&& exists|e: nat| bytes::u64_at(b, 16) == #[trigger] vstd::arithmetic::power2::pow2(e)
            &&& t & 0x7 != 0
            &&& can_have(t & 0x7f8, n, bytes::u16_at(b, 46) as int)
        },
{
    let t: u64 = bytes::u64_at(b, 24);
    lemma_power(bytes::u64_at(b, 16) as nat);
    place_laws::law_a_profile_is_a_bit_of_the_type(t, ChunkProfile::Single);
    place_laws::law_a_profile_is_a_bit_of_the_type(t, ChunkProfile::Dup);
    place_laws::law_a_profile_is_a_bit_of_the_type(t, ChunkProfile::Raid0);
    place_laws::law_a_profile_is_a_bit_of_the_type(t, ChunkProfile::Raid1);
    place_laws::law_a_profile_is_a_bit_of_the_type(t, ChunkProfile::Raid1c3);
    place_laws::law_a_profile_is_a_bit_of_the_type(t, ChunkProfile::Raid1c4);
    place_laws::law_a_profile_is_a_bit_of_the_type(t, ChunkProfile::Raid10);
    place_laws::law_a_profile_is_a_bit_of_the_type(t, ChunkProfile::Raid5);
    place_laws::law_a_profile_is_a_bit_of_the_type(t, ChunkProfile::Raid6);
}

proof fn lemma_aligned(c: ChunkModel, sectorsize: u32, from: int)
    requires
        0 <= from,
    ensures
        chunk::stripe_alignment_error(c.stripes, sectorsize, from) is None <==> forall|i: int|
            from <= i < c.stripes.len() ==> (#[trigger] c.stripes[i]).offset % (sectorsize as u64)
                == 0,
    decreases c.stripes.len() - from,
{
    if from < c.stripes.len() {
        lemma_aligned(c, sectorsize, from + 1);
    }
}

/// A chunk fits a filesystem exactly where its start, its length and the start
/// of each of its stripes lie on sectors.
pub proof fn law_a_chunk_lies_on_sectors(c: ChunkModel, sectorsize: u32)
    ensures
        chunk::geometry_error(c, sectorsize) is None <==> {
            &&& sectorsize > 0
            &&& c.logical % (sectorsize as u64) == 0
            &&& c.length % (sectorsize as u64) == 0
            &&& forall|i: int|
                0 <= i < c.stripes.len() ==> (#[trigger] c.stripes[i]).offset % (sectorsize as u64)
                    == 0
        },
{
    lemma_aligned(c, sectorsize, 0);
}

} // verus!
