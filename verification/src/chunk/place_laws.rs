//! Where on its devices a chunk keeps each of its bytes.

use vstd::arithmetic::div_mod::lemma_fundamental_div_mod_converse;
use vstd::prelude::*;

use crate::bytes;
use crate::chunk;
use crate::chunk::{ChunkModel, ChunkProfile, Mapping};
use crate::error::ErrorView;

verus! {

/// What the profile bits of a chunk's type say of its layout.
pub open spec fn lays_out(bits: u64, profile: ChunkProfile) -> bool {
    match profile {
        ChunkProfile::Single => bits == 0,
        ChunkProfile::Raid0 => bits == 0x8,
        ChunkProfile::Raid1 => bits == 0x10,
        ChunkProfile::Dup => bits == 0x20,
        ChunkProfile::Raid10 => bits == 0x40,
        ChunkProfile::Raid5 => bits == 0x80,
        ChunkProfile::Raid6 => bits == 0x100,
        ChunkProfile::Raid1c3 => bits == 0x200,
        ChunkProfile::Raid1c4 => bits == 0x400,
    }
}

proof fn lemma_bits(t: u64)
    ensures
        chunk::block_group::PROFILE_MASK == 0x7f8,
        chunk::block_group::TYPE_MASK == 0x7,
        chunk::ones(0) == 0,
        chunk::ones(0x8) == 1,
        chunk::ones(0x10) == 1,
        chunk::ones(0x20) == 1,
        chunk::ones(0x40) == 1,
        chunk::ones(0x80) == 1,
        chunk::ones(0x100) == 1,
        chunk::ones(0x200) == 1,
        chunk::ones(0x400) == 1,
{
    assert(0x8u64 | 0x10u64 | 0x200u64 | 0x400u64 | 0x80u64 | 0x100u64 | 0x20u64 | 0x40u64
        == 0x7f8u64) by (bit_vector);
    assert(0x1u64 | 0x2u64 | 0x4u64 == 0x7u64) by (bit_vector);
    reveal_with_fuel(chunk::ones, 13);
}

/// The type of a chunk names its profile by a single bit, and says what the
/// chunk holds by others; it is refused where it holds nothing.
pub proof fn law_a_profile_is_a_bit_of_the_type(t: u64, profile: ChunkProfile)
    ensures
        chunk::profile_of(t) == Ok::<ChunkProfile, ErrorView>(profile) <==> t & 0x7 != 0
            && lays_out(t & 0x7f8, profile),
{
    lemma_bits(t);
}

/// A chunk item is read field by field: its length, owner, stripe length and
/// type, its alignments, how many stripes it has, and the stripes behind its
/// header, 32 bytes each.
pub proof fn law_a_chunk_is_read_from_its_item(logical: u64, b: Seq<u8>)
    requires
        chunk::chunk_outcome(logical, b) is Ok,
    ensures
        ({
            let c = chunk::chunk_outcome(logical, b)->Ok_0;
            &&& c.logical == logical
            &&& c.length == bytes::u64_at(b, 0)
            &&& c.owner == bytes::u64_at(b, 8)
            &&& c.stripe_len == bytes::u64_at(b, 16)
            &&& c.chunk_type == bytes::u64_at(b, 24)
            &&& c.io_align == bytes::u32_at(b, 32)
            &&& c.io_width == bytes::u32_at(b, 36)
            &&& c.sector_size == bytes::u32_at(b, 40)
            &&& c.num_stripes == bytes::u16_at(b, 44)
            &&& c.sub_stripes == bytes::u16_at(b, 46)
            &&& c.stripes.len() == c.num_stripes > 0
            &&& b.len() >= 48 + 32 * c.num_stripes
            &&& 0 < c.length
            &&& logical + c.length <= u64::MAX
            &&& forall|i: int|
                0 <= i < c.num_stripes ==> {
                    &&& (#[trigger] c.stripes[i]).devid == bytes::u64_at(b, 48 + 32 * i)
                    &&& c.stripes[i].offset == bytes::u64_at(b, 56 + 32 * i)
                    &&& c.stripes[i].dev_uuid == b.subrange(64 + 32 * i, 80 + 32 * i)
                }
        }),
{
    let c = chunk::chunk_outcome(logical, b)->Ok_0;
    assert forall|i: int| 0 <= i < c.num_stripes implies {
        &&& (#[trigger] c.stripes[i]).devid == bytes::u64_at(b, 48 + 32 * i)
        &&& c.stripes[i].offset == bytes::u64_at(b, 56 + 32 * i)
        &&& c.stripes[i].dev_uuid == b.subrange(64 + 32 * i, 80 + 32 * i)
    } by {
        assert(chunk::CHUNK_HEADER_SIZE + i * chunk::STRIPE_SIZE == 48 + 32 * i);
        assert(c.stripes[i] == chunk::stripe_at(b, 48 + 32 * i));
    }
}

/// How many copies of a byte a chunk whose stripes are copies of each other
/// keeps.
pub open spec fn copies(bits: u64) -> nat {
    if bits == 0x20 || bits == 0x10 {
        2
    } else if bits == 0x200 {
        3
    } else if bits == 0x400 {
        4
    } else {
        1
    }
}

/// In a chunk that is not striped each stripe is the whole of it: copy
/// `mirror` of a byte lies as far into stripe `mirror` as the byte lies into
/// the chunk, and all of the chunk behind it follows there.
pub proof fn law_a_plain_chunk_is_kept_whole(c: ChunkModel, logical: u64, mirror: nat)
    requires
        c.stripe_len > 0,
        c.chunk_type & 0x7 != 0,
        c.chunk_type & 0x7f8 == 0 || c.chunk_type & 0x7f8 == 0x10 || c.chunk_type & 0x7f8 == 0x20
            || c.chunk_type & 0x7f8 == 0x200 || c.chunk_type & 0x7f8 == 0x400,
        c.logical + c.length <= u64::MAX,
        c.logical <= logical < c.logical + c.length,
        mirror < copies(c.chunk_type & 0x7f8),
        mirror < c.stripes.len(),
    ensures
        ({
            let stripe = c.stripes[mirror as int];
            let at = stripe.offset + (logical - c.logical);
            if at <= u64::MAX {
                c.mapped(logical, mirror) == Ok::<Mapping, ErrorView>(
                    Mapping {
                        devid: stripe.devid,
                        physical: at as u64,
                        len: (c.logical + c.length - logical) as u64,
                    },
                )
            } else {
                c.mapped(logical, mirror) is Err
            }
        }),
{
    lemma_bits(c.chunk_type);
    let sl: int = c.stripe_len as int;
    let o: int = logical - c.logical;
    let nr: nat = (o as nat) / (sl as nat);
    vstd::arithmetic::div_mod::lemma_fundamental_div_mod(o, sl);
    assert(nr / 1 == nr);
    let row: int = o / sl;
    assert(row * sl == sl * row) by (nonlinear_arith);
}

/// In a RAID0 chunk of `n` stripes, rows are dealt to the stripes in turn: the
/// byte `w` of row `q * n + i` lies in row `q` of stripe `i`, and the bytes
/// behind it follow there to the end of the row or of the chunk.
pub proof fn law_raid0_deals_rows_in_turn(c: ChunkModel, q: nat, i: nat, w: nat)
    requires
        c.stripe_len > 0,
        c.chunk_type & 0x7 != 0,
        c.chunk_type & 0x7f8 == 0x8,
        c.stripes.len() == c.num_stripes,
        c.logical + c.length <= u64::MAX,
        i < c.num_stripes,
        w < c.stripe_len,
        (q * c.num_stripes + i) * c.stripe_len + w < c.length,
    ensures
        ({
            let logical = c.logical + (q * c.num_stripes + i) * c.stripe_len + w;
            let stripe = c.stripes[i as int];
            let at = stripe.offset + q * c.stripe_len + w;
            let end = c.logical + c.length;
            if at <= u64::MAX {
                c.mapped(logical as u64, 0) == Ok::<Mapping, ErrorView>(
                    Mapping {
                        devid: stripe.devid,
                        physical: at as u64,
                        len: if c.stripe_len - w < end - logical {
                            (c.stripe_len - w) as u64
                        } else {
                            (end - logical) as u64
                        },
                    },
                )
            } else {
                c.mapped(logical as u64, 0) is Err
            }
        }),
{
    lemma_bits(c.chunk_type);
    let n: int = c.num_stripes as int;
    let sl: int = c.stripe_len as int;
    let row: int = q * n + i;
    let o: int = row * sl + w;
    assert(row >= 0 && o >= 0) by (nonlinear_arith)
        requires
            row == q * n + i,
            o == row * sl + w,
            q >= 0,
            n >= 0,
            i >= 0,
            sl >= 0,
            w >= 0,
    ;
    lemma_fundamental_div_mod_converse(o, sl, row, w as int);
    lemma_fundamental_div_mod_converse(row, n, q as int, i as int);
}

/// In a RAID10 chunk rows are dealt in turn to groups of mirrors: the byte `w`
/// of row `q * groups + i` has its copy `mirror` in row `q` of stripe
/// `mirror` of group `i`.
pub proof fn law_raid10_deals_rows_to_groups(
    c: ChunkModel,
    groups: nat,
    q: nat,
    i: nat,
    w: nat,
    mirror: nat,
)
    requires
        c.stripe_len > 0,
        c.chunk_type & 0x7 != 0,
        c.chunk_type & 0x7f8 == 0x40,
        c.sub_stripes > 0,
        c.stripes.len() == c.num_stripes,
        c.num_stripes == groups * c.sub_stripes,
        c.logical + c.length <= u64::MAX,
        i < groups,
        w < c.stripe_len,
        mirror < c.sub_stripes,
        (q * groups + i) * c.stripe_len + w < c.length,
    ensures
        ({
            let logical = c.logical + (q * groups + i) * c.stripe_len + w;
            let stripe = c.stripes[i * c.sub_stripes + mirror];
            let at = stripe.offset + q * c.stripe_len + w;
            let end = c.logical + c.length;
            if at <= u64::MAX {
                c.mapped(logical as u64, mirror) == Ok::<Mapping, ErrorView>(
                    Mapping {
                        devid: stripe.devid,
                        physical: at as u64,
                        len: if c.stripe_len - w < end - logical {
                            (c.stripe_len - w) as u64
                        } else {
                            (end - logical) as u64
                        },
                    },
                )
            } else {
                c.mapped(logical as u64, mirror) is Err
            }
        }),
{
    lemma_bits(c.chunk_type);
    let sub: int = c.sub_stripes as int;
    let sl: int = c.stripe_len as int;
    let row: int = (q * groups + i) as int;
    let o: int = row * sl + w;
    assert(row >= 0 && o >= 0) by (nonlinear_arith)
        requires
            row == q * groups + i,
            o == row * sl + w,
            q >= 0,
            groups >= 0,
            i >= 0,
            sl >= 0,
            w >= 0,
    ;
    lemma_fundamental_div_mod_converse(c.num_stripes as int, sub, groups as int, 0);
    lemma_fundamental_div_mod_converse(o, sl, row, w as int);
    lemma_fundamental_div_mod_converse(row, groups as int, q as int, i as int);
    assert(i * sub + mirror < groups * sub) by (nonlinear_arith)
        requires
            i + 1 <= groups,
            mirror < sub,
            sub > 0,
    ;
}

/// No byte of a chunk with parity is translated, and no copy that a chunk
/// does not keep.
pub proof fn law_what_is_not_kept_is_refused(c: ChunkModel, logical: u64, mirror: nat)
    requires
        c.chunk_type & 0x7f8 == 0x80 || c.chunk_type & 0x7f8 == 0x100 || logical < c.logical
            || c.logical + c.length <= logical || (c.chunk_type & 0x7f8 != 0x40 && mirror >= copies(
            c.chunk_type & 0x7f8,
        )) || (c.chunk_type & 0x7f8 == 0x40 && mirror >= c.sub_stripes),
    ensures
        c.mapped(logical, mirror) is Err,
{
    lemma_bits(c.chunk_type);
}

/// Whether a chunk's type has at most one profile bit.
pub open spec fn one_profile(t: u64) -> bool {
    let bits = t & 0x7f8;
    bits == 0 || bits == 0x8 || bits == 0x10 || bits == 0x20 || bits == 0x40 || bits == 0x80 || bits
        == 0x100 || bits == 0x200 || bits == 0x400
}

/// How many copies of each byte a chunk keeps.
pub(crate) proof fn lemma_mirrors(c: ChunkModel)
    requires
        c.chunk_type & 0x7 != 0,
        one_profile(c.chunk_type),
    ensures
        c.mirrors() == (if c.chunk_type & 0x7f8 == 0x40 {
            c.sub_stripes as nat
        } else {
            copies(c.chunk_type & 0x7f8)
        }),
{
    lemma_bits(c.chunk_type);
}

} // verus!
