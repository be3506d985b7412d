//! What holds of every translation.

use vstd::arithmetic::div_mod::{lemma_fundamental_div_mod, lemma_fundamental_div_mod_converse};
use vstd::prelude::*;

use crate::chunk;
use crate::chunk::{ChunkModel, ChunkProfile, Mapping};
use crate::error::ErrorView;

verus! {

/// A mapping covers at least the byte asked for, and nothing past the end of
/// its chunk or of the address space.
pub proof fn law_mapping_stays_in_its_chunk(chunk: ChunkModel, logical: u64, mirror: nat)
    requires
        chunk.divisible(),
    ensures
        chunk.mapped(logical, mirror) matches Ok(m) ==> {
            &&& chunk.covers(logical)
            &&& 0 < m.len
            &&& logical + m.len <= chunk.end()
        },
{
    if let Ok(m) = chunk.mapped(logical, mirror) {
        let offset: nat = (logical - chunk.logical) as nat;
        assert(offset % (chunk.stripe_len as nat) < chunk.stripe_len) by (nonlinear_arith)
            requires
                chunk.stripe_len > 0,
        ;
    }
}

proof fn lemma_within_row(offset: nat, k: nat, sl: nat)
    requires
        sl > 0,
        offset % sl + k < sl,
    ensures
        (offset + k) / sl == offset / sl,
        (offset + k) % sl == offset % sl + k,
{
    lemma_fundamental_div_mod(offset as int, sl as int);
    assert((offset / sl) * sl == sl * (offset / sl)) by (nonlinear_arith);
    lemma_fundamental_div_mod_converse(
        (offset + k) as int,
        sl as int,
        (offset / sl) as int,
        (offset % sl + k) as int,
    );
}

/// The bytes a mapping calls contiguous are: the byte `k` further on lies `k`
/// further on the same device, and what is left is `k` bytes shorter.
pub proof fn law_mapping_is_contiguous(chunk: ChunkModel, logical: u64, mirror: nat, k: u64)
    requires
        chunk.divisible(),
        chunk.mapped(logical, mirror) matches Ok(m) && k < m.len && m.physical + k <= u64::MAX,
    ensures
        chunk.mapped((logical + k) as u64, mirror) == Ok::<Mapping, ErrorView>(
            Mapping {
                devid: chunk.mapped(logical, mirror)->Ok_0.devid,
                physical: (chunk.mapped(logical, mirror)->Ok_0.physical + k) as u64,
                len: (chunk.mapped(logical, mirror)->Ok_0.len - k) as u64,
            },
        ),
{
    law_mapping_stays_in_its_chunk(chunk, logical, mirror);
    let profile = chunk::profile_of(chunk.chunk_type)->Ok_0;
    let sl: nat = chunk.stripe_len as nat;
    let offset: nat = (logical - chunk.logical) as nat;
    let further: nat = offset + k as nat;
    assert(((logical + k) as u64 - chunk.logical) as nat == further);
    if profile.striped() {
        lemma_within_row(offset, k as nat, sl);
    } else {
        lemma_fundamental_div_mod(offset as int, sl as int);
        lemma_fundamental_div_mod(further as int, sl as int);
        assert(chunk.groups(profile) == 1);
        assert((offset / sl) / 1 == offset / sl);
        assert((further / sl) / 1 == further / sl);
        assert((offset / sl) * sl == sl * (offset / sl)) by (nonlinear_arith);
        assert((further / sl) * sl == sl * (further / sl)) by (nonlinear_arith);
    }
}

/// Two addresses of a chunk never share a byte of a stripe.
pub proof fn law_mapping_is_injective(
    chunk: ChunkModel,
    profile: ChunkProfile,
    a: nat,
    b: nat,
    mirror: nat,
)
    requires
        chunk.divisible(),
        chunk::profile_of(chunk.chunk_type) == Ok::<ChunkProfile, ErrorView>(profile),
        chunk.stripe_index(profile, a, mirror) == chunk.stripe_index(profile, b, mirror),
        chunk.within_stripe(profile, a) == chunk.within_stripe(profile, b),
    ensures
        a == b,
{
    let sl: nat = chunk.stripe_len as nat;
    let g: nat = chunk.groups(profile);
    let sub: nat = chunk.sub_stripes as nat;
    if profile == ChunkProfile::Raid10 {
        assert(chunk.num_stripes / chunk.sub_stripes >= 1) by (nonlinear_arith)
            requires
                0 < chunk.sub_stripes <= chunk.num_stripes,
        ;
    }
    assert(g > 0);
    let na: nat = a / sl;
    let nb: nat = b / sl;
    lemma_fundamental_div_mod(a as int, sl as int);
    lemma_fundamental_div_mod(b as int, sl as int);
    lemma_fundamental_div_mod(na as int, g as int);
    lemma_fundamental_div_mod(nb as int, g as int);
    assert(a % sl < sl && b % sl < sl) by (nonlinear_arith)
        requires
            sl > 0,
    ;
    let total: nat = chunk.within_stripe(profile, a);
    assert((na / g) * sl == sl * (na / g)) by (nonlinear_arith);
    assert((nb / g) * sl == sl * (nb / g)) by (nonlinear_arith);
    lemma_fundamental_div_mod_converse(
        total as int,
        sl as int,
        (na / g) as int,
        (a % sl) as int,
    );
    lemma_fundamental_div_mod_converse(
        total as int,
        sl as int,
        (nb / g) as int,
        (b % sl) as int,
    );
    assert(na / g == nb / g && a % sl == b % sl);
    if profile == ChunkProfile::Raid10 {
        let ga: nat = na % g;
        let gb: nat = nb % g;
        assert(ga == gb) by (nonlinear_arith)
            requires
                sub > 0,
                ga * sub + mirror == gb * sub + mirror,
        ;
    } else if profile != ChunkProfile::Raid0 {
        assert(na % 1 == 0 && nb % 1 == 0);
    }
    assert(na == nb);
}

/// The copies of a byte lie on different stripes.
pub proof fn law_mirrors_are_distinct(
    chunk: ChunkModel,
    profile: ChunkProfile,
    offset: nat,
    a: nat,
    b: nat,
)
    requires
        chunk::profile_of(chunk.chunk_type) == Ok::<ChunkProfile, ErrorView>(profile),
        a < chunk.mirrors(),
        b < chunk.mirrors(),
        a != b,
    ensures
        chunk.stripe_index(profile, offset, a) != chunk.stripe_index(profile, offset, b),
{
}

/// Every copy of every byte of a chunk that parsed lies on one of its
/// stripes: the only thing that can still stop a translation is a stripe so
/// far out that the address leaves 64 bits.
pub proof fn law_parsed_chunk_translates(logical: u64, b: Seq<u8>, address: u64, mirror: nat)
    requires
        chunk::chunk_outcome(logical, b) matches Ok(chunk) && chunk.covers(address) && mirror
            < chunk.mirrors(),
    ensures
        ({
            let chunk = chunk::chunk_outcome(logical, b)->Ok_0;
            match chunk.mapped(address, mirror) {
                Ok(_) => true,
                Err(e) => e is UnsupportedProfile || e == ErrorView::BadChunkItem(
                    "stripe address arithmetic overflowed 64 bits"@,
                ),
            }
        }),
{
    let c = chunk::chunk_outcome(logical, b)->Ok_0;
    let profile = chunk::profile_of(c.chunk_type)->Ok_0;
    let nr: nat = ((address - c.logical) as nat) / (c.stripe_len as nat);
    assert(c.stripes.len() == c.num_stripes);
    if profile == ChunkProfile::Raid0 {
        assert(nr % (c.num_stripes as nat) < c.num_stripes) by (nonlinear_arith)
            requires
                c.num_stripes > 0,
        ;
    } else if profile == ChunkProfile::Raid10 {
        chunk::lemma_raid10_index(nr, c.num_stripes as nat, c.sub_stripes as nat, mirror);
    }
}

} // verus!
