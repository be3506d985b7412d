//! How a compressed extent is laid out, and what comes of decoding one.

use vstd::prelude::*;

use crate::bytes;
use crate::compression;
use crate::compression::Compression;
use crate::error::ErrorView;
use crate::zstd::small_laws;

verus! {

/// The byte of a file-extent item that says how its data is packed: 0 not at
/// all, 1 zlib, 2 LZO, 3 zstd, and nothing else.
pub proof fn law_a_byte_names_an_algorithm(v: u8)
    ensures
        compression::algorithm(v) is Ok <==> v <= 3,
        compression::algorithm(v) matches Ok(algo) ==> {
            &&& algo == Compression::Stored <==> v == 0
            &&& algo == Compression::Zlib <==> v == 1
            &&& algo == Compression::Lzo <==> v == 2
            &&& algo == Compression::Zstd <==> v == 3
        },
        v > 3 ==> compression::algorithm(v)->Err_0 is UnsupportedFeature,
{
}

/// Whether decoding gives `out` where the decoder gave `plain`: `plain`, then
/// zeros up to the length the item records, or a refusal where `plain` is
/// longer than that.
pub open spec fn brought_to(
    out: std::result::Result<Seq<u8>, ErrorView>,
    plain: Seq<u8>,
    ram_bytes: usize,
) -> bool {
    &&& out is Ok <==> plain.len() <= ram_bytes
    &&& out matches Ok(b) ==> {
        &&& b.len() == ram_bytes
        &&& forall|i: int| 0 <= i < plain.len() ==> #[trigger] b[i] == plain[i]
        &&& forall|i: int| plain.len() <= i < b.len() ==> #[trigger] b[i] == 0
    }
    &&& out matches Err(e) ==> e is BadSuperblock
}

/// An extent that is not packed decodes to itself, and a zlib extent to what
/// inflating it gives, brought to the length the item records. A zlib extent
/// that does not inflate is refused.
pub proof fn law_an_extent_decodes_to_what_its_decoder_gives(
    input: Seq<u8>,
    ram_bytes: usize,
    sectorsize: usize,
)
    ensures
        brought_to(
            compression::decompressed(Compression::Stored, input, ram_bytes, sectorsize),
            input,
            ram_bytes,
        ),
        match compression::inflated(input, ram_bytes) {
            Ok(plain) => brought_to(
                compression::decompressed(Compression::Zlib, input, ram_bytes, sectorsize),
                plain,
                ram_bytes,
            ),
            Err(_) => compression::decompressed(Compression::Zlib, input, ram_bytes, sectorsize)
                is Err,
        },
        compression::unzstd(input, ram_bytes) is Err ==> compression::decompressed(
            Compression::Zstd,
            input,
            ram_bytes,
            sectorsize,
        ) is Err,
        compression::decompressed(Compression::Zstd, input, ram_bytes, sectorsize) is Ok
            ==> brought_to(
            compression::decompressed(Compression::Zstd, input, ram_bytes, sectorsize),
            compression::unzstd(input, ram_bytes)->Ok_0,
            ram_bytes,
        ),
{
}

/// A zstd extent of up to 65,000 bytes decodes to what decoding its frame
/// gives, brought to the length the item records, on a machine that counts in
/// 64 bits; one whose frame does not decode is refused.
pub proof fn law_a_small_zstd_extent_is_its_frame(
    input: Seq<u8>,
    ram_bytes: usize,
    sectorsize: usize,
)
    requires
        input.len() <= 65000,
        isize::MAX == 0x7fff_ffff_ffff_ffff,
    ensures
        match compression::unzstd(input, ram_bytes) {
            Ok(plain) => brought_to(
                compression::decompressed(Compression::Zstd, input, ram_bytes, sectorsize),
                plain,
                ram_bytes,
            ),
            Err(_) => compression::decompressed(Compression::Zstd, input, ram_bytes, sectorsize)
                is Err,
        },
{
    small_laws::law_a_small_frame_is_not_refused(input);
}

/// Where a length that would start at `p` starts: lengths do not cross from
/// one sector to the next, so one that has fewer than four bytes left goes to
/// the next sector.
pub open spec fn prefix_at(ss: int, p: int) -> int {
    if ss - p % ss < 4 {
        p + (ss - p % ss)
    } else {
        p
    }
}

/// Where the segment whose length stands at `p` ends.
pub open spec fn segment_end(input: Seq<u8>, p: int) -> int {
    p + 4 + bytes::u32_at(input, p)
}

/// Whether `starts` are where the lengths of the first segments of an LZO
/// extent stand: behind the extent's own length, each behind the segment
/// before it.
pub open spec fn framed(input: Seq<u8>, ss: int, starts: Seq<int>) -> bool {
    &&& starts.len() > 0 ==> starts[0] == prefix_at(ss, 4)
    &&& forall|i: int|
        0 <= i < starts.len() ==> (#[trigger] starts[i]) + 4 < segment_end(input, starts[i])
            <= input.len() && starts[i] < bytes::u32_at(input, 0)
    &&& forall|i: int|
        0 < i < starts.len() ==> #[trigger] starts[i] == prefix_at(
            ss,
            segment_end(input, starts[i - 1]),
        )
}

/// The most the next segment may decode to when `n` bytes are there.
pub open spec fn wanted(ss: usize, ram_bytes: usize, n: nat) -> usize {
    if ss < ram_bytes - n {
        ss
    } else {
        (ram_bytes - n) as usize
    }
}

/// What the segment whose length stands at `p` decodes to when `n` bytes are
/// there.
pub open spec fn segment(input: Seq<u8>, ss: usize, ram_bytes: usize, p: int, n: nat) -> std::result::Result<
    Seq<u8>,
    Seq<char>,
> {
    compression::unlzo(input.subrange(p + 4, segment_end(input, p)), wanted(ss, ram_bytes, n))
}

/// The first `k` segments decoded, end to end.
pub open spec fn joined(input: Seq<u8>, ss: usize, ram_bytes: usize, starts: Seq<int>, k: int) -> Seq<
    u8,
>
    decreases k,
{
    if k <= 0 {
        Seq::empty()
    } else {
        let before = joined(input, ss, ram_bytes, starts, k - 1);
        before + segment(input, ss, ram_bytes, starts[k - 1], before.len())->Ok_0
    }
}

/// Whether each segment decodes, and none starts where the extent is full.
pub open spec fn decodes(input: Seq<u8>, ss: usize, ram_bytes: usize, starts: Seq<int>) -> bool {
    forall|k: int|
        0 <= k < starts.len() ==> {
            let before = #[trigger] joined(input, ss, ram_bytes, starts, k);
            before.len() < ram_bytes && segment(input, ss, ram_bytes, starts[k], before.len()) is Ok
        }
}

/// Where the segment behind the first `k` is looked for.
spec fn behind(input: Seq<u8>, starts: Seq<int>, k: int) -> int {
    if k <= 0 {
        4
    } else {
        segment_end(input, starts[k - 1])
    }
}

proof fn lemma_skip(
    input: Seq<u8>,
    total: int,
    ram_bytes: usize,
    ss: usize,
    at: int,
    out: Seq<u8>,
)
    requires
        ss >= 4,
        0 <= at < total,
        out.len() < ram_bytes,
    ensures
        compression::segments_from(input, total, ram_bytes, ss, at, out)
            == compression::segments_from(
            input,
            total,
            ram_bytes,
            ss,
            prefix_at(ss as int, at),
            out,
        ),
        at <= prefix_at(ss as int, at) < at + 4,
        ss - prefix_at(ss as int, at) % (ss as int) >= 4,
{
    let s = ss as int;
    vstd::arithmetic::div_mod::lemma_fundamental_div_mod(at, s);
    if s - at % s < 4 {
        let q: int = at / s + 1;
        assert(at + (s - at % s) == s * q) by (nonlinear_arith)
            requires
                at == s * (at / s) + at % s,
                q == at / s + 1,
        ;
        vstd::arithmetic::div_mod::lemma_mod_multiples_vanish(q, 0, s);
        assert((s * q + 0) % s == 0int % s);
    }
}

proof fn lemma_reach(
    input: Seq<u8>,
    ram_bytes: usize,
    ss: usize,
    starts: Seq<int>,
    k: int,
)
    requires
        ss >= 4,
        4 <= input.len(),
        framed(input, ss as int, starts),
        decodes(input, ss, ram_bytes, starts),
        0 <= k <= starts.len(),
    ensures
        behind(input, starts, k) >= 4,
        compression::segments_from(
            input,
            bytes::u32_at(input, 0) as int,
            ram_bytes,
            ss,
            4,
            Seq::empty(),
        ) == compression::segments_from(
            input,
            bytes::u32_at(input, 0) as int,
            ram_bytes,
            ss,
            behind(input, starts, k),
            joined(input, ss, ram_bytes, starts, k),
        ),
    decreases k,
{
    if k > 0 {
        let total = bytes::u32_at(input, 0) as int;
        lemma_reach(input, ram_bytes, ss, starts, k - 1);
        let at = behind(input, starts, k - 1);
        let p = starts[k - 1];
        let out = joined(input, ss, ram_bytes, starts, k - 1);
        assert(p == prefix_at(ss as int, at));
        assert(segment(input, ss, ram_bytes, p, out.len()) is Ok);
        assert(p < total);
        vstd::arithmetic::div_mod::lemma_fundamental_div_mod(at, ss as int);
        assert(at <= p);
        lemma_skip(input, total, ram_bytes, ss, at, out);
        assert(p + 4 < segment_end(input, p) <= input.len());
    }
}

/// An LZO extent decodes to its segments, decoded one by one and put end to
/// end, as far as the extent's own length goes or until the length its item
/// records is reached; what is missing of that length is zeros.
pub proof fn law_an_lzo_extent_is_its_segments(
    input: Seq<u8>,
    ram_bytes: usize,
    ss: usize,
    starts: Seq<int>,
)
    requires
        ss >= 4,
        4 <= input.len(),
        bytes::u32_at(input, 0) <= input.len(),
        framed(input, ss as int, starts),
        decodes(input, ss, ram_bytes, starts),
        joined(input, ss, ram_bytes, starts, starts.len() as int).len() >= ram_bytes || prefix_at(
            ss as int,
            if starts.len() == 0 {
                4
            } else {
                segment_end(input, starts.last())
            },
        ) >= bytes::u32_at(input, 0),
    ensures
        brought_to(
            compression::decompressed(Compression::Lzo, input, ram_bytes, ss),
            joined(input, ss, ram_bytes, starts, starts.len() as int),
            ram_bytes,
        ),
{
    let n: int = starts.len() as int;
    let total = bytes::u32_at(input, 0) as int;
    let out = joined(input, ss, ram_bytes, starts, n);
    let at = behind(input, starts, n);
    lemma_reach(input, ram_bytes, ss, starts, n);
    if at < total && out.len() < ram_bytes {
        lemma_skip(input, total, ram_bytes, ss, at, out);
    }
}

/// An LZO extent is refused where it is too short for its own length or says
/// it is longer than it is; and, behind segments that decode, where the length
/// of the next one is zero, runs past the end or cannot be read, or where the
/// next one does not decode.
pub proof fn law_a_broken_lzo_extent_is_refused(
    input: Seq<u8>,
    ram_bytes: usize,
    ss: usize,
    starts: Seq<int>,
    p: int,
)
    requires
        input.len() < 4 || bytes::u32_at(input, 0) > input.len() || {
            &&& ss >= 4
            &&& framed(input, ss as int, starts)
            &&& decodes(input, ss, ram_bytes, starts)
            &&& joined(input, ss, ram_bytes, starts, starts.len() as int).len() < ram_bytes
            &&& p == prefix_at(
                ss as int,
                if starts.len() == 0 {
                    4
                } else {
                    segment_end(input, starts.last())
                },
            )
            &&& p < bytes::u32_at(input, 0)
            &&& p + 4 > input.len() || bytes::u32_at(input, p) == 0 || segment_end(input, p)
                > input.len() || segment(
                input,
                ss,
                ram_bytes,
                p,
                joined(input, ss, ram_bytes, starts, starts.len() as int).len(),
            ) is Err
        },
    ensures
        compression::decompressed(Compression::Lzo, input, ram_bytes, ss) is Err,
{
    if input.len() >= 4 && bytes::u32_at(input, 0) <= input.len() {
        let n: int = starts.len() as int;
        let total = bytes::u32_at(input, 0) as int;
        let out = joined(input, ss, ram_bytes, starts, n);
        let at = behind(input, starts, n);
        lemma_reach(input, ram_bytes, ss, starts, n);
        vstd::arithmetic::div_mod::lemma_fundamental_div_mod(at, ss as int);
        assert(0 <= at % (ss as int) < ss as int) by (nonlinear_arith)
            requires
                ss >= 4,
        ;
        assert(at <= p);
        lemma_skip(input, total, ram_bytes, ss, at, out);
    }
}

} // verus!
