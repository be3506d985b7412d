//! Frames that are never refused for what they could become.

use vstd::prelude::*;

use crate::zstd;

verus! {

proof fn lemma_grown(b: Seq<u8>)
    requires
        b.len() <= 65000,
    ensures
        0 <= zstd::grown(b) <= u32::MAX,
{
    if let Some((n, len)) = zstd::literals(b) {
        assert(0 <= n <= 1048575);
        assert(0 <= len <= b.len());
        let rest = b.skip(len);
        if let Some((count, written)) = zstd::sequences(rest) {
            assert(0 <= count <= 98047);
            assert(0 <= written <= 65000);
            assert(zstd::copied(count, written) <= count * 34 + written * 65520);
        }
    }
}

proof fn lemma_blocks(b: Seq<u8>, pos: int, total: int)
    requires
        b.len() <= 65000,
        isize::MAX == 0x7fff_ffff_ffff_ffff,
        0 <= pos,
        0 <= total <= pos * 0x1_0000_0000,
    ensures
        zstd::blocks_bounded(b, pos, total),
    decreases b.len() - pos,
{
    if pos + 3 <= b.len() {
        let head: int = crate::bytes::u16_at(b, pos) + b[pos + 2] * 0x10000;
        let kind: int = (head / 2) % 4;
        let size: int = head / 8;
        let body: int = if kind == 1 {
            1
        } else {
            size
        };
        if !(kind == 3 || size > 131072 || pos + 3 + body > b.len()) {
            let block = b.subrange(pos + 3, pos + 3 + body);
            lemma_grown(block);
            let more: int = if kind == 2 {
                zstd::grown(block)
            } else {
                size
            };
            lemma_blocks(b, pos + 3 + body, total + more);
        }
    }
}

/// On a machine that counts in 64 bits no frame of up to 65,000 bytes is
/// refused, whatever is in it.
pub proof fn law_a_small_frame_is_not_refused(b: Seq<u8>)
    requires
        b.len() <= 65000,
        isize::MAX == 0x7fff_ffff_ffff_ffff,
    ensures
        zstd::bounded(b),
{
    if b.len() >= 5 {
        lemma_blocks(b, zstd::header_len(b[4]), 0);
    }
}

} // verus!
