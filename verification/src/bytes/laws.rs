//! What a number in a field is, byte by byte.

use vstd::prelude::*;

use crate::bytes;

verus! {

/// A number of two bytes has its low byte first.
pub proof fn law_two_bytes_lie_low_byte_first(b: Seq<u8>, at: int)
    ensures
        bytes::u16_at(b, at) % 256 == b[at],
        bytes::u16_at(b, at) / 256 == b[at + 1],
{
    reveal(bytes::u16_at);
}

/// A number of four bytes has its low byte first.
pub proof fn law_four_bytes_lie_low_byte_first(b: Seq<u8>, at: int)
    ensures
        bytes::u32_at(b, at) % 256 == b[at],
        bytes::u32_at(b, at) / 0x100 % 256 == b[at + 1],
        bytes::u32_at(b, at) / 0x10000 % 256 == b[at + 2],
        bytes::u32_at(b, at) / 0x1000000 == b[at + 3],
{
    reveal(bytes::u32_at);
}

/// A number of eight bytes has its low byte first.
pub proof fn law_eight_bytes_lie_low_byte_first(b: Seq<u8>, at: int)
    ensures
        bytes::u64_at(b, at) % 256 == b[at],
        bytes::u64_at(b, at) / 0x100 % 256 == b[at + 1],
        bytes::u64_at(b, at) / 0x10000 % 256 == b[at + 2],
        bytes::u64_at(b, at) / 0x1000000 % 256 == b[at + 3],
        bytes::u64_at(b, at) / 0x100000000 % 256 == b[at + 4],
        bytes::u64_at(b, at) / 0x10000000000 % 256 == b[at + 5],
        bytes::u64_at(b, at) / 0x1000000000000 % 256 == b[at + 6],
        bytes::u64_at(b, at) / 0x100000000000000 == b[at + 7],
{
    reveal(bytes::u64_at);
    let v = bytes::u64_at(b, at);
    let (b0, b1, b2, b3) = (b[at], b[at + 1], b[at + 2], b[at + 3]);
    let (b4, b5, b6, b7) = (b[at + 4], b[at + 5], b[at + 6], b[at + 7]);
    assert(v % 256 == b0 && v / 0x100 % 256 == b1 && v / 0x10000 % 256 == b2 && v / 0x1000000 % 256
        == b3 && v / 0x100000000 % 256 == b4 && v / 0x10000000000 % 256 == b5 && v / 0x1000000000000
        % 256 == b6 && v / 0x100000000000000 == b7) by (bit_vector)
        requires
            v == b0 + 0x100 * b1 + 0x10000 * b2 + 0x1000000 * b3 + 0x100000000 * b4 + 0x10000000000
                * b5 + 0x1000000000000 * b6 + 0x100000000000000 * b7,
    ;
}

/// A written number is the number that is read.
pub proof fn law_a_written_number_is_read(v: u64, w: u32)
    ensures
        bytes::u64_bytes(v).len() == 8,
        bytes::u64_at(bytes::u64_bytes(v), 0) == v,
        bytes::u32_bytes(w).len() == 4,
        bytes::u32_at(bytes::u32_bytes(w), 0) == w,
{
    let eight = bytes::zeros(8);
    let four = bytes::zeros(4);
    bytes::lemma_u64_round_trip(eight, 0, v);
    bytes::lemma_u32_round_trip(four, 0, w);
    assert(bytes::splice(eight, 0, bytes::u64_bytes(v)) =~= bytes::u64_bytes(v));
    assert(bytes::splice(four, 0, bytes::u32_bytes(w)) =~= bytes::u32_bytes(w));
}

} // verus!
