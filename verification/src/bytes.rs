//! Little-endian fields inside byte buffers.
//!
//! Btrfs stores every multi-byte field little-endian and packs its
//! structures, so a field is a position in a buffer and nothing about its
//! alignment can be relied on. Reading one and writing one are here, with
//! the two laws every encoder and decoder of the crate rests on: a field
//! reads back what was written to it, and writing one field leaves the
//! others alone.

use vstd::prelude::*;
use vstd::slice::{slice_subrange, slice_to_vec};

pub mod laws;

verus! {

/// `b` with `src` laid over it from position `at` on.
pub open spec fn splice(b: Seq<u8>, at: int, src: Seq<u8>) -> Seq<u8> {
    Seq::new(
        b.len(),
        |i: int|
            if at <= i < at + src.len() {
                src[i - at]
            } else {
                b[i]
            },
    )
}

/// `n` zero bytes.
pub open spec fn zeros(n: nat) -> Seq<u8> {
    Seq::new(n, |i: int| 0u8)
}

/// The little-endian `u16` at position `at`.
#[verifier::opaque]
pub open spec fn u16_at(b: Seq<u8>, at: int) -> u16 {
    (b[at] + 0x100 * b[at + 1]) as u16
}

/// The little-endian `u32` at position `at`.
#[verifier::opaque]
pub open spec fn u32_at(b: Seq<u8>, at: int) -> u32 {
    (b[at] + 0x100 * b[at + 1] + 0x10000 * b[at + 2] + 0x1000000 * b[at + 3]) as u32
}

/// The little-endian `u64` at position `at`.
#[verifier::opaque]
pub open spec fn u64_at(b: Seq<u8>, at: int) -> u64 {
    (b[at] + 0x100 * b[at + 1] + 0x10000 * b[at + 2] + 0x1000000 * b[at + 3] + 0x100000000 * b[at + 4] + 0x10000000000 * b[at + 5] + 0x1000000000000 * b[at + 6] + 0x100000000000000 * b[at + 7]) as u64
}

/// The bytes of `v`, least significant first.
#[verifier::opaque]
pub open spec fn u32_bytes(v: u32) -> Seq<u8> {
    seq![(v % 0x100) as u8, ((v / 0x100) % 0x100) as u8, ((v / 0x10000) % 0x100) as u8, ((v / 0x1000000) % 0x100) as u8]
}

/// The bytes of `v`, least significant first.
#[verifier::opaque]
pub open spec fn u64_bytes(v: u64) -> Seq<u8> {
    seq![(v % 0x100) as u8, ((v / 0x100) % 0x100) as u8, ((v / 0x10000) % 0x100) as u8, ((v / 0x1000000) % 0x100) as u8, ((v / 0x100000000) % 0x100) as u8, ((v / 0x10000000000) % 0x100) as u8, ((v / 0x1000000000000) % 0x100) as u8, ((v / 0x100000000000000) % 0x100) as u8]
}

/// Read a little-endian `u16` at `at`.
pub fn le16(b: &[u8], at: usize) -> (v: u16)
    requires
        at + 2 <= b@.len(),
    ensures
        v == u16_at(b@, at as int),
{
    reveal(u16_at);
    (b[at] as u16) + 0x100 * (b[at + 1] as u16)
}

/// Read a little-endian `u32` at `at`.
pub fn le32(b: &[u8], at: usize) -> (v: u32)
    requires
        at + 4 <= b@.len(),
    ensures
        v == u32_at(b@, at as int),
{
    reveal(u32_at);
    (b[at] as u32) + 0x100 * (b[at + 1] as u32) + 0x10000 * (b[at + 2] as u32) + 0x1000000 * (b[at + 3] as u32)
}

/// Read a little-endian `u64` at `at`.
pub fn le64(b: &[u8], at: usize) -> (v: u64)
    requires
        at + 8 <= b@.len(),
    ensures
        v == u64_at(b@, at as int),
{
    reveal(u64_at);
    (b[at] as u64) + 0x100 * (b[at + 1] as u64) + 0x10000 * (b[at + 2] as u64) + 0x1000000 * (b[at + 3] as u64) + 0x100000000 * (b[at + 4] as u64) + 0x10000000000 * (b[at + 5] as u64) + 0x1000000000000 * (b[at + 6] as u64) + 0x100000000000000 * (b[at + 7] as u64)
}

/// Copy a 16-byte UUID out at `at`.
pub fn uuid_at(b: &[u8], at: usize) -> (out: [u8; 16])
    requires
        at + 16 <= b@.len(),
    ensures
        out@ == b@.subrange(at as int, at + 16),
{
    let out: [u8; 16] = [
        b[at], b[at + 1], b[at + 2], b[at + 3], b[at + 4], b[at + 5], b[at + 6], b[at + 7], b[at + 8], b[at + 9], b[at + 10], b[at + 11], b[at + 12], b[at + 13], b[at + 14], b[at + 15],
    ];
    assert(out@ =~= b@.subrange(at as int, at + 16));
    out
}

/// Copy a 32-byte field out at `at`.
pub fn field32_at(b: &[u8], at: usize) -> (out: [u8; 32])
    requires
        at + 32 <= b@.len(),
    ensures
        out@ == b@.subrange(at as int, at + 32),
{
    let out: [u8; 32] = [
        b[at], b[at + 1], b[at + 2], b[at + 3], b[at + 4], b[at + 5], b[at + 6], b[at + 7], b[at + 8], b[at + 9], b[at + 10], b[at + 11], b[at + 12], b[at + 13], b[at + 14], b[at + 15], b[at + 16], b[at + 17], b[at + 18], b[at + 19], b[at + 20], b[at + 21], b[at + 22], b[at + 23], b[at + 24], b[at + 25], b[at + 26], b[at + 27], b[at + 28], b[at + 29], b[at + 30], b[at + 31],
    ];
    assert(out@ =~= b@.subrange(at as int, at + 32));
    out
}

/// Copy the bytes `from .. to` out.
pub fn copy_range(b: &[u8], from: usize, to: usize) -> (out: Vec<u8>)
    requires
        from <= to <= b@.len(),
    ensures
        out@ == b@.subrange(from as int, to as int),
{
    slice_to_vec(slice_subrange(b, from, to))
}

/// Whether two byte strings are the same.
pub fn same_bytes(a: &[u8], b: &[u8]) -> (same: bool)
    ensures
        same == (a@ == b@),
{
    if a.len() != b.len() {
        return false;
    }
    let mut i: usize = 0;
    while i < a.len()
        invariant
            i <= a@.len(),
            a@.len() == b@.len(),
            forall|k: int| 0 <= k < i ==> a@[k] == b@[k],
        decreases a@.len() - i,
    {
        if a[i] != b[i] {
            return false;
        }
        i = i + 1;
    }
    assert(a@ =~= b@);
    true
}

/// A buffer of `n` zero bytes.
pub fn zeroed(n: usize) -> (out: Vec<u8>)
    ensures
        out@ == zeros(n as nat),
{
    let out: Vec<u8> = vec![0u8; n];
    assert(out@ =~= zeros(n as nat));
    out
}

/// Lay `src` over `b` from position `at` on.
pub fn put_bytes(b: &mut [u8], at: usize, src: &[u8])
    requires
        at + src@.len() <= old(b)@.len(),
    ensures
        final(b)@ == splice(old(b)@, at as int, src@),
{
    let total: usize = b.len();
    let mut i: usize = 0;
    while i < src.len()
        invariant
            i <= src@.len(),
            at + src@.len() <= total,
            total == old(b)@.len(),
            b@ == splice(old(b)@, at as int, src@.take(i as int)),
        decreases src@.len() - i,
    {
        b[at + i] = src[i];
        i = i + 1;
        assert(b@ =~= splice(old(b)@, at as int, src@.take(i as int)));
    }
    assert(src@.take(i as int) =~= src@);
    assert(b@ =~= splice(old(b)@, at as int, src@));
}

/// Write `v` at `at`, least significant byte first.
pub fn put32(b: &mut [u8], at: usize, v: u32)
    requires
        at + 4 <= old(b)@.len(),
    ensures
        final(b)@ == splice(old(b)@, at as int, u32_bytes(v)),
{
    reveal(u32_bytes);
    let src: [u8; 4] = [(v % 0x100) as u8, ((v / 0x100) % 0x100) as u8, ((v / 0x10000) % 0x100) as u8, ((v / 0x1000000) % 0x100) as u8];
    assert(src@ =~= u32_bytes(v));
    put_bytes(b, at, src.as_slice());
}

/// A field reads back what was written to it.
pub proof fn lemma_u32_round_trip(b: Seq<u8>, at: int, v: u32)
    requires
        0 <= at,
        at + 4 <= b.len(),
    ensures
        u32_at(splice(b, at, u32_bytes(v)), at) == v,
        u32_bytes(v).len() == 4,
{
    reveal(u32_at);
    reveal(u32_bytes);
    assert(v == v % 0x100 + 0x100 * ((v / 0x100) % 0x100) + 0x10000 * ((v / 0x10000) % 0x100) + 0x1000000 * ((v / 0x1000000) % 0x100)) by (bit_vector);
}

/// A field depends on the bytes it occupies and on nothing else.
pub proof fn lemma_u32_local(a: Seq<u8>, b: Seq<u8>, at: int, bt: int)
    requires
        0 <= at,
        at + 4 <= a.len(),
        0 <= bt,
        bt + 4 <= b.len(),
        forall|k: int| 0 <= k < 4 ==> a[at + k] == #[trigger] b[bt + k],
    ensures
        u32_at(a, at) == u32_at(b, bt),
{
    reveal(u32_at);
    assert(a[at + 0] == b[bt + 0]);
    assert(a[at + 1] == b[bt + 1]);
    assert(a[at + 2] == b[bt + 2]);
    assert(a[at + 3] == b[bt + 3]);
}

/// Write `v` at `at`, least significant byte first.
pub fn put64(b: &mut [u8], at: usize, v: u64)
    requires
        at + 8 <= old(b)@.len(),
    ensures
        final(b)@ == splice(old(b)@, at as int, u64_bytes(v)),
{
    reveal(u64_bytes);
    let src: [u8; 8] = [(v % 0x100) as u8, ((v / 0x100) % 0x100) as u8, ((v / 0x10000) % 0x100) as u8, ((v / 0x1000000) % 0x100) as u8, ((v / 0x100000000) % 0x100) as u8, ((v / 0x10000000000) % 0x100) as u8, ((v / 0x1000000000000) % 0x100) as u8, ((v / 0x100000000000000) % 0x100) as u8];
    assert(src@ =~= u64_bytes(v));
    put_bytes(b, at, src.as_slice());
}

/// A field reads back what was written to it.
pub proof fn lemma_u64_round_trip(b: Seq<u8>, at: int, v: u64)
    requires
        0 <= at,
        at + 8 <= b.len(),
    ensures
        u64_at(splice(b, at, u64_bytes(v)), at) == v,
        u64_bytes(v).len() == 8,
{
    reveal(u64_at);
    reveal(u64_bytes);
    assert(v == v % 0x100 + 0x100 * ((v / 0x100) % 0x100) + 0x10000 * ((v / 0x10000) % 0x100) + 0x1000000 * ((v / 0x1000000) % 0x100) + 0x100000000 * ((v / 0x100000000) % 0x100) + 0x10000000000 * ((v / 0x10000000000) % 0x100) + 0x1000000000000 * ((v / 0x1000000000000) % 0x100) + 0x100000000000000 * ((v / 0x100000000000000) % 0x100)) by (bit_vector);
}

/// A field depends on the bytes it occupies and on nothing else.
pub proof fn lemma_u64_local(a: Seq<u8>, b: Seq<u8>, at: int, bt: int)
    requires
        0 <= at,
        at + 8 <= a.len(),
        0 <= bt,
        bt + 8 <= b.len(),
        forall|k: int| 0 <= k < 8 ==> a[at + k] == #[trigger] b[bt + k],
    ensures
        u64_at(a, at) == u64_at(b, bt),
{
    reveal(u64_at);
    assert(a[at + 0] == b[bt + 0]);
    assert(a[at + 1] == b[bt + 1]);
    assert(a[at + 2] == b[bt + 2]);
    assert(a[at + 3] == b[bt + 3]);
    assert(a[at + 4] == b[bt + 4]);
    assert(a[at + 5] == b[bt + 5]);
    assert(a[at + 6] == b[bt + 6]);
    assert(a[at + 7] == b[bt + 7]);
}

/// Write one byte at `at`.
pub fn put8(b: &mut [u8], at: usize, v: u8)
    requires
        at < old(b)@.len(),
    ensures
        final(b)@ == splice(old(b)@, at as int, seq![v]),
{
    let src: [u8; 1] = [v];
    assert(src@ =~= seq![v]);
    put_bytes(b, at, src.as_slice());
}

/// Writing elsewhere leaves a field alone.
pub broadcast proof fn lemma_u64_apart(b: Seq<u8>, at: int, src: Seq<u8>, f: int)
    requires
        0 <= f,
        f + 8 <= b.len(),
        at >= f + 8 || at + src.len() <= f,
    ensures
        #[trigger] u64_at(splice(b, at, src), f) == u64_at(b, f),
{
    let a = splice(b, at, src);
    assert forall|k: int| 0 <= k < 8 implies a[f + k] == #[trigger] b[f + k] by {}
    lemma_u64_local(a, b, f, f);
}

/// Writing elsewhere leaves a field alone.
pub broadcast proof fn lemma_u32_apart(b: Seq<u8>, at: int, src: Seq<u8>, f: int)
    requires
        0 <= f,
        f + 4 <= b.len(),
        at >= f + 4 || at + src.len() <= f,
    ensures
        #[trigger] u32_at(splice(b, at, src), f) == u32_at(b, f),
{
    let a = splice(b, at, src);
    assert forall|k: int| 0 <= k < 4 implies a[f + k] == #[trigger] b[f + k] by {}
    lemma_u32_local(a, b, f, f);
}

/// A written field reads back what was written.
pub broadcast proof fn lemma_u64_written(b: Seq<u8>, at: int, v: u64)
    requires
        0 <= at,
        at + 8 <= b.len(),
    ensures
        u64_at(#[trigger] splice(b, at, u64_bytes(v)), at) == v,
{
    lemma_u64_round_trip(b, at, v);
}

/// A written field reads back what was written.
pub broadcast proof fn lemma_u32_written(b: Seq<u8>, at: int, v: u32)
    requires
        0 <= at,
        at + 4 <= b.len(),
    ensures
        u32_at(#[trigger] splice(b, at, u32_bytes(v)), at) == v,
{
    lemma_u32_round_trip(b, at, v);
}

/// A `u64` takes eight bytes.
pub broadcast proof fn lemma_u64_bytes_len(v: u64)
    ensures
        #[trigger] u64_bytes(v).len() == 8,
{
    lemma_u64_round_trip(zeros(8), 0, v);
}

/// A `u32` takes four bytes.
pub broadcast proof fn lemma_u32_bytes_len(v: u32)
    ensures
        #[trigger] u32_bytes(v).len() == 4,
{
    lemma_u32_round_trip(zeros(4), 0, v);
}

/// Writing elsewhere leaves a run of bytes alone.
pub broadcast proof fn lemma_subrange_apart(b: Seq<u8>, at: int, src: Seq<u8>, from: int, to: int)
    requires
        0 <= from <= to <= b.len(),
        at >= to || at + src.len() <= from,
    ensures
        #[trigger] splice(b, at, src).subrange(from, to) == b.subrange(from, to),
{
    assert(splice(b, at, src).subrange(from, to) =~= b.subrange(from, to));
}

/// A written run of bytes reads back what was written.
pub broadcast proof fn lemma_subrange_written(b: Seq<u8>, at: int, src: Seq<u8>, to: int)
    requires
        0 <= at,
        to == at + src.len(),
        to <= b.len(),
    ensures
        #[trigger] splice(b, at, src).subrange(at, to) == src,
{
    assert(splice(b, at, src).subrange(at, to) =~= src);
}

pub broadcast group group_fields {
    lemma_u64_apart,
    lemma_u32_apart,
    lemma_u64_written,
    lemma_u32_written,
    lemma_u64_bytes_len,
    lemma_u32_bytes_len,
    lemma_subrange_apart,
    lemma_subrange_written,
}

} // verus!
