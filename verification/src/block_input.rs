//! Presenting arbitrary bytes as a tree block.
//!
//! A tree block is verified before anything in it is looked at: its checksum,
//! and the address it says it lives at. These three functions bring bytes of
//! any provenance past both gates, so that what lies behind them can be
//! exercised.

use vstd::prelude::*;
use vstd::slice::slice_subrange;

use crate::bytes;
use crate::bytes::{le64, put_bytes, zeroed};
use crate::superblock::{ChecksumType, CSUM_SIZE};

verus! {

/// Offset of the address in a block's header.
pub const LOGICAL: usize = 48;

/// `b` with the checksum of everything behind the checksum field written at
/// its front.
pub open spec fn restamped(b: Seq<u8>, csum_type: ChecksumType) -> Seq<u8> {
    if b.len() <= CSUM_SIZE {
        b
    } else {
        bytes::splice(
            b,
            0,
            csum_type.field(b.skip(CSUM_SIZE as int)).take(csum_type.width() as int),
        )
    }
}

/// Re-stamp a block's checksum, which covers everything after the 32-byte
/// checksum field. A block that holds nothing behind it is left as it is.
pub fn restamp(block: &mut [u8], csum_type: ChecksumType)
    ensures
        final(block)@ == restamped(old(block)@, csum_type),
{
    if block.len() <= CSUM_SIZE {
        return;
    }
    let n: usize = block.len();
    let body = slice_subrange(block, CSUM_SIZE, n);
    assert(body@ =~= block@.skip(CSUM_SIZE as int));
    let digest = csum_type.digest(body);
    let len: usize = csum_type.digest_len();
    let front = slice_subrange(digest.as_slice(), 0, len);
    assert(front@ =~= digest@.take(len as int));
    put_bytes(block, 0, front);
}

/// The logical address a block says it lives at; zero for one too short to
/// say.
pub fn logical_of(block: &[u8]) -> (at: u64)
    ensures
        at == (if block@.len() < LOGICAL + 8 {
            0
        } else {
            bytes::u64_at(block@, LOGICAL as int)
        }),
{
    if block.len() < LOGICAL + 8 {
        return 0;
    }
    le64(block, LOGICAL)
}

/// `data` over and over, to `len` bytes.
pub open spec fn repeated(data: Seq<u8>, len: nat) -> Seq<u8> {
    if data.len() == 0 {
        bytes::zeros(len)
    } else {
        Seq::new(len, |i: int| data[i % (data.len() as int)])
    }
}

/// Present bytes as a node of exactly `len`.
///
/// Short input repeats rather than being zero-padded: a block of zeros fails
/// the identity check at once.
pub fn node(data: &[u8], len: usize) -> (out: Vec<u8>)
    ensures
        out@ == repeated(data@, len as nat),
{
    if data.len() == 0 {
        return zeroed(len);
    }
    let mut out: Vec<u8> = Vec::new();
    let mut at: usize = 0;
    let ghost whole = repeated(data@, len as nat);
    while out.len() < len
        invariant
            data@.len() > 0,
            out@.len() <= len,
            at < data@.len(),
            at == out@.len() as int % (data@.len() as int),
            whole == repeated(data@, len as nat),
            out@ == whole.take(out@.len() as int),
        decreases len - out@.len(),
    {
        let ghost i: int = out@.len() as int;
        out.push(data[at]);
        proof {
            assert(whole[i] == data@[at as int]);
            assert(out@ =~= whole.take(i + 1));
            vstd::arithmetic::div_mod::lemma_fundamental_div_mod(i, data@.len() as int);
            let q: int = i / (data@.len() as int);
            let n: int = data@.len() as int;
            if at + 1 < n {
                assert((i + 1) % n == at + 1) by {
                    assert(n * q == q * n) by (nonlinear_arith);
                    vstd::arithmetic::div_mod::lemma_fundamental_div_mod_converse(
                        i + 1,
                        n,
                        q,
                        at + 1,
                    );
                }
            } else {
                assert((i + 1) % n == 0) by {
                    assert(i + 1 == n * (q + 1)) by (nonlinear_arith)
                        requires
                            i == n * q + (n - 1),
                    ;
                    vstd::arithmetic::div_mod::lemma_mod_multiples_basic(q + 1, n);
                    assert((q + 1) * n == n * (q + 1)) by (nonlinear_arith);
                }
            }
        }
        at = if at + 1 < data.len() {
            at + 1
        } else {
            0
        };
    }
    assert(out@ =~= whole);
    out
}

/// A block that was re-stamped verifies under the checksum it was stamped
/// with, and still says it lives where it said.
pub proof fn law_a_restamped_block_verifies(b: Seq<u8>, csum_type: ChecksumType)
    requires
        b.len() >= LOGICAL + 8,
    ensures
        csum_type.matches(
            restamped(b, csum_type).skip(CSUM_SIZE as int),
            restamped(b, csum_type).take(CSUM_SIZE as int),
        ),
        bytes::u64_at(restamped(b, csum_type), LOGICAL as int) == bytes::u64_at(
            b,
            LOGICAL as int,
        ),
{
    broadcast use crate::bytes::group_fields;

    let s = restamped(b, csum_type);
    assert(s.skip(CSUM_SIZE as int) =~= b.skip(CSUM_SIZE as int));
    assert(s.take(CSUM_SIZE as int).take(csum_type.width() as int) =~= csum_type.field(
        b.skip(CSUM_SIZE as int),
    ).take(csum_type.width() as int));
}

} // verus!
