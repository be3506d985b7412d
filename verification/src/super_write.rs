//! Committing: writing the superblock that makes a transaction real.
//!
//! Everything a Btrfs transaction writes is invisible until the superblock
//! names the new root. A commit always moves the generation, the root and the
//! UUID tree's generation, and re-checksums; the other fields it may move are
//! given only when they did.

use vstd::prelude::*;
use vstd::slice::slice_subrange;

use crate::bytes;
use crate::bytes::{put64, put8, put_bytes};
use crate::error::{Error, ErrorView, Result};
use crate::superblock;
use crate::superblock::{ChecksumType, CSUM_SIZE};
use crate::text;
use crate::text::cat2;
use crate::text::Part::{Dec, Lit};

pub mod commit_laws;
pub mod offsets;

verus! {

/// One `btrfs_root_backup` slot.
pub const ROOT_BACKUP_SIZE: usize = 168;

/// How many backup slots the ring holds.
pub const ROOT_BACKUP_SLOTS: u64 = 4;

/// One past the last byte of the backup ring.
pub const ROOT_BACKUPS_END: usize = offsets::ROOT_BACKUPS + 4 * ROOT_BACKUP_SIZE;

/// The whole superblock.
pub const SUPERBLOCK_SIZE: usize = 4096;

/// The slot of the backup ring a generation writes: generations take the
/// slots in turn, and generation 1 takes the first.
pub open spec fn slot_of(generation: u64) -> nat {
    if generation == 0 {
        3
    } else {
        ((generation - 1) % 4) as nat
    }
}

/// Which backup slot a generation writes: `(generation - 1) mod 4`.
pub fn backup_slot(generation: u64) -> (slot: usize)
    ensures
        slot == slot_of(generation),
{
    let before: u64 = generation.wrapping_sub(1);
    (before % ROOT_BACKUP_SLOTS) as usize
}

/// Where a generation's backup slot begins.
pub fn backup_slot_offset(generation: u64) -> (at: usize)
    ensures
        at == offsets::ROOT_BACKUPS + slot_of(generation) * ROOT_BACKUP_SIZE,
{
    offsets::ROOT_BACKUPS + backup_slot(generation) * ROOT_BACKUP_SIZE
}

/// Any four generations in a row write four different slots, and the fifth
/// writes the first one's again. Every slot lies inside the ring.
pub proof fn law_backup_slots_rotate(generation: u64, k: u64)
    requires
        generation > 0,
        0 < k < 4,
        generation + 4 <= u64::MAX,
    ensures
        slot_of(generation) != slot_of((generation + k) as u64),
        slot_of((generation + 4) as u64) == slot_of(generation),
        offsets::ROOT_BACKUPS + slot_of(generation) * ROOT_BACKUP_SIZE + ROOT_BACKUP_SIZE
            <= ROOT_BACKUPS_END,
{
}

/// What a commit sets in the superblock.
///
/// Only `generation` and `root` are required of every commit. The rest are
/// `None` when the commit does not move them.
#[derive(Debug, Clone, Copy, Default)]
pub struct Commit {
    /// The new transaction number. Every commit.
    pub generation: u64,
    /// The new root tree address. Every commit.
    pub root: u64,
    /// Set when the root tree's depth changed.
    pub root_level: Option<u8>,
    /// Set when usage changed. Must equal the sum of every
    /// `BLOCK_GROUP_ITEM.used`.
    pub bytes_used: Option<u64>,
    /// Set when a chunk was allocated.
    pub chunk_root: Option<u64>,
    /// Set alongside `chunk_root`.
    pub chunk_root_generation: Option<u64>,
}

/// `raw` with `value`, if there is one, written at `at`.
pub open spec fn with_u64(raw: Seq<u8>, at: usize, value: Option<u64>) -> Seq<u8> {
    match value {
        Some(v) => bytes::splice(raw, at as int, bytes::u64_bytes(v)),
        None => raw,
    }
}

/// `raw` with the fields `commit` names set, and the checksum left stale.
pub open spec fn with_commit(raw: Seq<u8>, commit: Commit) -> Seq<u8> {
    let a = with_u64(raw, offsets::GENERATION, Some(commit.generation));
    let b = with_u64(a, offsets::ROOT, Some(commit.root));
    let c = with_u64(b, offsets::UUID_TREE_GENERATION, Some(commit.generation));
    let d = match commit.root_level {
        Some(level) => bytes::splice(c, offsets::ROOT_LEVEL as int, seq![level]),
        None => c,
    };
    let e = with_u64(d, offsets::BYTES_USED, commit.bytes_used);
    let f = with_u64(e, offsets::CHUNK_ROOT, commit.chunk_root);
    with_u64(f, offsets::CHUNK_ROOT_GENERATION, commit.chunk_root_generation)
}

/// `raw` with its checksum computed over everything after it.
pub open spec fn sealed(raw: Seq<u8>, csum_type: ChecksumType) -> Seq<u8> {
    bytes::splice(
        raw,
        0,
        csum_type.field(raw.subrange(CSUM_SIZE as int, SUPERBLOCK_SIZE as int)),
    )
}

/// Apply a commit to a superblock, in place, and re-checksum it.
///
/// The result is the superblock as it should be written to every copy, except
/// for each copy's own `bytenr`. The backup slot is left as it was.
pub fn apply(raw: &mut [u8], csum_type: ChecksumType, commit: &Commit) -> (r: Result<()>)
    ensures
        match r {
            Ok(()) => old(raw)@.len() >= SUPERBLOCK_SIZE && final(raw)@ == sealed(
                with_commit(old(raw)@, *commit),
                csum_type,
            ),
            Err(e) => {
                &&& old(raw)@.len() < SUPERBLOCK_SIZE
                &&& e@ == ErrorView::UnsupportedFeature(
                    "a superblock is 4096 bytes and this is "@ + text::dec(old(raw)@.len()),
                )
                &&& final(raw)@ == old(raw)@
            },
        },
{
    if raw.len() < SUPERBLOCK_SIZE {
        return Err(
            Error::UnsupportedFeature(
                cat2(Lit("a superblock is 4096 bytes and this is "), Dec(raw.len() as u64)),
            ),
        );
    }
    put64(raw, offsets::GENERATION, commit.generation);
    put64(raw, offsets::ROOT, commit.root);
    // Tracks generation even when the UUID tree itself was not touched.
    put64(raw, offsets::UUID_TREE_GENERATION, commit.generation);
    if let Some(level) = commit.root_level {
        put8(raw, offsets::ROOT_LEVEL, level);
    }
    if let Some(used) = commit.bytes_used {
        put64(raw, offsets::BYTES_USED, used);
    }
    if let Some(chunk_root) = commit.chunk_root {
        put64(raw, offsets::CHUNK_ROOT, chunk_root);
    }
    if let Some(generation) = commit.chunk_root_generation {
        put64(raw, offsets::CHUNK_ROOT_GENERATION, generation);
    }
    stamp_checksum(raw, csum_type);
    Ok(())
}

/// Compute and store the superblock's checksum, over everything after the
/// checksum itself.
pub fn stamp_checksum(raw: &mut [u8], csum_type: ChecksumType)
    requires
        old(raw)@.len() >= SUPERBLOCK_SIZE,
    ensures
        final(raw)@ == sealed(old(raw)@, csum_type),
{
    let digest = csum_type.digest(slice_subrange(raw, CSUM_SIZE, SUPERBLOCK_SIZE));
    put_bytes(raw, 0, digest.as_slice());
}

/// Record the offset a superblock copy belongs at.
pub fn set_bytenr(raw: &mut [u8], offset: u64)
    requires
        old(raw)@.len() >= SUPERBLOCK_SIZE,
    ensures
        final(raw)@ == with_u64(old(raw)@, superblock::offsets::BYTENR, Some(offset)),
{
    put64(raw, superblock::offsets::BYTENR, offset);
}

/// Whether byte `j` of a superblock belongs to a field `commit` sets.
pub open spec fn commit_sets(commit: Commit, j: int) -> bool {
    ||| offsets::GENERATION <= j < offsets::GENERATION + 8
    ||| offsets::ROOT <= j < offsets::ROOT + 8
    ||| offsets::UUID_TREE_GENERATION <= j < offsets::UUID_TREE_GENERATION + 8
    ||| commit.root_level is Some && j == offsets::ROOT_LEVEL
    ||| commit.bytes_used is Some && offsets::BYTES_USED <= j < offsets::BYTES_USED + 8
    ||| commit.chunk_root is Some && offsets::CHUNK_ROOT <= j < offsets::CHUNK_ROOT + 8
    ||| commit.chunk_root_generation is Some && offsets::CHUNK_ROOT_GENERATION <= j
        < offsets::CHUNK_ROOT_GENERATION + 8
}

/// A commit changes the fields it names and the checksum, and not one byte
/// besides.
pub proof fn law_commit_changes_only_its_fields(
    raw: Seq<u8>,
    csum_type: ChecksumType,
    commit: Commit,
    j: int,
)
    requires
        raw.len() >= SUPERBLOCK_SIZE,
        CSUM_SIZE <= j < raw.len(),
        !commit_sets(commit, j),
    ensures
        sealed(with_commit(raw, commit), csum_type)[j] == raw[j],
        sealed(with_commit(raw, commit), csum_type).len() == raw.len(),
{
    broadcast use crate::bytes::group_fields;

}

/// Every field a commit names reads back what it names.
pub proof fn law_commit_is_read_back(raw: Seq<u8>, csum_type: ChecksumType, commit: Commit)
    requires
        raw.len() >= SUPERBLOCK_SIZE,
    ensures
        ({
            let sb = superblock::decoded(sealed(with_commit(raw, commit), csum_type), csum_type);
            let before = superblock::decoded(raw, csum_type);
            &&& sb.generation == commit.generation
            &&& sb.root == commit.root
            &&& sb.uuid_tree_generation == commit.generation
            &&& sb.root_level == (match commit.root_level {
                Some(v) => v,
                None => before.root_level,
            })
            &&& sb.bytes_used == (match commit.bytes_used {
                Some(v) => v,
                None => before.bytes_used,
            })
            &&& sb.chunk_root == (match commit.chunk_root {
                Some(v) => v,
                None => before.chunk_root,
            })
            &&& sb.chunk_root_generation == (match commit.chunk_root_generation {
                Some(v) => v,
                None => before.chunk_root_generation,
            })
        }),
{
    broadcast use crate::bytes::group_fields;

}

/// A sealed superblock verifies under the algorithm it was sealed with, as
/// long as its own selector names that algorithm.
pub proof fn law_sealed_superblock_is_intact(raw: Seq<u8>, csum_type: ChecksumType)
    requires
        raw.len() >= SUPERBLOCK_SIZE,
        bytes::u16_at(raw, superblock::offsets::CSUM_TYPE as int) == csum_type.raw(),
    ensures
        superblock::intact(sealed(raw, csum_type)),
{
    let s = sealed(raw, csum_type);
    superblock::law_checksum_selector_round_trips(csum_type, 0);
    reveal(crate::bytes::u16_at);
    assert(s.subrange(CSUM_SIZE as int, SUPERBLOCK_SIZE as int) =~= raw.subrange(
        CSUM_SIZE as int,
        SUPERBLOCK_SIZE as int,
    ));
    assert(s.subrange(0, CSUM_SIZE as int) =~= csum_type.field(
        raw.subrange(CSUM_SIZE as int, SUPERBLOCK_SIZE as int),
    ));
}

} // verus!
