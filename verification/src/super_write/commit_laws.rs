//! What a commit leaves in the superblock, and where.

use vstd::prelude::*;

use crate::bytes;
use crate::commit;
use crate::commit::PlacedModel;
use crate::device_write::ActionModel;
use crate::error::ErrorView;
use crate::fs::FilesystemModel;
use crate::super_write;
use crate::super_write::Commit;
use crate::superblock;
use crate::superblock::ChecksumType;

verus! {

/// The number in the eight bytes at `at`, or another where that is given.
pub open spec fn or_else(value: Option<u64>, raw: Seq<u8>, at: int) -> u64 {
    match value {
        Some(v) => v,
        None => bytes::u64_at(raw, at),
    }
}

/// Whether byte `j` of a superblock lies in a field that `commit` sets.
pub open spec fn set_by(commit: Commit, j: int) -> bool {
    ||| 72 <= j < 88
    ||| 563 <= j < 571
    ||| commit.root_level is Some && j == 198
    ||| commit.bytes_used is Some && 120 <= j < 128
    ||| commit.chunk_root is Some && 88 <= j < 96
    ||| commit.chunk_root_generation is Some && 164 <= j < 172
}

/// Whether `b` is the superblock `raw` after `commit`: the generation and the
/// root tree's address are the commit's, the rest is set where the commit
/// says so, and but for the checksum no other byte differs.
pub open spec fn committed(raw: Seq<u8>, b: Seq<u8>, commit: Commit) -> bool {
    &&& b.len() == raw.len()
    &&& bytes::u64_at(b, 72) == commit.generation
    &&& bytes::u64_at(b, 80) == commit.root
    &&& bytes::u64_at(b, 563) == commit.generation
    &&& b[198] == (match commit.root_level {
        Some(level) => level,
        None => raw[198],
    })
    &&& bytes::u64_at(b, 120) == or_else(commit.bytes_used, raw, 120)
    &&& bytes::u64_at(b, 88) == or_else(commit.chunk_root, raw, 88)
    &&& bytes::u64_at(b, 164) == or_else(commit.chunk_root_generation, raw, 164)
}

/// Whether the first 32 bytes of `b` are the checksum of the rest of a
/// superblock.
pub open spec fn checksummed(b: Seq<u8>, kind: ChecksumType) -> bool {
    b.subrange(0, 32) == superblock::padded(kind.hash(b.subrange(32, 4096)))
}

proof fn lemma_sealed(raw: Seq<u8>, kind: ChecksumType)
    requires
        raw.len() >= 4096,
    ensures
        checksummed(super_write::sealed(raw, kind), kind),
        super_write::sealed(raw, kind).len() == raw.len(),
        forall|j: int| 32 <= j < raw.len() ==> #[trigger] super_write::sealed(raw, kind)[j]
            == raw[j],
{
    let s = super_write::sealed(raw, kind);
    assert(s.subrange(32, 4096) =~= raw.subrange(32, 4096));
    assert(s.subrange(0, 32) =~= kind.field(raw.subrange(32, 4096)));
}

/// A commit sets the fields it names, in their places, and seals the
/// superblock again; no other byte changes.
pub proof fn law_a_commit_is_written_in_its_places(
    raw: Seq<u8>,
    kind: ChecksumType,
    commit: Commit,
)
    requires
        raw.len() >= 4096,
    ensures
        ({
            let b = super_write::sealed(super_write::with_commit(raw, commit), kind);
            &&& committed(raw, b, commit)
            &&& checksummed(b, kind)
            &&& forall|j: int| 32 <= j < raw.len() && !set_by(commit, j) ==> #[trigger] b[j]
                == raw[j]
        }),
{
    broadcast use crate::bytes::group_fields;

    let set = super_write::with_commit(raw, commit);
    let b = super_write::sealed(set, kind);
    lemma_sealed(set, kind);
    assert forall|j: int| 32 <= j < raw.len() && !set_by(commit, j) implies #[trigger] b[j]
        == raw[j] by {
        super_write::law_commit_changes_only_its_fields(raw, kind, commit, j);
    }
}

/// Whether `action` writes a copy of the superblock at `at`: one that says
/// where it lies, is sealed, and is otherwise what `raw` becomes by `commit`.
pub open spec fn writes_copy(
    action: ActionModel,
    at: u64,
    raw: Seq<u8>,
    kind: ChecksumType,
    commit: Commit,
) -> bool {
    action matches ActionModel::Write { at: to, bytes: b } && {
        &&& to == at
        &&& committed(raw, b, commit)
        &&& checksummed(b, kind)
        &&& bytes::u64_at(b, 48) == at
        &&& forall|j: int|
            56 <= j < raw.len() && !set_by(commit, j) ==> #[trigger] b[j] == raw[j]
        &&& forall|j: int| 32 <= j < 48 ==> #[trigger] b[j] == raw[j]
    }
}

proof fn lemma_copy(raw: Seq<u8>, kind: ChecksumType, commit: Commit, at: u64)
    requires
        raw.len() >= 4096,
    ensures
        ({
            let image = super_write::sealed(super_write::with_commit(raw, commit), kind);
            writes_copy(
                ActionModel::Write { at, bytes: commit::copy_at(image, kind, at) },
                at,
                raw,
                kind,
                commit,
            )
        }),
{
    broadcast use crate::bytes::group_fields;

    let image = super_write::sealed(super_write::with_commit(raw, commit), kind);
    law_a_commit_is_written_in_its_places(raw, kind, commit);
    let moved = super_write::with_u64(image, superblock::offsets::BYTENR, Some(at));
    let b = commit::copy_at(image, kind, at);
    lemma_sealed(moved, kind);
    assert(bytes::u64_at(b, 48) == at);
    assert forall|j: int| 56 <= j < raw.len() && !set_by(commit, j) implies #[trigger] b[j]
        == raw[j] by {
        assert(moved[j] == image[j]);
    }
    assert forall|j: int| 32 <= j < 48 implies #[trigger] b[j] == raw[j] by {
        assert(moved[j] == image[j]);
    }
}

/// A commit ends with the superblock: after the tree blocks and a flush, a
/// copy at 64 KiB, at 64 MiB and at 256 GiB, each that lies on the device and
/// in that order, and then a flush.
pub proof fn law_a_commit_writes_every_copy(
    fs: FilesystemModel,
    blocks: Seq<PlacedModel>,
    commit: Commit,
    raw: Seq<u8>,
)
    requires
        commit::commit_outcome(fs, blocks, commit) is Ok,
        (fs.volume.disk)(0, 65536, 4096) == Ok::<Seq<u8>, ErrorView>(raw),
    ensures
        ({
            let actions = commit::commit_outcome(fs, blocks, commit)->Ok_0;
            let kind = fs.volume.sb.csum_type;
            let size = fs.writable->Some_0;
            let n = actions.len();
            &&& fs.writable is Some
            &&& n >= 2
            &&& actions[n - 1] == ActionModel::Flush
            &&& size >= 0x40_0000_1000 ==> {
                &&& n >= 5
                &&& actions[n - 5] == ActionModel::Flush
                &&& writes_copy(actions[n - 4], 0x1_0000, raw, kind, commit)
                &&& writes_copy(actions[n - 3], 0x400_0000, raw, kind, commit)
                &&& writes_copy(actions[n - 2], 0x40_0000_0000, raw, kind, commit)
            }
            &&& 0x400_1000 <= size < 0x40_0000_1000 ==> {
                &&& n >= 4
                &&& actions[n - 4] == ActionModel::Flush
                &&& writes_copy(actions[n - 3], 0x1_0000, raw, kind, commit)
                &&& writes_copy(actions[n - 2], 0x400_0000, raw, kind, commit)
            }
            &&& 0x1_1000 <= size < 0x400_1000 ==> {
                &&& n >= 3
                &&& actions[n - 3] == ActionModel::Flush
                &&& writes_copy(actions[n - 2], 0x1_0000, raw, kind, commit)
            }
        }),
{
    let (writes, copies) = commit::commit_halves(fs, blocks, commit)->Ok_0;
    let actions = commit::commit_outcome(fs, blocks, commit)->Ok_0;
    let kind = fs.volume.sb.csum_type;
    let size = fs.writable->Some_0;
    let image = super_write::sealed(super_write::with_commit(raw, commit), kind);
    let n = actions.len();
    commit::law_blocks_land_before_superblocks(fs, blocks, commit);
    lemma_copy(raw, kind, commit, 0x1_0000);
    lemma_copy(raw, kind, commit, 0x400_0000);
    lemma_copy(raw, kind, commit, 0x40_0000_0000);
    reveal_with_fuel(commit::copies_from, 4);
    let offsets = superblock::SUPER_OFFSETS@;
    assert(offsets[0] == 0x1_0000 && offsets[1] == 0x400_0000 && offsets[2] == 0x40_0000_0000);
    let first = ActionModel::Write { at: 0x1_0000, bytes: commit::copy_at(image, kind, 0x1_0000) };
    let second = ActionModel::Write {
        at: 0x400_0000,
        bytes: commit::copy_at(image, kind, 0x400_0000),
    };
    let third = ActionModel::Write {
        at: 0x40_0000_0000,
        bytes: commit::copy_at(image, kind, 0x40_0000_0000),
    };
    if size >= 0x40_0000_1000 {
        assert(copies =~= seq![first, second, third]);
    } else if 0x400_1000 <= size {
        assert(copies =~= seq![first, second]);
    } else if 0x1_1000 <= size {
        assert(copies =~= seq![first]);
    }
    assert(actions[n - 1] == actions.last());
    assert forall|i: int| 0 <= i < copies.len() implies actions[n - 1 - copies.len() + i]
        == #[trigger] copies[i] by {}
}

/// The backup slots lie behind the array of system chunks, 168 bytes each, and
/// generation `g` writes the one in place `(g - 1) mod 4`.
pub proof fn law_a_backup_slot_is_found_by_generation(g: u64)
    ensures
        super_write::offsets::ROOT_BACKUPS + super_write::slot_of(g)
            * super_write::ROOT_BACKUP_SIZE == 2859 + 168 * ((g - 1) % 4),
{
}

} // verus!
