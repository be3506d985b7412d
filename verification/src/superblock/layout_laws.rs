//! Where a superblock keeps what it says, and when it is taken for one.

use vstd::prelude::*;

use crate::bytes;
use crate::strings;
use crate::superblock;
use crate::superblock::{ChecksumType, DevItemModel, SuperblockModel};

verus! {

/// Whether `n` is a power of two from 4 KiB to 64 KiB.
pub open spec fn block_size(n: u32) -> bool {
    n == 4096 || n == 8192 || n == 16384 || n == 32768 || n == 65536
}

/// The algorithm a superblock's checksum selector names.
pub open spec fn selects(raw: u16, kind: ChecksumType) -> bool {
    match kind {
        ChecksumType::Crc32c => raw == 0,
        ChecksumType::XxHash64 => raw == 1,
        ChecksumType::Sha256 => raw == 2,
        ChecksumType::Blake2b256 => raw == 3,
    }
}

/// How many bytes a digest of an algorithm has.
pub open spec fn digest_size(kind: ChecksumType) -> int {
    match kind {
        ChecksumType::Crc32c => 4,
        ChecksumType::XxHash64 => 8,
        ChecksumType::Sha256 => 32,
        ChecksumType::Blake2b256 => 32,
    }
}

/// Whether `d` is the device item at `at`.
pub open spec fn device_at(d: DevItemModel, b: Seq<u8>, at: int) -> bool {
    &&& d.devid == bytes::u64_at(b, at)
    &&& d.total_bytes == bytes::u64_at(b, at + 8)
    &&& d.bytes_used == bytes::u64_at(b, at + 16)
    &&& d.io_align == bytes::u32_at(b, at + 24)
    &&& d.io_width == bytes::u32_at(b, at + 28)
    &&& d.sector_size == bytes::u32_at(b, at + 32)
    &&& d.dev_type == bytes::u64_at(b, at + 36)
    &&& d.generation == bytes::u64_at(b, at + 44)
    &&& d.start_offset == bytes::u64_at(b, at + 52)
    &&& d.dev_group == bytes::u32_at(b, at + 60)
    &&& d.seek_speed == b[at + 64]
    &&& d.bandwidth == b[at + 65]
    &&& d.uuid == b.subrange(at + 66, at + 82)
    &&& d.fsid == b.subrange(at + 82, at + 98)
}

/// Whether `sb` says what the bytes `b` of a superblock say.
pub open spec fn says(sb: SuperblockModel, b: Seq<u8>) -> bool {
    &&& sb.csum == b.subrange(0, 32)
    &&& sb.fsid == b.subrange(32, 48)
    &&& sb.bytenr == bytes::u64_at(b, 48)
    &&& sb.flags == bytes::u64_at(b, 56)
    &&& sb.generation == bytes::u64_at(b, 72)
    &&& sb.root == bytes::u64_at(b, 80)
    &&& sb.chunk_root == bytes::u64_at(b, 88)
    &&& sb.log_root == bytes::u64_at(b, 96)
    &&& sb.log_root_transid == bytes::u64_at(b, 104)
    &&& sb.total_bytes == bytes::u64_at(b, 112)
    &&& sb.bytes_used == bytes::u64_at(b, 120)
    &&& sb.root_dir_objectid == bytes::u64_at(b, 128)
    &&& sb.num_devices == bytes::u64_at(b, 136)
    &&& sb.sectorsize == bytes::u32_at(b, 144)
    &&& sb.nodesize == bytes::u32_at(b, 148)
    &&& sb.leafsize == bytes::u32_at(b, 152)
    &&& sb.stripesize == bytes::u32_at(b, 156)
    &&& sb.sys_chunk_array_size == bytes::u32_at(b, 160)
    &&& sb.chunk_root_generation == bytes::u64_at(b, 164)
    &&& sb.compat_flags == bytes::u64_at(b, 172)
    &&& sb.compat_ro_flags == bytes::u64_at(b, 180)
    &&& sb.incompat_flags == bytes::u64_at(b, 188)
    &&& selects(bytes::u16_at(b, 196), sb.csum_type)
    &&& sb.root_level == b[198]
    &&& sb.chunk_root_level == b[199]
    &&& sb.log_root_level == b[200]
    &&& device_at(sb.dev_item, b, 201)
    &&& sb.cache_generation == bytes::u64_at(b, 555)
    &&& sb.uuid_tree_generation == bytes::u64_at(b, 563)
    &&& sb.metadata_uuid == (if sb.incompat_flags & 0x400 != 0 {
        b.subrange(571, 587)
    } else {
        b.subrange(32, 48)
    })
    &&& sb.nr_global_roots == bytes::u64_at(b, 587)
    &&& sb.sys_chunk_array == b.subrange(811, 811 + sb.sys_chunk_array_size)
    &&& exists|n: int| #[trigger] labels(sb, b, n)
}

/// Whether the label of `sb` is the first `n` bytes of the label field, which
/// are all before its first NUL.
pub open spec fn labels(sb: SuperblockModel, b: Seq<u8>, n: int) -> bool {
    &&& 0 <= n <= 256
    &&& forall|i: int| 0 <= i < n ==> #[trigger] b[299 + i] != 0
    &&& n < 256 ==> b[299 + n] == 0
    &&& sb.label == strings::lossy(b.subrange(299, 299 + n))
}

/// Whether the checksum of a superblock is right: its field opens with the
/// digest of all behind it, by the algorithm its selector names.
pub open spec fn sealed(b: Seq<u8>) -> bool {
    exists|kind: ChecksumType| #[trigger]
        selects(bytes::u16_at(b, 196), kind) && b.subrange(0, digest_size(kind))
            == superblock::padded(kind.hash(b.subrange(32, 4096))).take(digest_size(kind))
}

/// Whether what a superblock says can be: it is one of the three copies, its
/// block sizes are block sizes, its trees have roots that lie on sectors and
/// are not too high, and its device belongs to it.
pub open spec fn possible(sb: SuperblockModel) -> bool {
    &&& sb.bytenr == 0x1_0000 || sb.bytenr == 0x400_0000 || sb.bytenr == 0x40_0000_0000
    &&& block_size(sb.sectorsize)
    &&& block_size(sb.nodesize)
    &&& sb.sectorsize <= sb.nodesize
    &&& sb.stripesize == sb.sectorsize
    &&& sb.num_devices > 0
    &&& sb.total_bytes > 0
    &&& sb.total_bytes % (sb.sectorsize as u64) == 0
    &&& sb.bytes_used <= sb.total_bytes
    &&& sb.root_level < 8
    &&& sb.chunk_root_level < 8
    &&& sb.log_root_level < 8
    &&& sb.root > 0
    &&& sb.root % (sb.sectorsize as u64) == 0
    &&& sb.chunk_root > 0
    &&& sb.chunk_root % (sb.sectorsize as u64) == 0
    &&& sb.log_root % (sb.sectorsize as u64) == 0
    &&& 97 <= sb.sys_chunk_array_size <= 2048
    &&& sb.incompat_flags & 0xffff_ffff_ffff_f098 == 0
    &&& sb.flags & 0x19_0000_0000 != 0 || sb.dev_item.fsid == (if sb.incompat_flags & 0x400 != 0 {
        sb.metadata_uuid
    } else {
        sb.fsid
    })
}

proof fn lemma_small_power(n: nat)
    requires
        superblock::power_of_two(n),
        n <= 65536,
    ensures
        n == 1 || n == 2 || n == 4 || n == 8 || n == 16 || n == 32 || n == 64 || n == 128 || n
            == 256 || n == 512 || n == 1024 || n == 2048 || n == 4096 || n == 8192 || n == 16384
            || n == 32768 || n == 65536,
    decreases n,
{
    if n > 1 {
        lemma_small_power(n / 2);
    }
}

proof fn lemma_block_size(n: u32)
    ensures
        superblock::power_of_two(n as nat) && 4096 <= n <= 65536 <==> block_size(n),
{
    if superblock::power_of_two(n as nat) && 4096 <= n <= 65536 {
        lemma_small_power(n as nat);
    }
    reveal_with_fuel(superblock::power_of_two, 18);
}

proof fn lemma_nul(raw: Seq<u8>, from: int)
    requires
        0 <= from <= raw.len(),
    ensures
        ({
            let n = superblock::nul_or_end(raw, from);
            &&& from <= n <= raw.len()
            &&& n < raw.len() ==> raw[n] == 0
            &&& forall|i: int| from <= i < n ==> #[trigger] raw[i] != 0
        }),
    decreases raw.len() - from,
{
    if from < raw.len() && raw[from] != 0 {
        lemma_nul(raw, from + 1);
    }
}

proof fn lemma_says(b: Seq<u8>, kind: ChecksumType)
    requires
        b.len() >= 4096,
        selects(bytes::u16_at(b, 196), kind),
        bytes::u32_at(b, 160) <= 2048,
    ensures
        says(superblock::decoded(b, kind), b),
{
    let sb = superblock::decoded(b, kind);
    let raw = b.subrange(299, 555);
    lemma_nul(raw, 0);
    let n = superblock::nul_or_end(raw, 0);
    assert forall|i: int| 0 <= i < n implies #[trigger] b[299 + i] != 0 by {
        assert(raw[i] == b[299 + i]);
    }
    assert(raw.take(n) =~= b.subrange(299, 299 + n));
    assert(labels(sb, b, n));
    let item = b.subrange(201, 299);
    bytes::lemma_u64_local(item, b, 0, 201);
    bytes::lemma_u64_local(item, b, 8, 209);
    bytes::lemma_u64_local(item, b, 16, 217);
    bytes::lemma_u32_local(item, b, 24, 225);
    bytes::lemma_u32_local(item, b, 28, 229);
    bytes::lemma_u32_local(item, b, 32, 233);
    bytes::lemma_u64_local(item, b, 36, 237);
    bytes::lemma_u64_local(item, b, 44, 245);
    bytes::lemma_u64_local(item, b, 52, 253);
    bytes::lemma_u32_local(item, b, 60, 261);
    assert(item.subrange(66, 82) =~= b.subrange(267, 283));
    assert(item.subrange(82, 98) =~= b.subrange(283, 299));
    assert(sb.dev_item == superblock::dev_item_spec(item));
}

pub(crate) proof fn lemma_supported()
    ensures
        !superblock::incompat::SUPPORTED == 0xffff_ffff_ffff_f098u64,
{
    assert(0x1u64 | 0x2u64 | 0x4u64 | 0x20u64 | 0x40u64 | 0x100u64 | 0x200u64 | 0x400u64 | 0x800u64
        == 0xf67u64) by (bit_vector);
    assert(!0xf67u64 == 0xffff_ffff_ffff_f098u64) by (bit_vector);
}

pub(crate) proof fn lemma_sealed(b: Seq<u8>)
    requires
        b.len() >= 4096,
    ensures
        sealed(b) == superblock::intact(b),
        sealed(b) ==> bytes::u16_at(b, 196) <= 3,
{
    let raw = bytes::u16_at(b, 196);
    if let Ok(kind) = ChecksumType::from_raw_spec(raw) {
        assert(selects(raw, kind));
        assert forall|other: ChecksumType| selects(raw, other) implies other == kind by {}
        let stored = b.subrange(0, 32);
        assert(stored.take(digest_size(kind)) =~= b.subrange(0, digest_size(kind)));
    } else if sealed(b) {
        let kind = choose|kind: ChecksumType| #[trigger] selects(raw, kind);
        assert(selects(raw, kind));
    }
}

/// The bytes of a superblock are taken for one exactly where they carry the
/// magic number, their checksum is right, and what they say can be; and then
/// every field says what lies in its place.
pub proof fn law_a_superblock_is_what_its_bytes_say(b: Seq<u8>)
    ensures
        match superblock::parse_outcome(b, superblock::intact(b)) {
            Ok(sb) => {
                &&& b.len() >= 4096
                &&& b.subrange(64, 72) == seq![
                    0x5fu8,
                    0x42u8,
                    0x48u8,
                    0x52u8,
                    0x66u8,
                    0x53u8,
                    0x5fu8,
                    0x4du8,
                ]
                &&& sealed(b)
                &&& says(sb, b)
                &&& possible(sb)
            },
            Err(_) => !(b.len() >= 4096 && b.subrange(64, 72) == seq![
                0x5fu8,
                0x42u8,
                0x48u8,
                0x52u8,
                0x66u8,
                0x53u8,
                0x5fu8,
                0x4du8,
            ] && sealed(b) && exists|sb: SuperblockModel| #[trigger] says(sb, b) && possible(sb)),
        },
{
    assert(superblock::BTRFS_MAGIC@ =~= seq![
        0x5fu8,
        0x42u8,
        0x48u8,
        0x52u8,
        0x66u8,
        0x53u8,
        0x5fu8,
        0x4du8,
    ]);
    lemma_supported();
    assert(0x8_0000_0000u64 | 0x10_0000_0000u64 | 0x1_0000_0000u64 == 0x19_0000_0000u64)
        by (bit_vector);
    let raw = bytes::u16_at(b, 196);
    if b.len() >= 4096 {
        if let Ok(kind) = ChecksumType::from_raw_spec(raw) {
            assert(selects(raw, kind));
            assert forall|other: ChecksumType| selects(raw, other) implies other == kind by {}
            let digest = superblock::padded(kind.hash(b.subrange(32, 4096)));
            let stored = b.subrange(0, 32);
            assert(stored.take(digest_size(kind)) =~= b.subrange(0, digest_size(kind)));
            assert(sealed(b) == superblock::intact(b));
            let sb = superblock::decoded(b, kind);
            lemma_block_size(sb.sectorsize);
            lemma_block_size(sb.nodesize);
            if bytes::u32_at(b, 160) <= 2048 {
                lemma_says(b, kind);
            }
            assert forall|other: SuperblockModel| #[trigger] says(other, b) && possible(
                other,
            ) implies bytes::u32_at(b, 160) <= 2048 && other.dev_item.fsid == sb.dev_item.fsid
                && possible(sb) by {
                lemma_says(b, kind);
            }
        } else {
            assert(!sealed(b)) by {
                if sealed(b) {
                    let kind = choose|kind: ChecksumType| #[trigger] selects(raw, kind);
                    assert(selects(raw, kind));
                }
            }
        }
    }
}

} // verus!
