//! Btrfs superblock parsing and validation.
//!
//! The superblock is a fixed [`SUPER_INFO_SIZE`]-byte (4 KiB) structure
//! written at up to three fixed *physical* offsets, see [`SUPER_OFFSETS`].
//! Every copy is self-describing: `bytenr` records the offset the copy
//! belongs at, so a misdirected read is detectable independently of the
//! checksum.
//!
//! The first [`CSUM_SIZE`] bytes hold the checksum. It covers everything
//! after itself, bytes `0x20 .. 0x1000`, and only as many bytes of the field
//! as the algorithm's digest has are meaningful.

use vstd::prelude::*;
use vstd::slice::slice_subrange;

use crate::bytes;
use crate::bytes::{copy_range, field32_at, le16, le32, le64, same_bytes, uuid_at};
use crate::error::{Error, ErrorView, Result};
use crate::hashes;
use crate::strings;
use crate::text;
use crate::text::Part::{Dec, Hex, Lit, Mask};
use crate::text::{cat2, cat3, cat4, cat5};

pub mod compat_ro;
pub mod dev_item_offsets;
pub mod incompat;
pub mod layout_laws;
pub mod offsets;
pub mod refusal_laws;
pub mod super_flags;

verus! {

/// The eight magic bytes at [`offsets::MAGIC`], in on-disk order: the ASCII
/// string `_BHRfS_M`.
pub const BTRFS_MAGIC: [u8; 8] = [0x5f, 0x42, 0x48, 0x52, 0x66, 0x53, 0x5f, 0x4d];

/// [`BTRFS_MAGIC`] as the little-endian `u64` the format documentation also
/// quotes it as.
pub const BTRFS_MAGIC_LE64: u64 = 0x4D5F_5366_5248_425F;

/// Size of the on-disk superblock structure in bytes.
pub const SUPER_INFO_SIZE: usize = 4096;

/// Physical byte offset of the primary superblock (64 KiB).
pub const SUPER_INFO_OFFSET: u64 = 0x1_0000;

/// Every physical offset a superblock copy may live at: 64 KiB, 64 MiB and
/// 256 GiB.
pub const SUPER_OFFSETS: [u64; 3] = [SUPER_INFO_OFFSET, 0x400_0000, 0x40_0000_0000];

/// Size of the checksum field. Wide enough for the largest supported digest;
/// narrower digests are zero-padded.
pub const CSUM_SIZE: usize = 32;

/// Size of a filesystem or device UUID field.
pub const UUID_SIZE: usize = 16;

/// Size of the label field, NUL-padded.
pub const LABEL_SIZE: usize = 256;

/// Size of the embedded system chunk array.
pub const SYS_CHUNK_ARRAY_SIZE: usize = 2048;

/// Size of the embedded `struct btrfs_dev_item`.
pub const DEV_ITEM_SIZE: usize = 0x62;

/// Maximum B-tree height. A `*_level` field at or above this is nonsense.
pub const MAX_LEVEL: u8 = 8;

/// Largest metadata block size Btrfs permits.
pub const MAX_METADATA_BLOCKSIZE: u32 = 65536;

/// Smallest sector size Btrfs permits.
pub const MIN_SECTORSIZE: u32 = 4096;

/// The shortest system chunk array that holds one mapping: a key of 17
/// bytes, a chunk header of 48 and one stripe of 32.
pub const MIN_SYS_CHUNK_ARRAY: u32 = 97;

/// The hash algorithm protecting a volume's metadata, from `csum_type` at
/// [`offsets::CSUM_TYPE`].
#[derive(Debug, Clone, Copy, PartialEq, Eq, Structural)]
pub enum ChecksumType {
    /// CRC32C (Castagnoli), 4-byte digest.
    Crc32c,
    /// XXH64 with seed 0, 8-byte digest.
    XxHash64,
    /// SHA-256, 32-byte digest.
    Sha256,
    /// BLAKE2b truncated to 256 bits, 32-byte digest.
    Blake2b256,
}

impl ChecksumType {
    /// The algorithm an on-disk selector names.
    pub open spec fn from_raw_spec(raw: u16) -> std::result::Result<ChecksumType, ErrorView> {
        if raw == 0 {
            Ok(ChecksumType::Crc32c)
        } else if raw == 1 {
            Ok(ChecksumType::XxHash64)
        } else if raw == 2 {
            Ok(ChecksumType::Sha256)
        } else if raw == 3 {
            Ok(ChecksumType::Blake2b256)
        } else {
            Err(ErrorView::UnsupportedChecksum(raw))
        }
    }

    /// The selector of an algorithm.
    pub open spec fn raw(self) -> u16 {
        match self {
            ChecksumType::Crc32c => 0,
            ChecksumType::XxHash64 => 1,
            ChecksumType::Sha256 => 2,
            ChecksumType::Blake2b256 => 3,
        }
    }

    /// How many bytes of the checksum field an algorithm fills.
    pub open spec fn width(self) -> nat {
        match self {
            ChecksumType::Crc32c => 4,
            ChecksumType::XxHash64 => 8,
            ChecksumType::Sha256 => 32,
            ChecksumType::Blake2b256 => 32,
        }
    }

    /// The bytes of the digest of `data`, without the padding.
    pub open spec fn hash(self, data: Seq<u8>) -> Seq<u8> {
        match self {
            ChecksumType::Crc32c => bytes::u32_bytes(hashes::crc32c_from(0, data)),
            ChecksumType::XxHash64 => bytes::u64_bytes(hashes::xxh64_of(0, data)),
            ChecksumType::Sha256 => hashes::sha256_of(data),
            ChecksumType::Blake2b256 => hashes::blake2b_of(32, data),
        }
    }

    /// The checksum field for `data`: its digest, zero-padded.
    pub open spec fn field(self, data: Seq<u8>) -> Seq<u8> {
        padded(self.hash(data))
    }

    /// Whether `stored` opens with the digest of `data`.
    pub open spec fn matches(self, data: Seq<u8>, stored: Seq<u8>) -> bool {
        stored.len() >= self.width() && self.field(data).take(self.width() as int) == stored.take(
            self.width() as int,
        )
    }

    /// Decode the on-disk `csum_type` selector.
    pub fn from_raw(raw: u16) -> (r: Result<Self>)
        ensures
            crate::error::seen(r) == Self::from_raw_spec(raw),
    {
        match raw {
            0 => Ok(ChecksumType::Crc32c),
            1 => Ok(ChecksumType::XxHash64),
            2 => Ok(ChecksumType::Sha256),
            3 => Ok(ChecksumType::Blake2b256),
            other => Err(Error::UnsupportedChecksum(other)),
        }
    }

    /// The on-disk selector value.
    pub fn to_raw(self) -> (raw: u16)
        ensures
            raw == self.raw(),
    {
        match self {
            ChecksumType::Crc32c => 0,
            ChecksumType::XxHash64 => 1,
            ChecksumType::Sha256 => 2,
            ChecksumType::Blake2b256 => 3,
        }
    }

    /// How many of the 32 checksum bytes this algorithm actually fills. The
    /// remainder is zero-padding and is not compared.
    pub fn digest_len(self) -> (n: usize)
        ensures
            n == self.width(),
    {
        match self {
            ChecksumType::Crc32c => 4,
            ChecksumType::XxHash64 => 8,
            ChecksumType::Sha256 | ChecksumType::Blake2b256 => 32,
        }
    }

    /// Compute the digest of `data` into a zero-padded 32-byte field, in the
    /// exact on-disk representation. CRC32C and XXH64 are stored
    /// little-endian, like every other integer in the format.
    pub fn digest(self, data: &[u8]) -> (out: [u8; CSUM_SIZE])
        ensures
            out@ == self.field(data@),
            self.hash(data@).len() == self.width(),
    {
        let hash: Vec<u8> = match self {
            ChecksumType::Crc32c => {
                let h: u32 = hashes::crc32c(data);
                proof {
                    bytes::lemma_u32_round_trip(bytes::zeros(4), 0, h);
                    assert(bytes::splice(bytes::zeros(4), 0, bytes::u32_bytes(h))
                        =~= bytes::u32_bytes(h));
                }
                let mut field = bytes::zeroed(4);
                bytes::put32(field.as_mut_slice(), 0, h);
                field
            },
            ChecksumType::XxHash64 => {
                let h: u64 = hashes::xxh64(0, data);
                proof {
                    bytes::lemma_u64_round_trip(bytes::zeros(8), 0, h);
                    assert(bytes::splice(bytes::zeros(8), 0, bytes::u64_bytes(h))
                        =~= bytes::u64_bytes(h));
                }
                let mut field = bytes::zeroed(8);
                bytes::put64(field.as_mut_slice(), 0, h);
                field
            },
            ChecksumType::Sha256 => hashes::sha256(data),
            ChecksumType::Blake2b256 => hashes::blake2b(32, data),
        };
        digest_field(hash.as_slice())
    }

    /// Whether `stored` matches the digest of `data`. Only the first
    /// [`Self::digest_len`] bytes participate.
    pub fn verify(self, data: &[u8], stored: &[u8]) -> (ok: bool)
        ensures
            ok == self.matches(data@, stored@),
    {
        let field = self.digest(data);
        field_opens(field.as_slice(), stored, self.digest_len())
    }
}

/// A digest as the checksum field holds it: zero bytes up to 32.
pub open spec fn padded(digest: Seq<u8>) -> Seq<u8> {
    (digest + bytes::zeros(32)).take(32)
}

/// Put a digest of up to 32 bytes into a zero-padded checksum field.
pub fn digest_field(digest: &[u8]) -> (out: [u8; CSUM_SIZE])
    requires
        digest@.len() <= 32,
    ensures
        out@ == padded(digest@),
{
    let mut field = bytes::zeroed(CSUM_SIZE);
    bytes::put_bytes(field.as_mut_slice(), 0, digest);
    let out = field32_at(field.as_slice(), 0);
    assert(out@ =~= padded(digest@));
    out
}

/// Whether `stored` opens with the first `n` bytes of `field`.
pub fn field_opens(field: &[u8], stored: &[u8], n: usize) -> (ok: bool)
    requires
        n <= field@.len(),
    ensures
        ok == (stored@.len() >= n && field@.take(n as int) == stored@.take(n as int)),
{
    if stored.len() < n {
        return false;
    }
    same_bytes(slice_subrange(field, 0, n), slice_subrange(stored, 0, n))
}

/// Whether `n` is a power of two.
pub open spec fn power_of_two(n: nat) -> bool
    decreases n,
{
    n == 1 || (n > 1 && n % 2 == 0 && power_of_two(n / 2))
}

/// Whether `n` is a power of two.
pub fn is_power_of_two(n: u64) -> (yes: bool)
    ensures
        yes == power_of_two(n as nat),
    decreases n,
{
    if n <= 1 {
        n == 1
    } else {
        n % 2 == 0 && is_power_of_two(n / 2)
    }
}

/// The `struct btrfs_dev_item` embedded in the superblock, describing the
/// device the superblock was read from.
#[derive(Debug, Clone, PartialEq, Eq)]
pub struct DevItem {
    /// Device id, the value chunk stripes reference.
    pub devid: u64,
    /// Device capacity in bytes.
    pub total_bytes: u64,
    /// Bytes of this device claimed by chunks.
    pub bytes_used: u64,
    /// Optimal I/O alignment.
    pub io_align: u32,
    /// Optimal I/O width.
    pub io_width: u32,
    /// Minimal I/O size.
    pub sector_size: u32,
    /// Device type flags.
    pub dev_type: u64,
    /// Generation.
    pub generation: u64,
    /// Bytes at the front of the device that the filesystem leaves unused.
    pub start_offset: u64,
    /// Device group.
    pub dev_group: u32,
    /// Seek speed hint.
    pub seek_speed: u8,
    /// Bandwidth hint.
    pub bandwidth: u8,
    /// This device's UUID.
    pub uuid: [u8; UUID_SIZE],
    /// The owning filesystem's UUID: `metadata_uuid` rather than `fsid` when the
    /// `METADATA_UUID` incompatible feature is set.
    pub fsid: [u8; UUID_SIZE],
}

/// What a [`DevItem`] holds.
#[verifier::ext_equal]
pub struct DevItemModel {
    pub devid: u64,
    pub total_bytes: u64,
    pub bytes_used: u64,
    pub io_align: u32,
    pub io_width: u32,
    pub sector_size: u32,
    pub dev_type: u64,
    pub generation: u64,
    pub start_offset: u64,
    pub dev_group: u32,
    pub seek_speed: u8,
    pub bandwidth: u8,
    pub uuid: Seq<u8>,
    pub fsid: Seq<u8>,
}

impl View for DevItem {
    type V = DevItemModel;

    open spec fn view(&self) -> DevItemModel {
        DevItemModel {
            devid: self.devid,
            total_bytes: self.total_bytes,
            bytes_used: self.bytes_used,
            io_align: self.io_align,
            io_width: self.io_width,
            sector_size: self.sector_size,
            dev_type: self.dev_type,
            generation: self.generation,
            start_offset: self.start_offset,
            dev_group: self.dev_group,
            seek_speed: self.seek_speed,
            bandwidth: self.bandwidth,
            uuid: self.uuid@,
            fsid: self.fsid@,
        }
    }
}

/// The device item at the front of `b`.
pub open spec fn dev_item_spec(b: Seq<u8>) -> DevItemModel {
    DevItemModel {
        devid: bytes::u64_at(b, dev_item_offsets::DEVID as int),
        total_bytes: bytes::u64_at(b, dev_item_offsets::TOTAL_BYTES as int),
        bytes_used: bytes::u64_at(b, dev_item_offsets::BYTES_USED as int),
        io_align: bytes::u32_at(b, dev_item_offsets::IO_ALIGN as int),
        io_width: bytes::u32_at(b, dev_item_offsets::IO_WIDTH as int),
        sector_size: bytes::u32_at(b, dev_item_offsets::SECTOR_SIZE as int),
        dev_type: bytes::u64_at(b, dev_item_offsets::TYPE as int),
        generation: bytes::u64_at(b, dev_item_offsets::GENERATION as int),
        start_offset: bytes::u64_at(b, dev_item_offsets::START_OFFSET as int),
        dev_group: bytes::u32_at(b, dev_item_offsets::DEV_GROUP as int),
        seek_speed: b[dev_item_offsets::SEEK_SPEED as int],
        bandwidth: b[dev_item_offsets::BANDWIDTH as int],
        uuid: b.subrange(dev_item_offsets::UUID as int, dev_item_offsets::UUID + 16),
        fsid: b.subrange(dev_item_offsets::FSID as int, dev_item_offsets::FSID + 16),
    }
}

impl DevItem {
    /// Parse a device item from `buf`, which must be at least
    /// [`DEV_ITEM_SIZE`] bytes.
    pub fn parse(buf: &[u8]) -> (r: Result<Self>)
        ensures
            crate::error::viewed(r) == (if buf@.len() < DEV_ITEM_SIZE {
                Err(
                    ErrorView::BadSuperblock(
                        "dev_item needs 98 bytes, got "@ + text::dec(buf@.len()),
                    ),
                )
            } else {
                Ok(dev_item_spec(buf@))
            }),
    {
        if buf.len() < DEV_ITEM_SIZE {
            return Err(
                Error::BadSuperblock(
                    cat2(Lit("dev_item needs 98 bytes, got "), Dec(buf.len() as u64)),
                ),
            );
        }
        let item = DevItem {
            devid: le64(buf, dev_item_offsets::DEVID),
            total_bytes: le64(buf, dev_item_offsets::TOTAL_BYTES),
            bytes_used: le64(buf, dev_item_offsets::BYTES_USED),
            io_align: le32(buf, dev_item_offsets::IO_ALIGN),
            io_width: le32(buf, dev_item_offsets::IO_WIDTH),
            sector_size: le32(buf, dev_item_offsets::SECTOR_SIZE),
            dev_type: le64(buf, dev_item_offsets::TYPE),
            generation: le64(buf, dev_item_offsets::GENERATION),
            start_offset: le64(buf, dev_item_offsets::START_OFFSET),
            dev_group: le32(buf, dev_item_offsets::DEV_GROUP),
            seek_speed: buf[dev_item_offsets::SEEK_SPEED],
            bandwidth: buf[dev_item_offsets::BANDWIDTH],
            uuid: uuid_at(buf, dev_item_offsets::UUID),
            fsid: uuid_at(buf, dev_item_offsets::FSID),
        };
        assert(item@ =~= dev_item_spec(buf@));
        Ok(item)
    }
}

/// A parsed Btrfs superblock. Field names follow the on-disk names.
#[derive(Debug, Clone, PartialEq, Eq)]
pub struct Superblock {
    /// The raw 32-byte checksum field, as stored.
    pub csum: [u8; CSUM_SIZE],
    /// Filesystem UUID.
    pub fsid: [u8; UUID_SIZE],
    /// Physical byte offset this copy belongs at.
    pub bytenr: u64,
    /// Superblock flags, see [`super_flags`].
    pub flags: u64,
    /// Transaction id that wrote this superblock.
    pub generation: u64,
    /// Logical address of the root tree's root node.
    pub root: u64,
    /// Logical address of the chunk tree's root node.
    pub chunk_root: u64,
    /// Logical address of the log tree's root node; 0 when clean.
    pub log_root: u64,
    /// Legacy `log_root_transid`.
    pub log_root_transid: u64,
    /// Total size of the filesystem across all devices.
    pub total_bytes: u64,
    /// Bytes currently allocated.
    pub bytes_used: u64,
    /// Objectid of the root directory (conventionally 6).
    pub root_dir_objectid: u64,
    /// Number of devices in the filesystem.
    pub num_devices: u64,
    /// Sector size in bytes.
    pub sectorsize: u32,
    /// Metadata node size in bytes.
    pub nodesize: u32,
    /// Legacy `leafsize`; parsed, and deliberately not validated.
    pub leafsize: u32,
    /// Stripe size in bytes.
    pub stripesize: u32,
    /// Valid byte count within the system chunk array.
    pub sys_chunk_array_size: u32,
    /// Transaction id of the chunk tree root.
    pub chunk_root_generation: u64,
    /// Compatible feature mask.
    pub compat_flags: u64,
    /// Read-only-compatible feature mask.
    pub compat_ro_flags: u64,
    /// Incompatible feature mask.
    pub incompat_flags: u64,
    /// Metadata checksum algorithm.
    pub csum_type: ChecksumType,
    /// Height of the root tree.
    pub root_level: u8,
    /// Height of the chunk tree.
    pub chunk_root_level: u8,
    /// Height of the log tree.
    pub log_root_level: u8,
    /// Device item for the device this superblock was read from.
    pub dev_item: DevItem,
    /// Volume label, trailing NULs trimmed.
    pub label: String,
    /// Free-space-cache generation.
    pub cache_generation: u64,
    /// UUID tree generation.
    pub uuid_tree_generation: u64,
    /// UUID stamped into tree node headers when `METADATA_UUID` is set, and the
    /// fsid otherwise.
    pub metadata_uuid: [u8; UUID_SIZE],
    /// Number of global roots.
    pub nr_global_roots: u64,
    /// The valid prefix of the embedded system chunk array, copied out.
    pub sys_chunk_array: Vec<u8>,
}

/// What a [`Superblock`] holds.
#[verifier::ext_equal]
pub struct SuperblockModel {
    pub csum: Seq<u8>,
    pub fsid: Seq<u8>,
    pub bytenr: u64,
    pub flags: u64,
    pub generation: u64,
    pub root: u64,
    pub chunk_root: u64,
    pub log_root: u64,
    pub log_root_transid: u64,
    pub total_bytes: u64,
    pub bytes_used: u64,
    pub root_dir_objectid: u64,
    pub num_devices: u64,
    pub sectorsize: u32,
    pub nodesize: u32,
    pub leafsize: u32,
    pub stripesize: u32,
    pub sys_chunk_array_size: u32,
    pub chunk_root_generation: u64,
    pub compat_flags: u64,
    pub compat_ro_flags: u64,
    pub incompat_flags: u64,
    pub csum_type: ChecksumType,
    pub root_level: u8,
    pub chunk_root_level: u8,
    pub log_root_level: u8,
    pub dev_item: DevItemModel,
    pub label: Seq<char>,
    pub cache_generation: u64,
    pub uuid_tree_generation: u64,
    pub metadata_uuid: Seq<u8>,
    pub nr_global_roots: u64,
    pub sys_chunk_array: Seq<u8>,
}

impl View for Superblock {
    type V = SuperblockModel;

    open spec fn view(&self) -> SuperblockModel {
        SuperblockModel {
            csum: self.csum@,
            fsid: self.fsid@,
            bytenr: self.bytenr,
            flags: self.flags,
            generation: self.generation,
            root: self.root,
            chunk_root: self.chunk_root,
            log_root: self.log_root,
            log_root_transid: self.log_root_transid,
            total_bytes: self.total_bytes,
            bytes_used: self.bytes_used,
            root_dir_objectid: self.root_dir_objectid,
            num_devices: self.num_devices,
            sectorsize: self.sectorsize,
            nodesize: self.nodesize,
            leafsize: self.leafsize,
            stripesize: self.stripesize,
            sys_chunk_array_size: self.sys_chunk_array_size,
            chunk_root_generation: self.chunk_root_generation,
            compat_flags: self.compat_flags,
            compat_ro_flags: self.compat_ro_flags,
            incompat_flags: self.incompat_flags,
            csum_type: self.csum_type,
            root_level: self.root_level,
            chunk_root_level: self.chunk_root_level,
            log_root_level: self.log_root_level,
            dev_item: self.dev_item@,
            label: self.label@,
            cache_generation: self.cache_generation,
            uuid_tree_generation: self.uuid_tree_generation,
            metadata_uuid: self.metadata_uuid@,
            nr_global_roots: self.nr_global_roots,
            sys_chunk_array: self.sys_chunk_array@,
        }
    }
}

/// The position of the first zero byte of `b` at or after `from`, or the end
/// of `b`.
pub open spec fn nul_or_end(b: Seq<u8>, from: int) -> int
    decreases b.len() - from,
{
    if from >= b.len() || b[from] == 0 {
        from
    } else {
        nul_or_end(b, from + 1)
    }
}

/// The label field of a superblock up to its first NUL.
pub open spec fn label_bytes(b: Seq<u8>) -> Seq<u8> {
    let raw = b.subrange(offsets::LABEL as int, offsets::LABEL + LABEL_SIZE);
    raw.take(nul_or_end(raw, 0))
}

/// Every field of a superblock, read out of its bytes.
pub open spec fn decoded(b: Seq<u8>, csum_type: ChecksumType) -> SuperblockModel {
    SuperblockModel {
        csum: b.subrange(offsets::CSUM as int, offsets::CSUM + 32),
        fsid: b.subrange(offsets::FSID as int, offsets::FSID + 16),
        bytenr: bytes::u64_at(b, offsets::BYTENR as int),
        flags: bytes::u64_at(b, offsets::FLAGS as int),
        generation: bytes::u64_at(b, offsets::GENERATION as int),
        root: bytes::u64_at(b, offsets::ROOT as int),
        chunk_root: bytes::u64_at(b, offsets::CHUNK_ROOT as int),
        log_root: bytes::u64_at(b, offsets::LOG_ROOT as int),
        log_root_transid: bytes::u64_at(b, offsets::LOG_ROOT_TRANSID as int),
        total_bytes: bytes::u64_at(b, offsets::TOTAL_BYTES as int),
        bytes_used: bytes::u64_at(b, offsets::BYTES_USED as int),
        root_dir_objectid: bytes::u64_at(b, offsets::ROOT_DIR_OBJECTID as int),
        num_devices: bytes::u64_at(b, offsets::NUM_DEVICES as int),
        sectorsize: bytes::u32_at(b, offsets::SECTORSIZE as int),
        nodesize: bytes::u32_at(b, offsets::NODESIZE as int),
        leafsize: bytes::u32_at(b, offsets::LEAFSIZE as int),
        stripesize: bytes::u32_at(b, offsets::STRIPESIZE as int),
        sys_chunk_array_size: bytes::u32_at(b, offsets::SYS_CHUNK_ARRAY_SIZE as int),
        chunk_root_generation: bytes::u64_at(b, offsets::CHUNK_ROOT_GENERATION as int),
        compat_flags: bytes::u64_at(b, offsets::COMPAT_FLAGS as int),
        compat_ro_flags: bytes::u64_at(b, offsets::COMPAT_RO_FLAGS as int),
        incompat_flags: bytes::u64_at(b, offsets::INCOMPAT_FLAGS as int),
        csum_type: csum_type,
        root_level: b[offsets::ROOT_LEVEL as int],
        chunk_root_level: b[offsets::CHUNK_ROOT_LEVEL as int],
        log_root_level: b[offsets::LOG_ROOT_LEVEL as int],
        dev_item: dev_item_spec(b.subrange(offsets::DEV_ITEM as int, offsets::DEV_ITEM + DEV_ITEM_SIZE)),
        label: strings::lossy(label_bytes(b)),
        cache_generation: bytes::u64_at(b, offsets::CACHE_GENERATION as int),
        uuid_tree_generation: bytes::u64_at(b, offsets::UUID_TREE_GENERATION as int),
        metadata_uuid: if bytes::u64_at(b, offsets::INCOMPAT_FLAGS as int) & incompat::METADATA_UUID != 0 {
            b.subrange(offsets::METADATA_UUID as int, offsets::METADATA_UUID + 16)
        } else {
            b.subrange(offsets::FSID as int, offsets::FSID + 16)
        },
        nr_global_roots: bytes::u64_at(b, offsets::NR_GLOBAL_ROOTS as int),
        sys_chunk_array: b.subrange(offsets::SYS_CHUNK_ARRAY as int, offsets::SYS_CHUNK_ARRAY + bytes::u32_at(b, offsets::SYS_CHUNK_ARRAY_SIZE as int)),
    }
}

/// Whether `bytenr` is one of the superblock mirror offsets.
pub open spec fn is_super_offset(bytenr: u64) -> bool {
    bytenr == 0x1_0000 || bytenr == 0x400_0000 || bytenr == 0x40_0000_0000
}

pub open spec fn bad(message: Seq<char>) -> Option<ErrorView> {
    Some(ErrorView::BadSuperblock(message))
}

impl SuperblockModel {
    /// The UUID tree node headers carry: `metadata_uuid` when the
    /// `METADATA_UUID` feature is set, and `fsid` otherwise.
    pub open spec fn node_uuid(self) -> Seq<u8> {
        if self.incompat_flags & incompat::METADATA_UUID != 0 {
            self.metadata_uuid
        } else {
            self.fsid
        }
    }

    /// Whether the identity of the volume may legitimately differ from the
    /// one its device records.
    pub open spec fn identity_in_flux(self) -> bool {
        self.flags & (super_flags::CHANGING_FSID | super_flags::CHANGING_FSID_V2
            | super_flags::SEEDING) != 0
    }

    /// What a well-formed superblock satisfies.
    pub open spec fn geometry_holds(self) -> bool {
        &&& is_super_offset(self.bytenr)
        &&& power_of_two(self.sectorsize as nat)
        &&& MIN_SECTORSIZE <= self.sectorsize <= MAX_METADATA_BLOCKSIZE
        &&& power_of_two(self.nodesize as nat)
        &&& self.sectorsize <= self.nodesize <= MAX_METADATA_BLOCKSIZE
        &&& self.stripesize == self.sectorsize
        &&& self.num_devices != 0
        &&& self.total_bytes != 0
        &&& self.total_bytes % (self.sectorsize as u64) == 0
        &&& self.bytes_used <= self.total_bytes
        &&& self.root_level < MAX_LEVEL
        &&& self.chunk_root_level < MAX_LEVEL
        &&& self.log_root_level < MAX_LEVEL
        &&& self.root % (self.sectorsize as u64) == 0
        &&& self.chunk_root % (self.sectorsize as u64) == 0
        &&& self.log_root % (self.sectorsize as u64) == 0
        &&& self.chunk_root != 0
        &&& self.root != 0
        &&& self.sys_chunk_array_size >= MIN_SYS_CHUNK_ARRAY
        &&& self.identity_in_flux() || self.dev_item.fsid == self.node_uuid()
    }
}

/// The first of the structural checks that `sb` fails.
pub open spec fn validate_error(sb: SuperblockModel) -> Option<ErrorView> {
    if !is_super_offset(sb.bytenr) {
        bad(
            "bytenr "@ + text::hex(sb.bytenr as nat)
                + " is not one of the superblock mirror offsets [\n    0x10000,\n    0x4000000,\n    0x4000000000,\n]"@,
        )
    } else if !power_of_two(sb.sectorsize as nat) || sb.sectorsize < MIN_SECTORSIZE || sb.sectorsize
        > MAX_METADATA_BLOCKSIZE {
        bad(
            "sectorsize "@ + text::dec(sb.sectorsize as nat)
                + " is not a power of two in [4096, 65536]"@,
        )
    } else if !power_of_two(sb.nodesize as nat) || sb.nodesize < sb.sectorsize || sb.nodesize
        > MAX_METADATA_BLOCKSIZE {
        bad(
            "nodesize "@ + text::dec(sb.nodesize as nat)
                + " is not a power of two in [sectorsize "@ + text::dec(sb.sectorsize as nat)
                + ", 65536]"@,
        )
    } else if sb.stripesize != sb.sectorsize {
        bad(
            "stripesize "@ + text::dec(sb.stripesize as nat) + " disagrees with sectorsize "@
                + text::dec(sb.sectorsize as nat),
        )
    } else if sb.num_devices == 0 {
        bad("num_devices is zero"@)
    } else if sb.total_bytes == 0 {
        bad("total_bytes is zero"@)
    } else if sb.total_bytes % (sb.sectorsize as u64) != 0 {
        bad(
            "total_bytes "@ + text::dec(sb.total_bytes as nat)
                + " is not a multiple of sectorsize "@ + text::dec(sb.sectorsize as nat),
        )
    } else if sb.bytes_used > sb.total_bytes {
        bad(
            "bytes_used "@ + text::dec(sb.bytes_used as nat) + " exceeds total_bytes "@
                + text::dec(sb.total_bytes as nat),
        )
    } else if sb.root_level >= MAX_LEVEL {
        bad("root_level "@ + text::dec(sb.root_level as nat) + " is at or above the maximum tree height 8"@)
    } else if sb.chunk_root_level >= MAX_LEVEL {
        bad("chunk_root_level "@ + text::dec(sb.chunk_root_level as nat) + " is at or above the maximum tree height 8"@)
    } else if sb.log_root_level >= MAX_LEVEL {
        bad("log_root_level "@ + text::dec(sb.log_root_level as nat) + " is at or above the maximum tree height 8"@)
    } else if sb.root % (sb.sectorsize as u64) != 0 {
        bad(
            "root "@ + text::hex(sb.root as nat) + " is not sectorsize-aligned ("@ + text::dec(
                sb.sectorsize as nat,
            ) + ")"@,
        )
    } else if sb.chunk_root % (sb.sectorsize as u64) != 0 {
        bad(
            "chunk_root "@ + text::hex(sb.chunk_root as nat) + " is not sectorsize-aligned ("@ + text::dec(
                sb.sectorsize as nat,
            ) + ")"@,
        )
    } else if sb.log_root % (sb.sectorsize as u64) != 0 {
        bad(
            "log_root "@ + text::hex(sb.log_root as nat) + " is not sectorsize-aligned ("@ + text::dec(
                sb.sectorsize as nat,
            ) + ")"@,
        )
    } else if sb.chunk_root == 0 {
        bad("chunk_root is zero — nothing can be mapped without it"@)
    } else if sb.root == 0 {
        bad("root tree address is zero"@)
    } else if sb.sys_chunk_array_size < MIN_SYS_CHUNK_ARRAY {
        bad(
            "sys_chunk_array_size "@ + text::dec(sb.sys_chunk_array_size as nat)
                + " cannot hold a single chunk mapping (need 97)"@,
        )
    } else if !sb.identity_in_flux() && sb.dev_item.fsid != sb.node_uuid() {
        bad("dev_item.fsid does not match the volume's own UUID"@)
    } else {
        None
    }
}

/// Whether the stored checksum of a whole superblock matches its contents,
/// under the algorithm its own selector names.
pub open spec fn intact(b: Seq<u8>) -> bool {
    b.len() >= SUPER_INFO_SIZE && match ChecksumType::from_raw_spec(
        bytes::u16_at(b, offsets::CSUM_TYPE as int),
    ) {
        Ok(t) => t.matches(
            b.subrange(CSUM_SIZE as int, SUPER_INFO_SIZE as int),
            b.subrange(offsets::CSUM as int, offsets::CSUM + CSUM_SIZE),
        ),
        Err(_) => false,
    }
}

/// What parsing the bytes `b` gives, `intact` saying whether the stored
/// checksum matches.
pub open spec fn parse_outcome(b: Seq<u8>, intact: bool) -> std::result::Result<
    SuperblockModel,
    ErrorView,
> {
    if b.len() < SUPER_INFO_SIZE {
        Err(ErrorView::BadSuperblock("need 4096 bytes, got "@ + text::dec(b.len())))
    } else if b.subrange(offsets::MAGIC as int, offsets::MAGIC + 8) != BTRFS_MAGIC@ {
        Err(ErrorView::NotBtrfs(b.subrange(offsets::MAGIC as int, offsets::MAGIC + 8)))
    } else {
        match ChecksumType::from_raw_spec(bytes::u16_at(b, offsets::CSUM_TYPE as int)) {
            Err(e) => Err(e),
            Ok(csum_type) => {
                let unknown: u64 = bytes::u64_at(b, offsets::INCOMPAT_FLAGS as int)
                    & !incompat::SUPPORTED;
                let sys_len: u32 = bytes::u32_at(b, offsets::SYS_CHUNK_ARRAY_SIZE as int);
                if !intact {
                    Err(
                        ErrorView::ChecksumMismatch {
                            what: "superblock"@,
                            offset: bytes::u64_at(b, offsets::BYTENR as int),
                        },
                    )
                } else if unknown != 0 {
                    Err(
                        ErrorView::UnsupportedFeature(
                            "incompatible feature bits "@ + Mask(unknown).text()
                                + " not implemented"@,
                        ),
                    )
                } else if sys_len > SYS_CHUNK_ARRAY_SIZE {
                    Err(
                        ErrorView::BadSuperblock(
                            "sys_chunk_array_size "@ + text::dec(sys_len as nat)
                                + " exceeds the 2048-byte array"@,
                        ),
                    )
                } else {
                    let sb = decoded(b, csum_type);
                    match validate_error(sb) {
                        Some(e) => Err(e),
                        None => Ok(sb),
                    }
                }
            },
        }
    }
}

impl Superblock {
    /// Parse and validate a superblock from the first [`SUPER_INFO_SIZE`]
    /// bytes of `buf`.
    ///
    /// The full 4 KiB must be present even though the parsed fields stop well
    /// short of it: the checksum covers the whole structure.
    pub fn parse(buf: &[u8]) -> (r: Result<Self>)
        ensures
            crate::error::viewed(r) == parse_outcome(buf@, intact(buf@)),
    {
        let mut ok = false;
        if buf.len() >= SUPER_INFO_SIZE {
            if let Ok(csum_type) = ChecksumType::from_raw(le16(buf, offsets::CSUM_TYPE)) {
                ok = csum_type.verify(
                    slice_subrange(buf, CSUM_SIZE, SUPER_INFO_SIZE),
                    slice_subrange(buf, offsets::CSUM, CSUM_SIZE),
                );
            }
        }
        Self::parse_checked(buf, ok)
    }

    /// Parse and validate a superblock whose stored checksum is known to
    /// match (`intact`) or not to.
    pub fn parse_checked(buf: &[u8], intact: bool) -> (r: Result<Self>)
        ensures
            crate::error::viewed(r) == parse_outcome(buf@, intact),
    {
        if buf.len() < SUPER_INFO_SIZE {
            return Err(
                Error::BadSuperblock(cat2(Lit("need 4096 bytes, got "), Dec(buf.len() as u64))),
            );
        }
        let magic_field = slice_subrange(buf, offsets::MAGIC, offsets::MAGIC + 8);
        if !same_bytes(magic_field, BTRFS_MAGIC.as_slice()) {
            let magic: [u8; 8] = [
                magic_field[0],
                magic_field[1],
                magic_field[2],
                magic_field[3],
                magic_field[4],
                magic_field[5],
                magic_field[6],
                magic_field[7],
            ];
            assert(magic@ =~= magic_field@);
            return Err(Error::NotBtrfs { magic });
        }
        let csum_type = match ChecksumType::from_raw(le16(buf, offsets::CSUM_TYPE)) {
            Ok(t) => t,
            Err(e) => return Err(e),
        };
        if !intact {
            return Err(
                Error::ChecksumMismatch { what: "superblock", offset: le64(buf, offsets::BYTENR) },
            );
        }
        let incompat_flags: u64 = le64(buf, offsets::INCOMPAT_FLAGS);
        let unknown: u64 = incompat_flags & !incompat::SUPPORTED;
        if unknown != 0 {
            return Err(
                Error::UnsupportedFeature(
                    cat3(
                        Lit("incompatible feature bits "),
                        Mask(unknown),
                        Lit(" not implemented"),
                    ),
                ),
            );
        }
        let sys_len: usize = le32(buf, offsets::SYS_CHUNK_ARRAY_SIZE) as usize;
        if sys_len > SYS_CHUNK_ARRAY_SIZE {
            return Err(
                Error::BadSuperblock(
                    cat3(
                        Lit("sys_chunk_array_size "),
                        Dec(sys_len as u64),
                        Lit(" exceeds the 2048-byte array"),
                    ),
                ),
            );
        }
        let sb = Self::decode(buf, csum_type);
        match sb.validate() {
            Ok(()) => Ok(sb),
            Err(e) => Err(e),
        }
    }

    /// Read every field, checking nothing.
    fn decode(buf: &[u8], csum_type: ChecksumType) -> (sb: Self)
        requires
            buf@.len() >= SUPER_INFO_SIZE,
            bytes::u32_at(buf@, offsets::SYS_CHUNK_ARRAY_SIZE as int) <= SYS_CHUNK_ARRAY_SIZE,
        ensures
            sb@ == decoded(buf@, csum_type),
    {
        let sys_len: usize = le32(buf, offsets::SYS_CHUNK_ARRAY_SIZE) as usize;
        let sys_chunk_array = copy_range(
            buf,
            offsets::SYS_CHUNK_ARRAY,
            offsets::SYS_CHUNK_ARRAY + sys_len,
        );
        let label = label_text(
            slice_subrange(buf, offsets::LABEL, offsets::LABEL + LABEL_SIZE),
        );
        let dev_field = slice_subrange(buf, offsets::DEV_ITEM, offsets::DEV_ITEM + DEV_ITEM_SIZE);
        let dev_item = DevItem {
            devid: le64(dev_field, dev_item_offsets::DEVID),
            total_bytes: le64(dev_field, dev_item_offsets::TOTAL_BYTES),
            bytes_used: le64(dev_field, dev_item_offsets::BYTES_USED),
            io_align: le32(dev_field, dev_item_offsets::IO_ALIGN),
            io_width: le32(dev_field, dev_item_offsets::IO_WIDTH),
            sector_size: le32(dev_field, dev_item_offsets::SECTOR_SIZE),
            dev_type: le64(dev_field, dev_item_offsets::TYPE),
            generation: le64(dev_field, dev_item_offsets::GENERATION),
            start_offset: le64(dev_field, dev_item_offsets::START_OFFSET),
            dev_group: le32(dev_field, dev_item_offsets::DEV_GROUP),
            seek_speed: dev_field[dev_item_offsets::SEEK_SPEED],
            bandwidth: dev_field[dev_item_offsets::BANDWIDTH],
            uuid: uuid_at(dev_field, dev_item_offsets::UUID),
            fsid: uuid_at(dev_field, dev_item_offsets::FSID),
        };
        assert(dev_item@ =~= dev_item_spec(dev_field@));
        // Without the METADATA_UUID feature the field is all zeros and the
        // metadata UUID is the fsid.
        let metadata_uuid = if le64(buf, offsets::INCOMPAT_FLAGS) & incompat::METADATA_UUID != 0 {
            uuid_at(buf, offsets::METADATA_UUID)
        } else {
            uuid_at(buf, offsets::FSID)
        };
        let sb = Superblock {
            csum: field32_at(buf, offsets::CSUM),
            fsid: uuid_at(buf, offsets::FSID),
            bytenr: le64(buf, offsets::BYTENR),
            flags: le64(buf, offsets::FLAGS),
            generation: le64(buf, offsets::GENERATION),
            root: le64(buf, offsets::ROOT),
            chunk_root: le64(buf, offsets::CHUNK_ROOT),
            log_root: le64(buf, offsets::LOG_ROOT),
            log_root_transid: le64(buf, offsets::LOG_ROOT_TRANSID),
            total_bytes: le64(buf, offsets::TOTAL_BYTES),
            bytes_used: le64(buf, offsets::BYTES_USED),
            root_dir_objectid: le64(buf, offsets::ROOT_DIR_OBJECTID),
            num_devices: le64(buf, offsets::NUM_DEVICES),
            sectorsize: le32(buf, offsets::SECTORSIZE),
            nodesize: le32(buf, offsets::NODESIZE),
            leafsize: le32(buf, offsets::LEAFSIZE),
            stripesize: le32(buf, offsets::STRIPESIZE),
            sys_chunk_array_size: le32(buf, offsets::SYS_CHUNK_ARRAY_SIZE),
            chunk_root_generation: le64(buf, offsets::CHUNK_ROOT_GENERATION),
            compat_flags: le64(buf, offsets::COMPAT_FLAGS),
            compat_ro_flags: le64(buf, offsets::COMPAT_RO_FLAGS),
            incompat_flags: le64(buf, offsets::INCOMPAT_FLAGS),
            csum_type,
            root_level: buf[offsets::ROOT_LEVEL],
            chunk_root_level: buf[offsets::CHUNK_ROOT_LEVEL],
            log_root_level: buf[offsets::LOG_ROOT_LEVEL],
            dev_item,
            label,
            cache_generation: le64(buf, offsets::CACHE_GENERATION),
            uuid_tree_generation: le64(buf, offsets::UUID_TREE_GENERATION),
            metadata_uuid,
            nr_global_roots: le64(buf, offsets::NR_GLOBAL_ROOTS),
            sys_chunk_array,
        };
        assert(sb@ =~= decoded(buf@, csum_type));
        sb
    }

    /// Parse a superblock that was read from `offset`, and additionally
    /// require the copy to agree that it belongs there.
    pub fn parse_at(buf: &[u8], offset: u64) -> (r: Result<Self>)
        ensures
            crate::error::viewed(r) == parse_at_outcome(buf@, intact(buf@), offset),
    {
        let sb = match Self::parse(buf) {
            Ok(sb) => sb,
            Err(e) => return Err(e),
        };
        if sb.bytenr != offset {
            return Err(
                Error::BlockIdentityMismatch {
                    what: "superblock",
                    expected: offset,
                    found: sb.bytenr,
                },
            );
        }
        Ok(sb)
    }

    /// Structural sanity checks, by agreement between fields: `bytenr` must
    /// name a real mirror offset, tree roots must be sector-aligned,
    /// `dev_item.fsid` must agree with the volume's own identity, and the
    /// size fields must bracket each other.
    fn validate(&self) -> (r: Result<()>)
        ensures
            match r {
                Ok(()) => validate_error(self@) is None,
                Err(e) => validate_error(self@) == Some(e@),
            },
    {
        if !(self.bytenr == 0x1_0000 || self.bytenr == 0x400_0000 || self.bytenr
            == 0x40_0000_0000) {
            return Err(
                Error::BadSuperblock(
                    cat3(
                        Lit("bytenr "),
                        Hex(self.bytenr),
                        Lit(
                            " is not one of the superblock mirror offsets [\n    0x10000,\n    0x4000000,\n    0x4000000000,\n]",
                        ),
                    ),
                ),
            );
        }
        if !is_power_of_two(self.sectorsize as u64) || self.sectorsize < MIN_SECTORSIZE
            || self.sectorsize > MAX_METADATA_BLOCKSIZE {
            return Err(
                Error::BadSuperblock(
                    cat3(
                        Lit("sectorsize "),
                        Dec(self.sectorsize as u64),
                        Lit(" is not a power of two in [4096, 65536]"),
                    ),
                ),
            );
        }
        let sector: u64 = self.sectorsize as u64;
        if !is_power_of_two(self.nodesize as u64) || self.nodesize < self.sectorsize
            || self.nodesize > MAX_METADATA_BLOCKSIZE {
            return Err(
                Error::BadSuperblock(
                    cat5(
                        Lit("nodesize "),
                        Dec(self.nodesize as u64),
                        Lit(" is not a power of two in [sectorsize "),
                        Dec(sector),
                        Lit(", 65536]"),
                    ),
                ),
            );
        }
        if self.stripesize != self.sectorsize {
            return Err(
                Error::BadSuperblock(
                    cat4(
                        Lit("stripesize "),
                        Dec(self.stripesize as u64),
                        Lit(" disagrees with sectorsize "),
                        Dec(sector),
                    ),
                ),
            );
        }
        if self.num_devices == 0 {
            return Err(Error::BadSuperblock("num_devices is zero".to_owned()));
        }
        if self.total_bytes == 0 {
            return Err(Error::BadSuperblock("total_bytes is zero".to_owned()));
        }
        if self.total_bytes % sector != 0 {
            return Err(
                Error::BadSuperblock(
                    cat4(
                        Lit("total_bytes "),
                        Dec(self.total_bytes),
                        Lit(" is not a multiple of sectorsize "),
                        Dec(sector),
                    ),
                ),
            );
        }
        if self.bytes_used > self.total_bytes {
            return Err(
                Error::BadSuperblock(
                    cat4(
                        Lit("bytes_used "),
                        Dec(self.bytes_used),
                        Lit(" exceeds total_bytes "),
                        Dec(self.total_bytes),
                    ),
                ),
            );
        }
        if self.root_level >= MAX_LEVEL {
            return Err(
                Error::BadSuperblock(
                    cat3(
                        Lit("root_level "),
                        Dec(self.root_level as u64),
                        Lit(" is at or above the maximum tree height 8"),
                    ),
                ),
            );
        }
        if self.chunk_root_level >= MAX_LEVEL {
            return Err(
                Error::BadSuperblock(
                    cat3(
                        Lit("chunk_root_level "),
                        Dec(self.chunk_root_level as u64),
                        Lit(" is at or above the maximum tree height 8"),
                    ),
                ),
            );
        }
        if self.log_root_level >= MAX_LEVEL {
            return Err(
                Error::BadSuperblock(
                    cat3(
                        Lit("log_root_level "),
                        Dec(self.log_root_level as u64),
                        Lit(" is at or above the maximum tree height 8"),
                    ),
                ),
            );
        }
        if self.root % sector != 0 {
            return Err(
                Error::BadSuperblock(
                    cat5(
                        Lit("root "),
                        Hex(self.root),
                        Lit(" is not sectorsize-aligned ("),
                        Dec(sector),
                        Lit(")"),
                    ),
                ),
            );
        }
        if self.chunk_root % sector != 0 {
            return Err(
                Error::BadSuperblock(
                    cat5(
                        Lit("chunk_root "),
                        Hex(self.chunk_root),
                        Lit(" is not sectorsize-aligned ("),
                        Dec(sector),
                        Lit(")"),
                    ),
                ),
            );
        }
        if self.log_root % sector != 0 {
            return Err(
                Error::BadSuperblock(
                    cat5(
                        Lit("log_root "),
                        Hex(self.log_root),
                        Lit(" is not sectorsize-aligned ("),
                        Dec(sector),
                        Lit(")"),
                    ),
                ),
            );
        }
        if self.chunk_root == 0 {
            return Err(
                Error::BadSuperblock(
                    "chunk_root is zero — nothing can be mapped without it".to_owned(),
                ),
            );
        }
        if self.root == 0 {
            return Err(Error::BadSuperblock("root tree address is zero".to_owned()));
        }
        if self.sys_chunk_array_size < MIN_SYS_CHUNK_ARRAY {
            return Err(
                Error::BadSuperblock(
                    cat3(
                        Lit("sys_chunk_array_size "),
                        Dec(self.sys_chunk_array_size as u64),
                        Lit(" cannot hold a single chunk mapping (need 97)"),
                    ),
                ),
            );
        }
        let in_flux = self.flags & (super_flags::CHANGING_FSID | super_flags::CHANGING_FSID_V2
            | super_flags::SEEDING) != 0;
        let identity = self.node_uuid();
        if !in_flux && !same_bytes(self.dev_item.fsid.as_slice(), identity.as_slice()) {
            return Err(
                Error::BadSuperblock(
                    "dev_item.fsid does not match the volume's own UUID".to_owned(),
                ),
            );
        }
        Ok(())
    }

    /// The UUID stamped into tree node headers.
    pub fn node_uuid(&self) -> (out: [u8; UUID_SIZE])
        ensures
            out@ == self@.node_uuid(),
    {
        if self.incompat_flags & incompat::METADATA_UUID != 0 {
            self.metadata_uuid
        } else {
            self.fsid
        }
    }

    /// Whether the log tree holds changes not yet folded into the main trees.
    pub fn has_dirty_log(&self) -> (yes: bool)
        ensures
            yes == (self.log_root != 0),
    {
        self.log_root != 0
    }

    /// Whether this device is a read-only seed for another filesystem.
    pub fn is_seeding(&self) -> (yes: bool)
        ensures
            yes == (self.flags & super_flags::SEEDING != 0),
    {
        self.flags & super_flags::SEEDING != 0
    }

    /// Whether the volume was flagged as having hit an error.
    pub fn has_error_flag(&self) -> (yes: bool)
        ensures
            yes == (self.flags & super_flags::ERROR != 0),
    {
        self.flags & super_flags::ERROR != 0
    }

    /// Whether this image came from a metadata-only dump tool.
    pub fn is_metadump(&self) -> (yes: bool)
        ensures
            yes == (self.flags & (super_flags::METADUMP | super_flags::METADUMP_V2) != 0),
    {
        self.flags & (super_flags::METADUMP | super_flags::METADUMP_V2) != 0
    }

    /// Whether file holes are implicit rather than recorded as extents.
    pub fn has_no_holes(&self) -> (yes: bool)
        ensures
            yes == (self.incompat_flags & incompat::NO_HOLES != 0),
    {
        self.incompat_flags & incompat::NO_HOLES != 0
    }

    /// Whether metadata back-references use the compact "skinny" form.
    pub fn has_skinny_metadata(&self) -> (yes: bool)
        ensures
            yes == (self.incompat_flags & incompat::SKINNY_METADATA != 0),
    {
        self.incompat_flags & incompat::SKINNY_METADATA != 0
    }

    /// Whether data and metadata share block groups.
    pub fn has_mixed_groups(&self) -> (yes: bool)
        ensures
            yes == (self.incompat_flags & incompat::MIXED_GROUPS != 0),
    {
        self.incompat_flags & incompat::MIXED_GROUPS != 0
    }

    /// Whether a free-space tree (space_cache v2) is present and valid.
    pub fn has_free_space_tree(&self) -> (yes: bool)
        ensures
            yes == (self.compat_ro_flags & (compat_ro::FREE_SPACE_TREE
                | compat_ro::FREE_SPACE_TREE_VALID) == (compat_ro::FREE_SPACE_TREE
                | compat_ro::FREE_SPACE_TREE_VALID)),
    {
        self.compat_ro_flags & (compat_ro::FREE_SPACE_TREE | compat_ro::FREE_SPACE_TREE_VALID) == (
        compat_ro::FREE_SPACE_TREE | compat_ro::FREE_SPACE_TREE_VALID)
    }

    /// Whether block group items live in their own tree.
    pub fn has_block_group_tree(&self) -> (yes: bool)
        ensures
            yes == (self.compat_ro_flags & compat_ro::BLOCK_GROUP_TREE != 0),
    {
        self.compat_ro_flags & compat_ro::BLOCK_GROUP_TREE != 0
    }
}

/// What parsing the bytes `b`, read from `offset`, gives.
pub open spec fn parse_at_outcome(b: Seq<u8>, intact: bool, offset: u64) -> std::result::Result<
    SuperblockModel,
    ErrorView,
> {
    match parse_outcome(b, intact) {
        Ok(sb) => if sb.bytenr != offset {
            Err(
                ErrorView::BlockIdentityMismatch {
                    what: "superblock"@,
                    expected: offset,
                    found: sb.bytenr,
                },
            )
        } else {
            Ok(sb)
        },
        Err(e) => Err(e),
    }
}

/// The text of a NUL-padded label field.
fn label_text(raw: &[u8]) -> (label: String)
    ensures
        label@ == strings::lossy(raw@.take(nul_or_end(raw@, 0))),
{
    let mut end: usize = 0;
    while end < raw.len() && raw[end] != 0
        invariant
            end <= raw@.len(),
            nul_or_end(raw@, 0) == nul_or_end(raw@, end as int),
        decreases raw@.len() - end,
    {
        end = end + 1;
    }
    strings::lossy_text(slice_subrange(raw, 0, end))
}

/// A superblock that parses is well-formed: every field bracket, alignment
/// and identity the structural checks name holds of it.
pub proof fn law_parsed_superblock_is_well_formed(b: Seq<u8>, intact: bool)
    ensures
        parse_outcome(b, intact) matches Ok(sb) ==> sb.geometry_holds() && intact,
{
}

/// Decoding a selector and encoding an algorithm undo each other.
pub proof fn law_checksum_selector_round_trips(t: ChecksumType, raw: u16)
    ensures
        ChecksumType::from_raw_spec(t.raw()) == Ok::<ChecksumType, ErrorView>(t),
        ChecksumType::from_raw_spec(raw) matches Ok(u) ==> u.raw() == raw,
{
}

} // verus!
