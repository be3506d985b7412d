//! Chunk items and the logical-to-physical address map.
//!
//! Every pointer in Btrfs is a *logical* address in a single flat 64-bit
//! space that spans the whole filesystem. A chunk maps a contiguous logical
//! range onto one or more *stripes*, each a contiguous byte range on one
//! device. How an offset within the chunk selects a stripe depends on the
//! chunk's RAID profile:
//!
//! - SINGLE: one stripe; the offset passes straight through.
//! - DUP, RAID1, RAID1C3, RAID1C4: every stripe is a full copy of the whole
//!   chunk, so the offset passes straight through and the stripe index
//!   selects *which mirror* to read.
//! - RAID0: the chunk is cut into `stripe_len` rows dealt round-robin across
//!   the stripes.
//! - RAID10: RAID0 across `num_stripes / sub_stripes` groups, with each group
//!   mirrored `sub_stripes` ways.
//!
//! RAID5 and RAID6 are refused with [`Error::UnsupportedProfile`]: their
//! layout involves a rotating parity stripe, and a plausible-looking guess
//! would silently return the wrong bytes.

use vstd::prelude::*;
use vstd::slice::slice_subrange;

use crate::bytes;
use crate::bytes::{le16, le32, le64, same_bytes, uuid_at};
use crate::error::{Error, ErrorView, Result};
use crate::superblock;
use crate::superblock::{is_power_of_two, Superblock, UUID_SIZE};
use crate::text;
use crate::text::Part::{Dec, Hex, Lit};
use crate::text::{cat2, cat3, cat4, cat5, cat6};

pub mod array_laws;
pub mod block_group;
pub mod key_type;
pub mod laws;
pub mod map_laws;
pub mod objectid;
pub mod place_laws;
pub mod valid_laws;

verus! {

/// Size of an on-disk `struct btrfs_disk_key`: `u64` objectid, `u8` type,
/// `u64` offset, packed with no padding.
pub const DISK_KEY_SIZE: usize = 17;

/// Size of the fixed part of a `struct btrfs_chunk`, before its stripe array.
pub const CHUNK_HEADER_SIZE: usize = 48;

/// Size of one on-disk `struct btrfs_stripe`.
pub const STRIPE_SIZE: usize = 32;

/// The stripe length every current `mkfs.btrfs` uses. The value is read from
/// each chunk item rather than assumed.
pub const DEFAULT_STRIPE_LEN: u64 = 65536;

/// The redundancy layout of a chunk.
#[derive(Debug, Clone, Copy, PartialEq, Eq, Structural)]
pub enum ChunkProfile {
    /// One stripe, no redundancy.
    Single,
    /// Two copies on the same device.
    Dup,
    /// Striped across all stripes, no redundancy.
    Raid0,
    /// Two-way mirror.
    Raid1,
    /// Three-way mirror.
    Raid1c3,
    /// Four-way mirror.
    Raid1c4,
    /// Striped mirrors.
    Raid10,
    /// Single-parity: recognised, not translatable.
    Raid5,
    /// Double-parity: recognised, not translatable.
    Raid6,
}

/// How many bits of `v` are set.
pub open spec fn ones(v: u64) -> nat
    decreases v,
{
    if v == 0 {
        0
    } else {
        (v % 2) as nat + ones(v / 2)
    }
}

fn count_ones(v: u64) -> (n: u64)
    ensures
        n == ones(v),
        n <= v,
    decreases v,
{
    if v == 0 {
        0
    } else {
        v % 2 + count_ones(v / 2)
    }
}

/// The profile a chunk item's `type` field names.
pub open spec fn profile_of(chunk_type: u64) -> std::result::Result<ChunkProfile, ErrorView> {
    let profile: u64 = chunk_type & block_group::PROFILE_MASK;
    if chunk_type & block_group::TYPE_MASK == 0 {
        Err(
            ErrorView::BadChunkItem(
                "type "@ + text::hex(chunk_type as nat)
                    + " names neither DATA, METADATA nor SYSTEM"@,
            ),
        )
    } else if ones(profile) > 1 {
        Err(
            ErrorView::BadChunkItem(
                "type "@ + text::hex(chunk_type as nat) + " sets "@ + text::dec(ones(profile))
                    + " profile bits at once"@,
            ),
        )
    } else if profile == 0 {
        Ok(ChunkProfile::Single)
    } else if profile == block_group::DUP {
        Ok(ChunkProfile::Dup)
    } else if profile == block_group::RAID0 {
        Ok(ChunkProfile::Raid0)
    } else if profile == block_group::RAID1 {
        Ok(ChunkProfile::Raid1)
    } else if profile == block_group::RAID1C3 {
        Ok(ChunkProfile::Raid1c3)
    } else if profile == block_group::RAID1C4 {
        Ok(ChunkProfile::Raid1c4)
    } else if profile == block_group::RAID10 {
        Ok(ChunkProfile::Raid10)
    } else if profile == block_group::RAID5 {
        Ok(ChunkProfile::Raid5)
    } else if profile == block_group::RAID6 {
        Ok(ChunkProfile::Raid6)
    } else {
        Err(
            ErrorView::BadChunkItem(
                "type "@ + text::hex(chunk_type as nat) + " has unrecognised profile bit "@
                    + text::hex(profile as nat),
            ),
        )
    }
}

impl ChunkProfile {
    /// The profile's name.
    pub open spec fn label(self) -> Seq<char> {
        match self {
            ChunkProfile::Single => "single"@,
            ChunkProfile::Dup => "dup"@,
            ChunkProfile::Raid0 => "raid0"@,
            ChunkProfile::Raid1 => "raid1"@,
            ChunkProfile::Raid1c3 => "raid1c3"@,
            ChunkProfile::Raid1c4 => "raid1c4"@,
            ChunkProfile::Raid10 => "raid10"@,
            ChunkProfile::Raid5 => "raid5"@,
            ChunkProfile::Raid6 => "raid6"@,
        }
    }

    /// Whether every stripe is a full copy of the chunk.
    pub open spec fn mirrored(self) -> bool {
        self == ChunkProfile::Dup || self == ChunkProfile::Raid1 || self == ChunkProfile::Raid1c3
            || self == ChunkProfile::Raid1c4
    }

    /// Whether the chunk is cut into rows dealt across its stripes.
    pub open spec fn striped(self) -> bool {
        self == ChunkProfile::Raid0 || self == ChunkProfile::Raid10
    }

    /// Whether the profile involves parity.
    pub open spec fn has_parity(self) -> bool {
        self == ChunkProfile::Raid5 || self == ChunkProfile::Raid6
    }

    /// Derive the profile from a chunk item's `type` field. A chunk may set
    /// at most one profile bit, and must say what it holds.
    pub fn from_type(chunk_type: u64) -> (r: Result<Self>)
        ensures
            crate::error::seen(r) == profile_of(chunk_type),
    {
        if chunk_type & block_group::TYPE_MASK == 0 {
            return Err(
                Error::BadChunkItem(
                    cat3(
                        Lit("type "),
                        Hex(chunk_type),
                        Lit(" names neither DATA, METADATA nor SYSTEM"),
                    ),
                ),
            );
        }
        let profile: u64 = chunk_type & block_group::PROFILE_MASK;
        let set: u64 = count_ones(profile);
        if set > 1 {
            return Err(
                Error::BadChunkItem(
                    cat5(
                        Lit("type "),
                        Hex(chunk_type),
                        Lit(" sets "),
                        Dec(set),
                        Lit(" profile bits at once"),
                    ),
                ),
            );
        }
        if profile == 0 {
            Ok(ChunkProfile::Single)
        } else if profile == block_group::DUP {
            Ok(ChunkProfile::Dup)
        } else if profile == block_group::RAID0 {
            Ok(ChunkProfile::Raid0)
        } else if profile == block_group::RAID1 {
            Ok(ChunkProfile::Raid1)
        } else if profile == block_group::RAID1C3 {
            Ok(ChunkProfile::Raid1c3)
        } else if profile == block_group::RAID1C4 {
            Ok(ChunkProfile::Raid1c4)
        } else if profile == block_group::RAID10 {
            Ok(ChunkProfile::Raid10)
        } else if profile == block_group::RAID5 {
            Ok(ChunkProfile::Raid5)
        } else if profile == block_group::RAID6 {
            Ok(ChunkProfile::Raid6)
        } else {
            Err(
                Error::BadChunkItem(
                    cat4(
                        Lit("type "),
                        Hex(chunk_type),
                        Lit(" has unrecognised profile bit "),
                        Hex(profile),
                    ),
                ),
            )
        }
    }

    /// Human-readable profile name, matching the names `mkfs.btrfs` and
    /// `btrfs filesystem df` use.
    pub fn name(self) -> (out: &'static str)
        ensures
            out@ == self.label(),
    {
        match self {
            ChunkProfile::Single => "single",
            ChunkProfile::Dup => "dup",
            ChunkProfile::Raid0 => "raid0",
            ChunkProfile::Raid1 => "raid1",
            ChunkProfile::Raid1c3 => "raid1c3",
            ChunkProfile::Raid1c4 => "raid1c4",
            ChunkProfile::Raid10 => "raid10",
            ChunkProfile::Raid5 => "raid5",
            ChunkProfile::Raid6 => "raid6",
        }
    }

    /// Whether every stripe is a full copy of the chunk, so an offset within
    /// the chunk maps through unchanged and the stripe index picks a mirror.
    pub fn is_mirrored(self) -> (yes: bool)
        ensures
            yes == self.mirrored(),
    {
        self == ChunkProfile::Dup || self == ChunkProfile::Raid1 || self == ChunkProfile::Raid1c3
            || self == ChunkProfile::Raid1c4
    }

    /// Whether the chunk is cut into rows dealt across its stripes.
    pub fn is_striped(self) -> (yes: bool)
        ensures
            yes == self.striped(),
    {
        self == ChunkProfile::Raid0 || self == ChunkProfile::Raid10
    }
}

/// A `struct btrfs_disk_key`: the 17-byte sort key every tree item and every
/// `sys_chunk_array` entry is filed under.
#[derive(Debug, Clone, Copy, PartialEq, Eq, Structural)]
pub struct DiskKey {
    /// What the item is about.
    pub objectid: u64,
    /// What kind of item it is, see [`key_type`].
    pub key_type: u8,
    /// Type-specific qualifier. For a chunk item this is the logical address
    /// the chunk starts at.
    pub offset: u64,
}

/// The key at position `at`. The record is packed, so `offset` starts on
/// byte 9.
pub open spec fn key_at(b: Seq<u8>, at: int) -> DiskKey {
    DiskKey {
        objectid: bytes::u64_at(b, at),
        key_type: b[at + 8],
        offset: bytes::u64_at(b, at + 9),
    }
}

impl DiskKey {
    /// The key as a message shows it.
    pub open spec fn shown(self) -> Seq<char> {
        "DiskKey { objectid: "@ + text::dec(self.objectid as nat) + ", key_type: "@ + text::dec(
            self.key_type as nat,
        ) + ", offset: "@ + text::dec(self.offset as nat) + " }"@
    }

    /// The key as a message shows it.
    pub fn show(&self) -> (out: String)
        ensures
            out@ == self.shown(),
    {
        text::cat7(
            Lit("DiskKey { objectid: "),
            Dec(self.objectid),
            Lit(", key_type: "),
            Dec(self.key_type as u64),
            Lit(", offset: "),
            Dec(self.offset),
            Lit(" }"),
        )
    }

    /// Parse a key from the first [`DISK_KEY_SIZE`] bytes of `buf`.
    pub fn parse(buf: &[u8]) -> (r: Result<Self>)
        ensures
            crate::error::seen(r) == (if buf@.len() < DISK_KEY_SIZE {
                Err(ErrorView::BadChunkItem("key needs 17 bytes, got "@ + text::dec(buf@.len())))
            } else {
                Ok(key_at(buf@, 0))
            }),
    {
        if buf.len() < DISK_KEY_SIZE {
            return Err(
                Error::BadChunkItem(
                    cat2(Lit("key needs 17 bytes, got "), Dec(buf.len() as u64)),
                ),
            );
        }
        Ok(DiskKey::read(buf, 0))
    }

    /// Read the key at position `at`.
    pub(crate) fn read(buf: &[u8], at: usize) -> (key: Self)
        requires
            at + DISK_KEY_SIZE <= buf@.len(),
        ensures
            key == key_at(buf@, at as int),
    {
        assert(at + DISK_KEY_SIZE <= buf.len());
        DiskKey { objectid: le64(buf, at), key_type: buf[at + 8], offset: le64(buf, at + 9) }
    }
}

/// One `struct btrfs_stripe`: a contiguous byte range on one device.
#[derive(Debug, Clone, Copy, PartialEq, Eq)]
pub struct Stripe {
    /// Which device this stripe lives on.
    pub devid: u64,
    /// Byte offset of the stripe on that device.
    pub offset: u64,
    /// UUID of the device.
    pub dev_uuid: [u8; UUID_SIZE],
}

/// What a [`Stripe`] holds.
#[verifier::ext_equal]
pub struct StripeModel {
    pub devid: u64,
    pub offset: u64,
    pub dev_uuid: Seq<u8>,
}

impl View for Stripe {
    type V = StripeModel;

    open spec fn view(&self) -> StripeModel {
        StripeModel { devid: self.devid, offset: self.offset, dev_uuid: self.dev_uuid@ }
    }
}

/// The stripe at position `at`.
pub open spec fn stripe_at(b: Seq<u8>, at: int) -> StripeModel {
    StripeModel {
        devid: bytes::u64_at(b, at),
        offset: bytes::u64_at(b, at + 8),
        dev_uuid: b.subrange(at + 16, at + 32),
    }
}

impl Stripe {
    /// Parse a stripe from the first [`STRIPE_SIZE`] bytes of `buf`.
    pub fn parse(buf: &[u8]) -> (r: Result<Self>)
        ensures
            crate::error::viewed(r) == (if buf@.len() < STRIPE_SIZE {
                Err(
                    ErrorView::BadChunkItem("stripe needs 32 bytes, got "@ + text::dec(buf@.len())),
                )
            } else {
                Ok(stripe_at(buf@, 0))
            }),
    {
        if buf.len() < STRIPE_SIZE {
            return Err(
                Error::BadChunkItem(
                    cat2(Lit("stripe needs 32 bytes, got "), Dec(buf.len() as u64)),
                ),
            );
        }
        Ok(Stripe::read(buf, 0))
    }

    /// Read the stripe at position `at`.
    fn read(buf: &[u8], at: usize) -> (stripe: Self)
        requires
            at + STRIPE_SIZE <= buf@.len(),
        ensures
            stripe@ == stripe_at(buf@, at as int),
    {
        assert(at + STRIPE_SIZE <= buf.len());
        let stripe = Stripe {
            devid: le64(buf, at),
            offset: le64(buf, at + 8),
            dev_uuid: uuid_at(buf, at + 16),
        };
        assert(stripe@ =~= stripe_at(buf@, at as int));
        stripe
    }
}

/// A parsed `struct btrfs_chunk` together with the logical address it was
/// filed under, which is the `offset` of its key and not part of the item.
#[derive(Debug, Clone, PartialEq, Eq)]
pub struct Chunk {
    /// First logical address this chunk covers, from its key.
    pub logical: u64,
    /// Length of the logical range in bytes.
    pub length: u64,
    /// Objectid of the tree that owns this chunk.
    pub owner: u64,
    /// Row size for striped profiles, in bytes.
    pub stripe_len: u64,
    /// Raw `type` field, see [`block_group`].
    pub chunk_type: u64,
    /// Optimal I/O alignment hint.
    pub io_align: u32,
    /// Optimal I/O width hint.
    pub io_width: u32,
    /// Minimal I/O size hint.
    pub sector_size: u32,
    /// Number of stripes that follow.
    pub num_stripes: u16,
    /// Mirrors per striped group, meaningful for RAID10.
    pub sub_stripes: u16,
    /// The stripe array.
    pub stripes: Vec<Stripe>,
}

/// What a [`Chunk`] holds.
#[verifier::ext_equal]
pub struct ChunkModel {
    pub logical: u64,
    pub length: u64,
    pub owner: u64,
    pub stripe_len: u64,
    pub chunk_type: u64,
    pub io_align: u32,
    pub io_width: u32,
    pub sector_size: u32,
    pub num_stripes: u16,
    pub sub_stripes: u16,
    pub stripes: Seq<StripeModel>,
}

impl View for Chunk {
    type V = ChunkModel;

    open spec fn view(&self) -> ChunkModel {
        ChunkModel {
            logical: self.logical,
            length: self.length,
            owner: self.owner,
            stripe_len: self.stripe_len,
            chunk_type: self.chunk_type,
            io_align: self.io_align,
            io_width: self.io_width,
            sector_size: self.sector_size,
            num_stripes: self.num_stripes,
            sub_stripes: self.sub_stripes,
            stripes: self.stripes@.map_values(|s: Stripe| s@),
        }
    }
}

/// The result of translating one logical address.
#[derive(Debug, Clone, Copy, PartialEq, Eq, Structural)]
pub struct Mapping {
    /// Device to read from.
    pub devid: u64,
    /// Byte offset on that device.
    pub physical: u64,
    /// How many bytes remain contiguous from [`Self::physical`]. A read
    /// longer than this must be split and re-mapped.
    pub len: u64,
}

pub open spec fn bad_chunk(message: Seq<char>) -> Option<ErrorView> {
    Some(ErrorView::BadChunkItem(message))
}

/// The stripe count a profile fixes, if it fixes one.
pub open spec fn exact_stripes(profile: ChunkProfile) -> Option<u16> {
    match profile {
        ChunkProfile::Single => Some(1u16),
        ChunkProfile::Dup => Some(2u16),
        ChunkProfile::Raid1 => Some(2u16),
        ChunkProfile::Raid1c3 => Some(3u16),
        ChunkProfile::Raid1c4 => Some(4u16),
        _ => None,
    }
}

/// The first complaint about a stripe count `n` under `profile`.
pub open spec fn stripe_count_error(profile: ChunkProfile, n: u16, sub: u16) -> Option<ErrorView> {
    let want: Option<u16> = exact_stripes(profile);
    if want is Some && n != want->Some_0 {
        bad_chunk(
            profile.label() + " chunk has "@ + text::dec(n as nat) + " stripes, expected "@
                + text::dec(want->Some_0 as nat),
        )
    } else if profile == ChunkProfile::Raid0 && n < 2 {
        bad_chunk("raid0 chunk has "@ + text::dec(n as nat) + " stripes, expected at least 2"@)
    } else if profile == ChunkProfile::Raid10 && sub != 2 {
        bad_chunk("raid10 chunk has sub_stripes "@ + text::dec(sub as nat) + ", expected 2"@)
    } else if profile == ChunkProfile::Raid10 && (n < 2 || n % sub != 0) {
        bad_chunk(
            "raid10 chunk has "@ + text::dec(n as nat)
                + " stripes, which is not a positive multiple of sub_stripes "@ + text::dec(
                sub as nat,
            ),
        )
    } else if profile == ChunkProfile::Raid5 && n < 2 {
        bad_chunk("raid5 chunk has "@ + text::dec(n as nat) + " stripes, expected at least 2"@)
    } else if profile == ChunkProfile::Raid6 && n < 3 {
        bad_chunk("raid6 chunk has "@ + text::dec(n as nat) + " stripes, expected at least 3"@)
    } else {
        None
    }
}

impl ChunkModel {
    /// One past the last logical address the chunk covers, held to the end of
    /// the address space.
    pub open spec fn end(self) -> u64 {
        if self.logical + self.length > u64::MAX {
            u64::MAX
        } else {
            (self.logical + self.length) as u64
        }
    }

    /// Whether the chunk covers `logical`.
    pub open spec fn covers(self, logical: u64) -> bool {
        self.logical <= logical < self.end()
    }

    /// The first structural check the chunk fails, of those that need no
    /// outside context.
    pub open spec fn error(self) -> Option<ErrorView> {
        if self.length == 0 {
            bad_chunk("chunk covers zero logical bytes"@)
        } else if !superblock::power_of_two(self.stripe_len as nat) {
            bad_chunk(
                "stripe_len "@ + text::dec(self.stripe_len as nat)
                    + " is not a non-zero power of two"@,
            )
        } else if self.logical + self.length > u64::MAX {
            bad_chunk(
                "logical range "@ + text::hex(self.logical as nat) + "+"@ + text::hex(
                    self.length as nat,
                ) + " overflows the address space"@,
            )
        } else {
            match profile_of(self.chunk_type) {
                Err(e) => Some(e),
                Ok(profile) => stripe_count_error(profile, self.num_stripes, self.sub_stripes),
            }
        }
    }

    /// How many independent copies of any given byte the chunk holds.
    pub open spec fn mirrors(self) -> nat {
        match profile_of(self.chunk_type) {
            Ok(ChunkProfile::Dup) => 2,
            Ok(ChunkProfile::Raid1) => 2,
            Ok(ChunkProfile::Raid1c3) => 3,
            Ok(ChunkProfile::Raid1c4) => 4,
            Ok(ChunkProfile::Raid10) => self.sub_stripes as nat,
            _ => 1,
        }
    }

    /// Whether the stripe arithmetic divides by no zero. Every chunk that
    /// parses satisfies this.
    pub open spec fn divisible(self) -> bool {
        &&& self.stripe_len > 0
        &&& profile_of(self.chunk_type) == Ok::<ChunkProfile, ErrorView>(ChunkProfile::Raid0)
            ==> self.num_stripes > 0
        &&& profile_of(self.chunk_type) == Ok::<ChunkProfile, ErrorView>(ChunkProfile::Raid10)
            ==> 0 < self.sub_stripes <= self.num_stripes
    }

    /// How many groups of mirrors the rows of a striped chunk are dealt
    /// across.
    pub open spec fn groups(self, profile: ChunkProfile) -> nat {
        if profile == ChunkProfile::Raid10 {
            (self.num_stripes / self.sub_stripes) as nat
        } else if profile == ChunkProfile::Raid0 {
            self.num_stripes as nat
        } else {
            1
        }
    }

    /// Which stripe holds copy `mirror` of the byte `offset` bytes into the
    /// chunk.
    pub open spec fn stripe_index(self, profile: ChunkProfile, offset: nat, mirror: nat) -> nat {
        let nr: nat = offset / (self.stripe_len as nat);
        if profile == ChunkProfile::Raid10 {
            (nr % self.groups(profile)) * (self.sub_stripes as nat) + mirror
        } else if profile == ChunkProfile::Raid0 {
            nr % self.groups(profile)
        } else if profile == ChunkProfile::Single {
            0
        } else {
            mirror
        }
    }

    /// Where in its stripe the byte `offset` bytes into the chunk lies: the
    /// rows of `stripe_len` before it, and its place in its own row.
    pub open spec fn within_stripe(self, profile: ChunkProfile, offset: nat) -> nat {
        let nr: nat = offset / (self.stripe_len as nat);
        (nr / self.groups(profile)) * (self.stripe_len as nat) + offset % (self.stripe_len as nat)
    }

    /// What translating `logical` with copy `mirror` gives.
    pub open spec fn mapped(self, logical: u64, mirror: nat) -> std::result::Result<
        Mapping,
        ErrorView,
    > {
        if !self.covers(logical) {
            Err(ErrorView::UnmappedLogical(logical))
        } else {
            match profile_of(self.chunk_type) {
                Err(e) => Err(e),
                Ok(profile) => if profile.has_parity() {
                    Err(
                        ErrorView::UnsupportedProfile(
                            profile.label()
                                + " needs parity-aware placement, which this driver does not implement"@,
                        ),
                    )
                } else if mirror >= self.mirrors() {
                    Err(
                        ErrorView::BadChunkItem(
                            "mirror "@ + text::dec(mirror) + " requested from a "@
                                + profile.label() + " chunk with "@ + text::dec(self.mirrors())
                                + " copies"@,
                        ),
                    )
                } else {
                    self.placed(profile, logical, mirror)
                },
            }
        }
    }

    /// What translating a covered `logical` with an existing copy gives.
    pub open spec fn placed(
        self,
        profile: ChunkProfile,
        logical: u64,
        mirror: nat,
    ) -> std::result::Result<Mapping, ErrorView> {
        let offset: nat = (logical - self.logical) as nat;
        let index: nat = self.stripe_index(profile, offset, mirror);
        if index >= self.stripes.len() {
            Err(
                ErrorView::BadChunkItem(
                    "stripe index "@ + text::dec(index) + " out of range"@,
                ),
            )
        } else {
            let stripe = self.stripes[index as int];
            let physical: nat = stripe.offset as nat + self.within_stripe(profile, offset);
            let to_end: u64 = (self.end() - logical) as u64;
            let row_left: u64 = (self.stripe_len - offset % (self.stripe_len as nat)) as u64;
            if physical > u64::MAX {
                Err(
                    ErrorView::BadChunkItem("stripe address arithmetic overflowed 64 bits"@),
                )
            } else {
                Ok(
                    Mapping {
                        devid: stripe.devid,
                        physical: physical as u64,
                        len: if profile.striped() && row_left < to_end {
                            row_left
                        } else {
                            to_end
                        },
                    },
                )
            }
        }
    }
}

/// The chunk item at the front of `b`, every field read and none checked.
pub open spec fn chunk_fields(logical: u64, b: Seq<u8>) -> ChunkModel {
    ChunkModel {
        logical,
        length: bytes::u64_at(b, 0x00),
        owner: bytes::u64_at(b, 0x08),
        stripe_len: bytes::u64_at(b, 0x10),
        chunk_type: bytes::u64_at(b, 0x18),
        io_align: bytes::u32_at(b, 0x20),
        io_width: bytes::u32_at(b, 0x24),
        sector_size: bytes::u32_at(b, 0x28),
        num_stripes: bytes::u16_at(b, 0x2c),
        sub_stripes: bytes::u16_at(b, 0x2e),
        stripes: Seq::new(
            bytes::u16_at(b, 0x2c) as nat,
            |i: int| stripe_at(b, CHUNK_HEADER_SIZE + i * STRIPE_SIZE),
        ),
    }
}

/// What parsing the chunk item at the front of `b` gives.
pub open spec fn chunk_outcome(logical: u64, b: Seq<u8>) -> std::result::Result<
    ChunkModel,
    ErrorView,
> {
    let n: u16 = bytes::u16_at(b, 0x2c);
    let need: nat = (CHUNK_HEADER_SIZE + n * STRIPE_SIZE) as nat;
    if b.len() < CHUNK_HEADER_SIZE {
        Err(ErrorView::BadChunkItem("chunk header needs 48 bytes, got "@ + text::dec(b.len())))
    } else if n == 0 {
        Err(ErrorView::BadChunkItem("chunk declares zero stripes"@))
    } else if b.len() < need {
        Err(
            ErrorView::BadChunkItem(
                "chunk with "@ + text::dec(n as nat) + " stripes needs "@ + text::dec(need)
                    + " bytes, got "@ + text::dec(b.len()),
            ),
        )
    } else {
        let chunk = chunk_fields(logical, b);
        match chunk.error() {
            Some(e) => Err(e),
            None => Ok(chunk),
        }
    }
}

/// The first alignment check a chunk fails.
pub open spec fn geometry_error(chunk: ChunkModel, sectorsize: u32) -> Option<ErrorView> {
    let s: u64 = sectorsize as u64;
    if s == 0 {
        bad_chunk("sectorsize is zero"@)
    } else if chunk.logical % s != 0 {
        bad_chunk(
            "chunk logical start "@ + text::hex(chunk.logical as nat)
                + " is not sectorsize-aligned ("@ + text::dec(sectorsize as nat) + ")"@,
        )
    } else if chunk.length % s != 0 {
        bad_chunk(
            "chunk length "@ + text::hex(chunk.length as nat) + " is not a multiple of sectorsize "@
                + text::dec(sectorsize as nat),
        )
    } else {
        stripe_alignment_error(chunk.stripes, sectorsize, 0)
    }
}

/// The first misaligned stripe at or after position `from`.
pub open spec fn stripe_alignment_error(
    stripes: Seq<StripeModel>,
    sectorsize: u32,
    from: int,
) -> Option<ErrorView>
    decreases stripes.len() - from,
{
    if from >= stripes.len() {
        None
    } else if stripes[from].offset % (sectorsize as u64) != 0 {
        bad_chunk(
            "stripe "@ + text::dec(from as nat) + " physical offset "@ + text::hex(
                stripes[from].offset as nat,
            ) + " is not sectorsize-aligned ("@ + text::dec(sectorsize as nat) + ")"@,
        )
    } else {
        stripe_alignment_error(stripes, sectorsize, from + 1)
    }
}

proof fn lemma_power_of_two_positive(n: nat)
    requires
        superblock::power_of_two(n),
    ensures
        n > 0,
{
}

/// A dealt row lands on one of the stripes.
pub proof fn lemma_raid10_index(nr: nat, n: nat, sub: nat, m: nat)
    by (nonlinear_arith)
    requires
        0 < sub <= n,
        m < sub,
    ensures
        n / sub >= 1,
        (nr % (n / sub)) * sub + m < n,
{
    let groups = n / sub;
    assert(groups >= 1);
    assert(nr % groups <= groups - 1);
    assert((nr % groups) * sub <= (groups - 1) * sub);
    assert((groups - 1) * sub == groups * sub - sub);
    assert(groups * sub <= n);
}

impl Chunk {
    /// Parse a chunk item filed under logical address `logical`.
    ///
    /// `buf` must start at the chunk item and may extend past it; the number
    /// of bytes consumed is [`Chunk::encoded_len`].
    pub fn parse(logical: u64, buf: &[u8]) -> (r: Result<Self>)
        ensures
            crate::error::viewed(r) == chunk_outcome(logical, buf@),
            r matches Ok(chunk) ==> chunk@.divisible(),
    {
        if buf.len() < CHUNK_HEADER_SIZE {
            return Err(
                Error::BadChunkItem(
                    cat2(Lit("chunk header needs 48 bytes, got "), Dec(buf.len() as u64)),
                ),
            );
        }
        let num_stripes: u16 = le16(buf, 0x2c);
        if num_stripes == 0 {
            return Err(Error::BadChunkItem("chunk declares zero stripes".to_owned()));
        }
        let need: usize = CHUNK_HEADER_SIZE + (num_stripes as usize) * STRIPE_SIZE;
        if buf.len() < need {
            return Err(
                Error::BadChunkItem(
                    cat6(
                        Lit("chunk with "),
                        Dec(num_stripes as u64),
                        Lit(" stripes needs "),
                        Dec(need as u64),
                        Lit(" bytes, got "),
                        Dec(buf.len() as u64),
                    ),
                ),
            );
        }
        let mut stripes: Vec<Stripe> = Vec::new();
        let mut i: usize = 0;
        while i < num_stripes as usize
            invariant
                i <= num_stripes,
                need == CHUNK_HEADER_SIZE + num_stripes * STRIPE_SIZE,
                need <= buf@.len(),
                stripes@.len() == i,
                forall|k: int| 0 <= k < i ==> (#[trigger] stripes@[k])@ == stripe_at(
                    buf@,
                    CHUNK_HEADER_SIZE + k * STRIPE_SIZE,
                ),
            decreases num_stripes - i,
        {
            stripes.push(Stripe::read(buf, CHUNK_HEADER_SIZE + i * STRIPE_SIZE));
            i = i + 1;
        }
        let chunk = Chunk {
            logical,
            length: le64(buf, 0x00),
            owner: le64(buf, 0x08),
            stripe_len: le64(buf, 0x10),
            chunk_type: le64(buf, 0x18),
            io_align: le32(buf, 0x20),
            io_width: le32(buf, 0x24),
            sector_size: le32(buf, 0x28),
            num_stripes,
            sub_stripes: le16(buf, 0x2e),
            stripes,
        };
        assert(chunk@.stripes =~= chunk_fields(logical, buf@).stripes);
        match chunk.validate() {
            Ok(()) => Ok(chunk),
            Err(e) => Err(e),
        }
    }

    /// How many bytes this chunk item occupies on disk.
    pub fn encoded_len(&self) -> (n: usize)
        ensures
            n == CHUNK_HEADER_SIZE + self.num_stripes * STRIPE_SIZE,
    {
        CHUNK_HEADER_SIZE + (self.num_stripes as usize) * STRIPE_SIZE
    }

    /// One past the last logical address this chunk covers.
    pub fn logical_end(&self) -> (end: u64)
        ensures
            end == self@.end(),
    {
        self.logical.saturating_add(self.length)
    }

    /// The chunk's redundancy profile.
    pub fn profile(&self) -> (r: Result<ChunkProfile>)
        ensures
            crate::error::seen(r) == profile_of(self.chunk_type),
    {
        ChunkProfile::from_type(self.chunk_type)
    }

    /// Whether this chunk holds system metadata (the chunk tree).
    pub fn is_system(&self) -> (yes: bool)
        ensures
            yes == (self.chunk_type & block_group::SYSTEM != 0),
    {
        self.chunk_type & block_group::SYSTEM != 0
    }

    /// Whether this chunk holds filesystem metadata.
    pub fn is_metadata(&self) -> (yes: bool)
        ensures
            yes == (self.chunk_type & block_group::METADATA != 0),
    {
        self.chunk_type & block_group::METADATA != 0
    }

    /// Whether this chunk holds file data.
    pub fn is_data(&self) -> (yes: bool)
        ensures
            yes == (self.chunk_type & block_group::DATA != 0),
    {
        self.chunk_type & block_group::DATA != 0
    }

    /// How many independent copies of any given byte this chunk holds. Mirror
    /// indices passed to [`Chunk::map_mirror`] run `0 .. num_mirrors()`.
    pub fn num_mirrors(&self) -> (n: usize)
        ensures
            n == self@.mirrors(),
    {
        match self.profile() {
            Ok(ChunkProfile::Dup) => 2,
            Ok(ChunkProfile::Raid1) => 2,
            Ok(ChunkProfile::Raid1c3) => 3,
            Ok(ChunkProfile::Raid1c4) => 4,
            Ok(ChunkProfile::Raid10) => self.sub_stripes as usize,
            _ => 1,
        }
    }

    /// Structural checks that do not need any outside context.
    fn validate(&self) -> (r: Result<()>)
        ensures
            match r {
                Ok(()) => self@.error() is None && self@.divisible(),
                Err(e) => self@.error() == Some(e@),
            },
    {
        if self.length == 0 {
            return Err(Error::BadChunkItem("chunk covers zero logical bytes".to_owned()));
        }
        if !is_power_of_two(self.stripe_len) {
            return Err(
                Error::BadChunkItem(
                    cat3(
                        Lit("stripe_len "),
                        Dec(self.stripe_len),
                        Lit(" is not a non-zero power of two"),
                    ),
                ),
            );
        }
        proof {
            lemma_power_of_two_positive(self.stripe_len as nat);
        }
        if self.logical.checked_add(self.length).is_none() {
            return Err(
                Error::BadChunkItem(
                    cat5(
                        Lit("logical range "),
                        Hex(self.logical),
                        Lit("+"),
                        Hex(self.length),
                        Lit(" overflows the address space"),
                    ),
                ),
            );
        }
        let profile = match self.profile() {
            Ok(p) => p,
            Err(e) => return Err(e),
        };
        match check_stripe_count(profile, self.num_stripes, self.sub_stripes) {
            Ok(()) => Ok(()),
            Err(e) => Err(e),
        }
    }

    /// Checks that need the superblock's geometry.
    pub fn validate_geometry(&self, sectorsize: u32) -> (r: Result<()>)
        ensures
            match r {
                Ok(()) => geometry_error(self@, sectorsize) is None,
                Err(e) => geometry_error(self@, sectorsize) == Some(e@),
            },
    {
        let s: u64 = sectorsize as u64;
        if s == 0 {
            return Err(Error::BadChunkItem("sectorsize is zero".to_owned()));
        }
        if self.logical % s != 0 {
            return Err(
                Error::BadChunkItem(
                    cat5(
                        Lit("chunk logical start "),
                        Hex(self.logical),
                        Lit(" is not sectorsize-aligned ("),
                        Dec(s),
                        Lit(")"),
                    ),
                ),
            );
        }
        if self.length % s != 0 {
            return Err(
                Error::BadChunkItem(
                    cat4(
                        Lit("chunk length "),
                        Hex(self.length),
                        Lit(" is not a multiple of sectorsize "),
                        Dec(s),
                    ),
                ),
            );
        }
        let mut i: usize = 0;
        while i < self.stripes.len()
            invariant
                i <= self.stripes@.len(),
                s == sectorsize,
                s > 0,
                stripe_alignment_error(self@.stripes, sectorsize, 0) == stripe_alignment_error(
                    self@.stripes,
                    sectorsize,
                    i as int,
                ),
                geometry_error(self@, sectorsize) == stripe_alignment_error(
                    self@.stripes,
                    sectorsize,
                    0,
                ),
            decreases self.stripes@.len() - i,
        {
            assert(self@.stripes[i as int] == self.stripes@[i as int]@);
            if self.stripes[i].offset % s != 0 {
                return Err(
                    Error::BadChunkItem(
                        text::cat7(
                            Lit("stripe "),
                            Dec(i as u64),
                            Lit(" physical offset "),
                            Hex(self.stripes[i].offset),
                            Lit(" is not sectorsize-aligned ("),
                            Dec(s),
                            Lit(")"),
                        ),
                    ),
                );
            }
            i = i + 1;
        }
        Ok(())
    }

    /// Translate `logical` using the first copy.
    pub fn map(&self, logical: u64) -> (r: Result<Mapping>)
        requires
            self@.divisible(),
        ensures
            crate::error::seen(r) == self@.mapped(logical, 0),
    {
        self.map_mirror(logical, 0)
    }

    /// Translate `logical` using copy `mirror`.
    pub fn map_mirror(&self, logical: u64, mirror: usize) -> (r: Result<Mapping>)
        requires
            self@.divisible(),
        ensures
            crate::error::seen(r) == self@.mapped(logical, mirror as nat),
    {
        if logical < self.logical || logical >= self.logical_end() {
            return Err(Error::UnmappedLogical(logical));
        }
        let profile = match self.profile() {
            Ok(p) => p,
            Err(e) => return Err(e),
        };
        if profile == ChunkProfile::Raid5 || profile == ChunkProfile::Raid6 {
            return Err(
                Error::UnsupportedProfile(
                    cat2(
                        Lit(profile.name()),
                        Lit(
                            " needs parity-aware placement, which this driver does not implement",
                        ),
                    ),
                ),
            );
        }
        let mirrors: usize = self.num_mirrors();
        if mirror >= mirrors {
            return Err(
                Error::BadChunkItem(
                    text::cat7(
                        Lit("mirror "),
                        Dec(mirror as u64),
                        Lit(" requested from a "),
                        Lit(profile.name()),
                        Lit(" chunk with "),
                        Dec(mirrors as u64),
                        Lit(" copies"),
                    ),
                ),
            );
        }
        self.place(profile, logical, mirror)
    }

    /// Place a covered `logical` on the stripe that holds copy `mirror`.
    fn place(&self, profile: ChunkProfile, logical: u64, mirror: usize) -> (r: Result<Mapping>)
        requires
            self@.divisible(),
            self@.covers(logical),
            profile_of(self.chunk_type) == Ok::<ChunkProfile, ErrorView>(profile),
            !profile.has_parity(),
            mirror < self@.mirrors(),
        ensures
            crate::error::seen(r) == self@.placed(profile, logical, mirror as nat),
    {
        let offset: u64 = logical - self.logical;
        let stripe_nr: u64 = offset / self.stripe_len;
        let stripe_offset: u64 = offset % self.stripe_len;
        let n: u64 = self.num_stripes as u64;
        let m: u64 = mirror as u64;
        // `index` selects the stripe; `row` is how many full rows of
        // stripe_len precede this one within that stripe.
        let index: u64;
        let row: u64;
        match profile {
            ChunkProfile::Single => {
                index = 0;
                row = stripe_nr;
                assert(stripe_nr / 1 == stripe_nr);
            },
            ChunkProfile::Raid0 => {
                index = stripe_nr % n;
                row = stripe_nr / n;
            },
            ChunkProfile::Raid10 => {
                let sub: u64 = self.sub_stripes as u64;
                let groups: u64 = n / sub;
                proof {
                    lemma_raid10_index(stripe_nr as nat, n as nat, sub as nat, m as nat);
                    assert((stripe_nr % groups) * sub >= 0) by (nonlinear_arith)
                        requires
                            groups > 0,
                    ;
                }
                index = (stripe_nr % groups) * sub + m;
                row = stripe_nr / groups;
            },
            _ => {
                index = m;
                row = stripe_nr;
                assert(stripe_nr / 1 == stripe_nr);
            },
        }
        assert(index == self@.stripe_index(profile, offset as nat, mirror as nat));
        assert(row == (offset as nat / (self.stripe_len as nat)) / self@.groups(profile));
        if index >= self.stripes.len() as u64 {
            return Err(
                Error::BadChunkItem(
                    cat3(Lit("stripe index "), Dec(index), Lit(" out of range")),
                ),
            );
        }
        let stripe = &self.stripes[index as usize];
        assert(self@.stripes[index as int] == self.stripes@[index as int]@);
        proof {
            assert(row * self.stripe_len >= 0) by (nonlinear_arith);
        }
        let within: Option<u64> = match row.checked_mul(self.stripe_len) {
            Some(before) => before.checked_add(stripe_offset),
            None => None,
        };
        let physical: Option<u64> = match within {
            Some(w) => stripe.offset.checked_add(w),
            None => None,
        };
        let physical: u64 = match physical {
            Some(p) => p,
            None => return Err(
                Error::BadChunkItem("stripe address arithmetic overflowed 64 bits".to_owned()),
            ),
        };
        let to_chunk_end: u64 = self.logical_end() - logical;
        let row_left: u64 = self.stripe_len - stripe_offset;
        let len: u64 = if profile.is_striped() && row_left < to_chunk_end {
            row_left
        } else {
            to_chunk_end
        };
        Ok(Mapping { devid: stripe.devid, physical, len })
    }

    /// Whether two chunks hold the same.
    pub fn same_as(&self, other: &Chunk) -> (same: bool)
        ensures
            same == (self@ == other@),
    {
        if self.logical != other.logical || self.length != other.length || self.owner
            != other.owner || self.stripe_len != other.stripe_len || self.chunk_type
            != other.chunk_type || self.io_align != other.io_align || self.io_width
            != other.io_width || self.sector_size != other.sector_size || self.num_stripes
            != other.num_stripes || self.sub_stripes != other.sub_stripes || self.stripes.len()
            != other.stripes.len() {
            assert(self@.stripes.len() == self.stripes@.len());
            assert(other@.stripes.len() == other.stripes@.len());
            return false;
        }
        let mut i: usize = 0;
        while i < self.stripes.len()
            invariant
                i <= self.stripes@.len(),
                self.stripes@.len() == other.stripes@.len(),
                forall|k: int|
                    0 <= k < i ==> (#[trigger] self.stripes@[k])@ == other.stripes@[k]@,
            decreases self.stripes@.len() - i,
        {
            let a = &self.stripes[i];
            let b = &other.stripes[i];
            if a.devid != b.devid || a.offset != b.offset || !same_bytes(
                a.dev_uuid.as_slice(),
                b.dev_uuid.as_slice(),
            ) {
                proof {
                    assert(self@.stripes[i as int] == a@);
                    assert(other@.stripes[i as int] == b@);
                }
                return false;
            }
            i = i + 1;
        }
        assert(self@.stripes =~= other@.stripes);
        true
    }
}

/// Stripe counts are fixed by the profile for everything except RAID0, RAID10
/// and the parity profiles.
fn check_stripe_count(profile: ChunkProfile, n: u16, sub: u16) -> (r: Result<()>)
    ensures
        match r {
            Ok(()) => stripe_count_error(profile, n, sub) is None,
            Err(e) => stripe_count_error(profile, n, sub) == Some(e@),
        },
{
    let want: Option<u16> = match profile {
        ChunkProfile::Single => Some(1),
        ChunkProfile::Dup => Some(2),
        ChunkProfile::Raid1 => Some(2),
        ChunkProfile::Raid1c3 => Some(3),
        ChunkProfile::Raid1c4 => Some(4),
        _ => None,
    };
    if let Some(want) = want {
        if n != want {
            return Err(
                Error::BadChunkItem(
                    text::cat5(
                        Lit(profile.name()),
                        Lit(" chunk has "),
                        Dec(n as u64),
                        Lit(" stripes, expected "),
                        Dec(want as u64),
                    ),
                ),
            );
        }
    }
    match profile {
        ChunkProfile::Raid0 => {
            if n < 2 {
                return Err(
                    Error::BadChunkItem(
                        cat3(
                            Lit("raid0 chunk has "),
                            Dec(n as u64),
                            Lit(" stripes, expected at least 2"),
                        ),
                    ),
                );
            }
        },
        ChunkProfile::Raid10 => {
            if sub != 2 {
                return Err(
                    Error::BadChunkItem(
                        cat3(
                            Lit("raid10 chunk has sub_stripes "),
                            Dec(sub as u64),
                            Lit(", expected 2"),
                        ),
                    ),
                );
            }
            if n < 2 || n % sub != 0 {
                return Err(
                    Error::BadChunkItem(
                        cat4(
                            Lit("raid10 chunk has "),
                            Dec(n as u64),
                            Lit(" stripes, which is not a positive multiple of sub_stripes "),
                            Dec(sub as u64),
                        ),
                    ),
                );
            }
        },
        ChunkProfile::Raid5 => {
            if n < 2 {
                return Err(
                    Error::BadChunkItem(
                        cat3(
                            Lit("raid5 chunk has "),
                            Dec(n as u64),
                            Lit(" stripes, expected at least 2"),
                        ),
                    ),
                );
            }
        },
        ChunkProfile::Raid6 => {
            if n < 3 {
                return Err(
                    Error::BadChunkItem(
                        cat3(
                            Lit("raid6 chunk has "),
                            Dec(n as u64),
                            Lit(" stripes, expected at least 3"),
                        ),
                    ),
                );
            }
        },
        _ => {},
    }
    Ok(())
}

/// The logical-to-physical address map: an ordered, non-overlapping set of
/// chunks.
///
/// Bootstrapped from the superblock's `sys_chunk_array` and then extended
/// with the chunk items found in the chunk tree.
#[derive(Debug, Clone, PartialEq, Eq)]
pub struct ChunkMap {
    chunks: Vec<Chunk>,
}

impl View for ChunkMap {
    type V = Seq<ChunkModel>;

    closed spec fn view(&self) -> Seq<ChunkModel> {
        self.chunks@.map_values(|c: Chunk| c@)
    }
}

/// Whether chunks stand in address order and none reaches into the next.
pub open spec fn ordered(s: Seq<ChunkModel>) -> bool {
    forall|i: int, j: int| 0 <= i < j < s.len() ==> (#[trigger] s[i]).end() <= (#[trigger] s[j]).logical
}

/// Whether no chunk of `s` would make the stripe arithmetic divide by zero.
pub open spec fn divisible(s: Seq<ChunkModel>) -> bool {
    forall|i: int| 0 <= i < s.len() ==> (#[trigger] s[i]).divisible()
}

/// Where a chunk starting at `logical` belongs: behind the last one that
/// starts before it.
pub open spec fn place_for(s: Seq<ChunkModel>, logical: u64) -> int
    decreases s.len(),
{
    if s.len() == 0 || s.last().logical < logical {
        s.len() as int
    } else {
        place_for(s.drop_last(), logical)
    }
}

/// The chunk of `s` that covers `logical`: the last one that starts at or
/// before it, if that reaches far enough.
pub open spec fn chunk_at(s: Seq<ChunkModel>, logical: u64) -> Option<ChunkModel>
    decreases s.len(),
{
    if s.len() == 0 {
        None
    } else if s.last().logical <= logical {
        if logical < s.last().end() {
            Some(s.last())
        } else {
            None
        }
    } else {
        chunk_at(s.drop_last(), logical)
    }
}

/// What translating `logical` through `s` with copy `mirror` gives.
pub open spec fn mapped_by(s: Seq<ChunkModel>, logical: u64, mirror: nat) -> std::result::Result<
    Mapping,
    ErrorView,
> {
    match chunk_at(s, logical) {
        Some(chunk) => chunk.mapped(logical, mirror),
        None => Err(ErrorView::UnmappedLogical(logical)),
    }
}

/// What adding `chunk` to `s` gives.
pub open spec fn inserted(s: Seq<ChunkModel>, chunk: ChunkModel) -> std::result::Result<
    Seq<ChunkModel>,
    ErrorView,
> {
    let at: int = place_for(s, chunk.logical);
    if at > 0 && s[at - 1].end() > chunk.logical {
        Err(overlap(chunk, s[at - 1]))
    } else if at < s.len() && chunk.end() > s[at].logical {
        Err(overlap(chunk, s[at]))
    } else {
        Ok(s.insert(at, chunk))
    }
}

pub open spec fn overlap(chunk: ChunkModel, other: ChunkModel) -> ErrorView {
    ErrorView::BadChunkItem(
        "chunk at "@ + text::hex(chunk.logical as nat) + " overlaps the chunk at "@ + text::hex(
            other.logical as nat,
        ),
    )
}

/// What reading the system chunk array from position `pos` on adds to `s`.
pub open spec fn sys_chunks(
    array: Seq<u8>,
    sectorsize: u32,
    pos: int,
    s: Seq<ChunkModel>,
) -> std::result::Result<Seq<ChunkModel>, ErrorView>
    decreases array.len() - pos,
{
    if pos < 0 || pos >= array.len() {
        Ok(s)
    } else if array.len() - pos < DISK_KEY_SIZE {
        Err(
            ErrorView::BadChunkItem(
                "sys_chunk_array truncated: "@ + text::dec((array.len() - pos) as nat)
                    + " bytes left, need 17 for a key"@,
            ),
        )
    } else {
        let key = key_at(array, pos);
        if key.key_type != key_type::CHUNK_ITEM {
            Err(
                ErrorView::BadChunkItem(
                    "sys_chunk_array entry at byte "@ + text::dec(pos as nat) + " has key type "@
                        + text::dec(key.key_type as nat) + ", expected 228"@,
                ),
            )
        } else if key.objectid != objectid::FIRST_CHUNK_TREE {
            Err(
                ErrorView::BadChunkItem(
                    "sys_chunk_array entry at byte "@ + text::dec(pos as nat) + " has objectid "@
                        + text::dec(key.objectid as nat) + ", expected 256"@,
                ),
            )
        } else {
            match chunk_outcome(key.offset, array.skip(pos + DISK_KEY_SIZE)) {
                Err(e) => Err(e),
                Ok(chunk) => match geometry_error(chunk, sectorsize) {
                    Some(e) => Err(e),
                    None => match inserted(s, chunk) {
                        Err(e) => Err(e),
                        Ok(t) => sys_chunks(
                            array,
                            sectorsize,
                            pos + DISK_KEY_SIZE + CHUNK_HEADER_SIZE + chunk.num_stripes * STRIPE_SIZE,
                            t,
                        ),
                    },
                },
            }
        }
    }
}

pub(crate) proof fn lemma_place_for(s: Seq<ChunkModel>, logical: u64)
    ensures
        0 <= place_for(s, logical) <= s.len(),
        place_for(s, logical) > 0 ==> s[place_for(s, logical) - 1].logical < logical,
        forall|i: int| place_for(s, logical) <= i < s.len() ==> (#[trigger] s[i]).logical >= logical,
    decreases s.len(),
{
    if s.len() > 0 && s.last().logical >= logical {
        lemma_place_for(s.drop_last(), logical);
        assert forall|i: int| place_for(s, logical) <= i < s.len() implies (
        #[trigger] s[i]).logical >= logical by {
            if i < s.len() - 1 {
                assert(s[i] == s.drop_last()[i]);
            }
        }
    }
}

/// Adding a chunk keeps a map ordered and free of overlaps.
pub proof fn law_insert_keeps_order(s: Seq<ChunkModel>, chunk: ChunkModel)
    requires
        ordered(s),
    ensures
        inserted(s, chunk) matches Ok(t) ==> ordered(t),
{
    let at = place_for(s, chunk.logical);
    lemma_place_for(s, chunk.logical);
    if let Ok(t) = inserted(s, chunk) {
        assert forall|i: int, j: int| 0 <= i < j < t.len() implies (#[trigger] t[i]).end() <= (
        #[trigger] t[j]).logical by {
            if i < at && j == at {
                if i < at - 1 {
                    assert(s[i].end() <= s[at - 1].logical);
                }
            } else if i == at {
                if j > at + 1 {
                    assert(s[at].end() <= s[j - 1].logical);
                }
            } else if i < at && j > at {
                assert(s[i].end() <= s[j - 1].logical);
            }
        }
    }
}

/// A lookup finds a chunk exactly when one of the map covers the address, and
/// in an ordered map no other does.
pub proof fn law_lookup_finds_the_covering_chunk(s: Seq<ChunkModel>, logical: u64)
    requires
        ordered(s),
    ensures
        match chunk_at(s, logical) {
            Some(chunk) => chunk.covers(logical) && s.contains(chunk) && forall|i: int|
                0 <= i < s.len() && (#[trigger] s[i]).covers(logical) ==> s[i] == chunk,
            None => forall|i: int| 0 <= i < s.len() ==> !(#[trigger] s[i]).covers(logical),
        },
    decreases s.len(),
{
    if s.len() > 0 {
        let last = s.last();
        if last.logical <= logical {
            assert forall|i: int| 0 <= i < s.len() - 1 implies !(#[trigger] s[i]).covers(
                logical,
            ) by {
                assert(s[i].end() <= s[s.len() - 1].logical);
            }
            assert(s[s.len() - 1] == last);
        } else {
            let t = s.drop_last();
            assert(ordered(t)) by {
                assert forall|i: int, j: int| 0 <= i < j < t.len() implies (#[trigger] t[i]).end()
                    <= (#[trigger] t[j]).logical by {
                    assert(t[i] == s[i] && t[j] == s[j]);
                }
            }
            law_lookup_finds_the_covering_chunk(t, logical);
            assert forall|i: int| 0 <= i < s.len() - 1 implies #[trigger] s[i] == t[i] by {}
            if let Some(chunk) = chunk_at(s, logical) {
                let k = choose|k: int| 0 <= k < t.len() && t[k] == chunk;
                assert(s[k] == chunk);
            }
        }
    }
}

impl Chunk {
    /// A chunk that holds the same.
    pub fn duplicate(&self) -> (copy: Chunk)
        ensures
            copy@ == self@,
    {
        let mut stripes: Vec<Stripe> = Vec::new();
        let mut i: usize = 0;
        while i < self.stripes.len()
            invariant
                i <= self.stripes@.len(),
                stripes@ == self.stripes@.take(i as int),
            decreases self.stripes@.len() - i,
        {
            stripes.push(self.stripes[i]);
            i = i + 1;
            assert(stripes@ =~= self.stripes@.take(i as int));
        }
        assert(stripes@ =~= self.stripes@);
        Chunk {
            logical: self.logical,
            length: self.length,
            owner: self.owner,
            stripe_len: self.stripe_len,
            chunk_type: self.chunk_type,
            io_align: self.io_align,
            io_width: self.io_width,
            sector_size: self.sector_size,
            num_stripes: self.num_stripes,
            sub_stripes: self.sub_stripes,
            stripes,
        }
    }
}

impl ChunkMap {
    /// An empty map.
    pub fn new() -> (map: Self)
        ensures
            map@ == Seq::<ChunkModel>::empty(),
    {
        let map = ChunkMap { chunks: Vec::new() };
        assert(map@ =~= Seq::<ChunkModel>::empty());
        map
    }

    /// A map that holds the same.
    pub fn duplicate(&self) -> (copy: Self)
        ensures
            copy@ == self@,
    {
        let mut chunks: Vec<Chunk> = Vec::new();
        let mut i: usize = 0;
        while i < self.chunks.len()
            invariant
                i <= self.chunks@.len(),
                chunks@.len() == i,
                forall|k: int| 0 <= k < i ==> (#[trigger] chunks@[k])@ == self.chunks@[k]@,
            decreases self.chunks@.len() - i,
        {
            chunks.push(self.chunks[i].duplicate());
            i = i + 1;
        }
        let copy = ChunkMap { chunks };
        assert(copy@ =~= self@);
        copy
    }

    /// Build the bootstrap map from a superblock's system chunk array, which
    /// covers enough of the logical space to reach the chunk tree root.
    pub fn from_sys_chunk_array(array: &[u8], sectorsize: u32) -> (r: Result<Self>)
        ensures
            crate::error::viewed(r) == sys_chunks(array@, sectorsize, 0, Seq::empty()),
            r matches Ok(map) ==> ordered(map@) && divisible(map@),
    {
        let mut map = ChunkMap::new();
        let mut pos: usize = 0;
        while pos < array.len()
            invariant
                pos <= array@.len(),
                ordered(map@),
                divisible(map@),
                sys_chunks(array@, sectorsize, 0, Seq::empty()) == sys_chunks(
                    array@,
                    sectorsize,
                    pos as int,
                    map@,
                ),
            decreases array@.len() - pos,
        {
            let left: usize = array.len() - pos;
            if left < DISK_KEY_SIZE {
                return Err(
                    Error::BadChunkItem(
                        cat3(
                            Lit("sys_chunk_array truncated: "),
                            Dec(left as u64),
                            Lit(" bytes left, need 17 for a key"),
                        ),
                    ),
                );
            }
            let key = DiskKey::read(array, pos);
            if key.key_type != key_type::CHUNK_ITEM {
                return Err(
                    Error::BadChunkItem(
                        cat5(
                            Lit("sys_chunk_array entry at byte "),
                            Dec(pos as u64),
                            Lit(" has key type "),
                            Dec(key.key_type as u64),
                            Lit(", expected 228"),
                        ),
                    ),
                );
            }
            if key.objectid != objectid::FIRST_CHUNK_TREE {
                return Err(
                    Error::BadChunkItem(
                        cat5(
                            Lit("sys_chunk_array entry at byte "),
                            Dec(pos as u64),
                            Lit(" has objectid "),
                            Dec(key.objectid),
                            Lit(", expected 256"),
                        ),
                    ),
                );
            }
            let body = slice_subrange(array, pos + DISK_KEY_SIZE, array.len());
            assert(body@ =~= array@.skip(pos + DISK_KEY_SIZE));
            let chunk = match Chunk::parse(key.offset, body) {
                Ok(chunk) => chunk,
                Err(e) => return Err(e),
            };
            if let Err(e) = chunk.validate_geometry(sectorsize) {
                return Err(e);
            }
            let next: usize = pos + DISK_KEY_SIZE + chunk.encoded_len();
            if let Err(e) = map.insert(chunk) {
                return Err(e);
            }
            pos = next;
        }
        Ok(map)
    }

    /// Build the bootstrap map straight from a parsed superblock.
    pub fn bootstrap(sb: &Superblock) -> (r: Result<Self>)
        ensures
            crate::error::viewed(r) == sys_chunks(
                sb.sys_chunk_array@,
                sb.sectorsize,
                0,
                Seq::empty(),
            ),
            r matches Ok(map) ==> ordered(map@) && divisible(map@),
    {
        Self::from_sys_chunk_array(sb.sys_chunk_array.as_slice(), sb.sectorsize)
    }

    /// Add a chunk, keeping the map ordered by logical address. A chunk whose
    /// logical range overlaps one already present is refused and the map is
    /// left as it was.
    pub fn insert(&mut self, chunk: Chunk) -> (r: Result<()>)
        ensures
            match r {
                Ok(()) => inserted(old(self)@, chunk@) == Ok::<Seq<ChunkModel>, ErrorView>(
                    final(self)@,
                ),
                Err(e) => inserted(old(self)@, chunk@) == Err::<Seq<ChunkModel>, ErrorView>(e@)
                    && final(self)@ == old(self)@,
            },
            ordered(old(self)@) ==> ordered(final(self)@),
            divisible(old(self)@) && chunk@.divisible() ==> divisible(final(self)@),
    {
        let mut at: usize = self.chunks.len();
        assert(self@.take(at as int) =~= self@);
        while at > 0 && self.chunks[at - 1].logical >= chunk.logical
            invariant
                at <= self.chunks@.len(),
                self.chunks@ == old(self).chunks@,
                place_for(self@, chunk.logical) == place_for(self@.take(at as int), chunk.logical),
            decreases at,
        {
            assert(self@.take(at as int).last() == self.chunks@[at - 1]@);
            at = at - 1;
            assert(self@.take(at + 1).drop_last() =~= self@.take(at as int));
        }
        proof {
            if at > 0 {
                assert(self@.take(at as int).last() == self.chunks@[at - 1]@);
            }
            assert(place_for(self@, chunk.logical) == at);
            if ordered(old(self)@) {
                law_insert_keeps_order(old(self)@, chunk@);
            }
        }
        if at > 0 {
            let prev = &self.chunks[at - 1];
            assert(self@[at - 1] == prev@);
            if prev.logical_end() > chunk.logical {
                return Err(
                    Error::BadChunkItem(
                        cat4(
                            Lit("chunk at "),
                            Hex(chunk.logical),
                            Lit(" overlaps the chunk at "),
                            Hex(prev.logical),
                        ),
                    ),
                );
            }
        }
        if at < self.chunks.len() {
            let next = &self.chunks[at];
            assert(self@[at as int] == next@);
            if chunk.logical_end() > next.logical {
                return Err(
                    Error::BadChunkItem(
                        cat4(
                            Lit("chunk at "),
                            Hex(chunk.logical),
                            Lit(" overlaps the chunk at "),
                            Hex(next.logical),
                        ),
                    ),
                );
            }
        }
        self.chunks.insert(at, chunk);
        assert(self@ =~= old(self)@.insert(at as int, chunk@));
        Ok(())
    }

    /// Every chunk, ordered by logical address.
    pub fn chunks(&self) -> (out: &[Chunk])
        ensures
            out@.map_values(|c: Chunk| c@) == self@,
    {
        self.chunks.as_slice()
    }

    /// How many chunks the map holds.
    pub fn len(&self) -> (n: usize)
        ensures
            n == self@.len(),
    {
        self.chunks.len()
    }

    /// Whether the map is empty. An empty map cannot translate anything.
    pub fn is_empty(&self) -> (yes: bool)
        ensures
            yes == (self@.len() == 0),
    {
        self.chunks.len() == 0
    }

    /// The chunk covering `logical`, if any.
    pub fn chunk_for(&self, logical: u64) -> (r: Option<&Chunk>)
        ensures
            match r {
                Some(chunk) => chunk_at(self@, logical) == Some(chunk@),
                None => chunk_at(self@, logical) is None,
            },
    {
        let mut at: usize = self.chunks.len();
        assert(self@.take(at as int) =~= self@);
        while at > 0
            invariant
                at <= self.chunks@.len(),
                chunk_at(self@, logical) == chunk_at(self@.take(at as int), logical),
            decreases at,
        {
            let candidate = &self.chunks[at - 1];
            assert(self@.take(at as int).last() == candidate@);
            if candidate.logical <= logical {
                if logical < candidate.logical_end() {
                    return Some(candidate);
                }
                return None;
            }
            at = at - 1;
            assert(self@.take(at + 1).drop_last() =~= self@.take(at as int));
        }
        None
    }

    /// Whether any chunk covers `logical`.
    pub fn covers(&self, logical: u64) -> (yes: bool)
        ensures
            yes == chunk_at(self@, logical) is Some,
    {
        self.chunk_for(logical).is_some()
    }

    /// Translate `logical` using the first copy.
    pub fn map(&self, logical: u64) -> (r: Result<Mapping>)
        requires
            divisible(self@),
        ensures
            crate::error::seen(r) == mapped_by(self@, logical, 0),
    {
        self.map_mirror(logical, 0)
    }

    /// Translate `logical` using copy `mirror`.
    pub fn map_mirror(&self, logical: u64, mirror: usize) -> (r: Result<Mapping>)
        requires
            divisible(self@),
        ensures
            crate::error::seen(r) == mapped_by(self@, logical, mirror as nat),
    {
        proof {
            lemma_found_is_member(self@, logical);
        }
        match self.chunk_for(logical) {
            Some(chunk) => chunk.map_mirror(logical, mirror),
            None => Err(Error::UnmappedLogical(logical)),
        }
    }

    /// How many copies the chunk covering `logical` keeps of it.
    pub fn mirrors_at(&self, logical: u64) -> (r: Result<usize>)
        ensures
            match r {
                Ok(n) => chunk_at(self@, logical) matches Some(chunk) && n == chunk.mirrors(),
                Err(e) => chunk_at(self@, logical) is None && e@ == ErrorView::UnmappedLogical(
                    logical,
                ),
            },
    {
        match self.chunk_for(logical) {
            Some(chunk) => Ok(chunk.num_mirrors()),
            None => Err(Error::UnmappedLogical(logical)),
        }
    }
}

/// A mapping through a map covers at least one byte and ends inside the
/// address space.
pub(crate) proof fn lemma_mapping_fits(s: Seq<ChunkModel>, logical: u64, mirror: nat)
    requires
        divisible(s),
    ensures
        mapped_by(s, logical, mirror) matches Ok(m) ==> 0 < m.len && logical + m.len <= u64::MAX,
{
    lemma_found_is_member(s, logical);
    if let Some(chunk) = chunk_at(s, logical) {
        let k = choose|k: int| 0 <= k < s.len() && s[k] == chunk;
        assert(s[k].divisible());
        laws::law_mapping_stays_in_its_chunk(chunk, logical, mirror);
    }
}

/// A chunk that is found belongs to the map and covers the address.
pub(crate) proof fn lemma_found_is_member(s: Seq<ChunkModel>, logical: u64)
    ensures
        chunk_at(s, logical) matches Some(chunk) ==> s.contains(chunk) && chunk.covers(logical),
    decreases s.len(),
{
    if s.len() > 0 {
        if s.last().logical <= logical {
            assert(s[s.len() - 1] == s.last());
        } else {
            lemma_found_is_member(s.drop_last(), logical);
            if let Some(chunk) = chunk_at(s, logical) {
                let k = choose|k: int| 0 <= k < s.drop_last().len() && s.drop_last()[k] == chunk;
                assert(s[k] == chunk);
            }
        }
    }
}

} // verus!
