//! B-tree nodes, leaves and traversal.
//!
//! Btrfs stores every tree in the same shape: a copy-on-write B-tree of
//! fixed-size blocks, `nodesize` bytes each, every block opening with the
//! same [`Header`]. A block with `level == 0` is a leaf and holds [`Item`]s; a
//! block above level 0 is an internal node and holds [`KeyPtr`]s naming child
//! blocks.
//!
//! ```text
//!  0x00  +--------------------------------+
//!        | header (HEADER_SIZE bytes)     |
//!  0x65  +--------------------------------+  <- LEAF_DATA_OFFSET
//!        | item array / key_ptr array     |  grows forwards
//!        |            ...                 |
//!        | item data, last item first     |  grows backwards
//! nodesize +------------------------------+
//! ```
//!
//! **The `offset` field of an [`Item`] is measured from the end of the
//! header, not from the start of the block.**
//!
//! A block is only parsed after it has proved three things about itself: its
//! checksum matches, its `bytenr` is the address the caller asked for, and its
//! `fsid` is this volume's.

use std::cmp::Ordering;

use vstd::prelude::*;
use vstd::slice::slice_subrange;

use crate::bytes;
use crate::bytes::{copy_range, field32_at, le32, le64, same_bytes, uuid_at};
use crate::chunk;
use crate::chunk::{DiskKey, DISK_KEY_SIZE};
use crate::error::{Error, ErrorView, Result};
use crate::superblock::{ChecksumType, Superblock, SuperblockModel, CSUM_SIZE, MAX_LEVEL, UUID_SIZE};
use crate::text;
use crate::text::Part::{Dec, Hex, Lit};
use crate::text::{cat2, cat3, cat4, cat5, cat6, cat7, hex_bytes_text};

pub mod header_flags;
pub mod header_offsets;
pub mod laws;
pub mod layout_laws;

verus! {

/// Size of an on-disk `struct btrfs_header`.
pub const HEADER_SIZE: usize = 101;

/// Where a leaf's data area begins, and the origin every [`Item::offset`] is
/// measured from.
pub const LEAF_DATA_OFFSET: usize = HEADER_SIZE;

/// Size of an on-disk `struct btrfs_key_ptr`: a 17-byte key, then `blockptr`
/// and `generation`.
pub const KEY_PTR_SIZE: usize = 33;

/// Size of an on-disk `struct btrfs_item`: a 17-byte key, then a 32-bit
/// `offset` and a 32-bit `size`.
pub const ITEM_SIZE: usize = 25;

/// Whether `a` sorts before `b`: by `objectid`, then `key_type`, then
/// `offset`, each unsigned.
pub open spec fn key_less(a: DiskKey, b: DiskKey) -> bool {
    a.objectid < b.objectid || (a.objectid == b.objectid && (a.key_type < b.key_type || (a.key_type
        == b.key_type && a.offset < b.offset)))
}

/// Compare two keys the way Btrfs orders them: `objectid`, then `key_type`,
/// then `offset`, each unsigned.
pub fn compare_keys(a: &DiskKey, b: &DiskKey) -> (order: Ordering)
    ensures
        order == (if key_less(*a, *b) {
            Ordering::Less
        } else if a == b {
            Ordering::Equal
        } else {
            Ordering::Greater
        }),
        order == Ordering::Greater <==> key_less(*b, *a),
{
    if key_before(a, b) {
        Ordering::Less
    } else if key_before(b, a) {
        Ordering::Greater
    } else {
        Ordering::Equal
    }
}

/// Whether `a` sorts before `b`.
pub fn key_before(a: &DiskKey, b: &DiskKey) -> (yes: bool)
    ensures
        yes == key_less(*a, *b),
{
    a.objectid < b.objectid || (a.objectid == b.objectid && (a.key_type < b.key_type || (a.key_type
        == b.key_type && a.offset < b.offset)))
}

/// The order of keys is a strict total order.
pub proof fn law_keys_are_totally_ordered(a: DiskKey, b: DiskKey, c: DiskKey)
    ensures
        !key_less(a, a),
        key_less(a, b) ==> !key_less(b, a),
        key_less(a, b) && key_less(b, c) ==> key_less(a, c),
        key_less(a, b) || a == b || key_less(b, a),
{
}

/// The complaint about a structurally malformed tree block, prefixed with the
/// block's logical address.
pub open spec fn bad_block(logical: u64, message: Seq<char>) -> ErrorView {
    ErrorView::BadSuperblock("tree block at "@ + text::hex(logical as nat) + ": "@ + message)
}

/// Report a tree block as structurally malformed.
pub(crate) fn block_complaint(logical: u64, message: String) -> (e: Error)
    ensures
        e@ == bad_block(logical, message@),
{
    Error::BadSuperblock(
        cat4(Lit("tree block at "), Hex(logical), Lit(": "), Lit(message.as_str())),
    )
}

/// The `struct btrfs_header` that opens every tree block.
#[derive(Debug, Clone, PartialEq, Eq)]
pub struct Header {
    /// The raw 32-byte checksum field, as stored.
    pub csum: [u8; CSUM_SIZE],
    /// The filesystem this block belongs to: `metadata_uuid` when that
    /// feature is set.
    pub fsid: [u8; UUID_SIZE],
    /// The logical address this block belongs at.
    pub bytenr: u64,
    /// Header flags, see [`header_flags`].
    pub flags: u64,
    /// UUID of the chunk tree in force when this block was allocated.
    pub chunk_tree_uuid: [u8; UUID_SIZE],
    /// Transaction id that wrote this block.
    pub generation: u64,
    /// Objectid of the owning tree, see [`crate::chunk::objectid`].
    pub owner: u64,
    /// Number of key pointers (node) or items (leaf) in this block.
    pub nritems: u32,
    /// Height above the leaves. 0 means leaf.
    pub level: u8,
}

/// What a [`Header`] holds.
#[verifier::ext_equal]
pub struct HeaderModel {
    pub csum: Seq<u8>,
    pub fsid: Seq<u8>,
    pub bytenr: u64,
    pub flags: u64,
    pub chunk_tree_uuid: Seq<u8>,
    pub generation: u64,
    pub owner: u64,
    pub nritems: u32,
    pub level: u8,
}

impl View for Header {
    type V = HeaderModel;

    open spec fn view(&self) -> HeaderModel {
        HeaderModel {
            csum: self.csum@,
            fsid: self.fsid@,
            bytenr: self.bytenr,
            flags: self.flags,
            chunk_tree_uuid: self.chunk_tree_uuid@,
            generation: self.generation,
            owner: self.owner,
            nritems: self.nritems,
            level: self.level,
        }
    }
}

/// The header at the front of `b`.
pub open spec fn header_of(b: Seq<u8>) -> HeaderModel {
    HeaderModel {
        csum: b.subrange(header_offsets::CSUM as int, header_offsets::CSUM + 32),
        fsid: b.subrange(header_offsets::FSID as int, header_offsets::FSID + 16),
        bytenr: bytes::u64_at(b, header_offsets::BYTENR as int),
        flags: bytes::u64_at(b, header_offsets::FLAGS as int),
        chunk_tree_uuid: b.subrange(
            header_offsets::CHUNK_TREE_UUID as int,
            header_offsets::CHUNK_TREE_UUID + 16,
        ),
        generation: bytes::u64_at(b, header_offsets::GENERATION as int),
        owner: bytes::u64_at(b, header_offsets::OWNER as int),
        nritems: bytes::u32_at(b, header_offsets::NRITEMS as int),
        level: b[header_offsets::LEVEL as int],
    }
}

impl Header {
    /// Decode a header from the first [`HEADER_SIZE`] bytes of `buf`. This
    /// only decodes; nothing is checked.
    pub fn parse(buf: &[u8]) -> (r: Result<Self>)
        ensures
            crate::error::viewed(r) == (if buf@.len() < HEADER_SIZE {
                Err(
                    ErrorView::BadSuperblock(
                        "tree block header needs 101 bytes, got "@ + text::dec(buf@.len()),
                    ),
                )
            } else {
                Ok(header_of(buf@))
            }),
    {
        if buf.len() < HEADER_SIZE {
            return Err(
                Error::BadSuperblock(
                    cat2(Lit("tree block header needs 101 bytes, got "), Dec(buf.len() as u64)),
                ),
            );
        }
        let header = Header {
            csum: field32_at(buf, header_offsets::CSUM),
            fsid: uuid_at(buf, header_offsets::FSID),
            bytenr: le64(buf, header_offsets::BYTENR),
            flags: le64(buf, header_offsets::FLAGS),
            chunk_tree_uuid: uuid_at(buf, header_offsets::CHUNK_TREE_UUID),
            generation: le64(buf, header_offsets::GENERATION),
            owner: le64(buf, header_offsets::OWNER),
            nritems: le32(buf, header_offsets::NRITEMS),
            level: buf[header_offsets::LEVEL],
        };
        assert(header@ =~= header_of(buf@));
        Ok(header)
    }

    /// Whether this block is a leaf and therefore holds items rather than
    /// child pointers.
    pub fn is_leaf(&self) -> (yes: bool)
        ensures
            yes == (self.level == 0),
    {
        self.level == 0
    }

    /// The back-reference revision packed into the top byte of `flags`.
    pub fn backref_rev(&self) -> (rev: u8)
        ensures
            rev == self.flags / 0x100_0000_0000_0000,
    {
        let flags: u64 = self.flags;
        let rev: u64 = (flags & header_flags::BACKREF_REV_MASK) >> header_flags::BACKREF_REV_SHIFT;
        assert((flags & 0xff00_0000_0000_0000) >> 56 == flags / 0x100_0000_0000_0000)
            by (bit_vector);
        rev as u8
    }

    /// Whether the block has been written out at least once.
    pub fn is_written(&self) -> (yes: bool)
        ensures
            yes == (self.flags & header_flags::WRITTEN != 0),
    {
        self.flags & header_flags::WRITTEN != 0
    }

    /// Whether the block belongs to a relocation tree.
    pub fn is_reloc(&self) -> (yes: bool)
        ensures
            yes == (self.flags & header_flags::RELOC != 0),
    {
        self.flags & header_flags::RELOC != 0
    }
}

/// One `struct btrfs_key_ptr`: an internal node's pointer to a child block.
/// `key` is the *smallest* key anywhere in the subtree the child roots.
#[derive(Debug, Clone, Copy, PartialEq, Eq, Structural)]
pub struct KeyPtr {
    /// Smallest key in the child subtree.
    pub key: DiskKey,
    /// Logical address of the child block.
    pub blockptr: u64,
    /// Transaction id the child was written in.
    pub generation: u64,
}

/// The key pointer at position `at`.
pub open spec fn key_ptr_at(b: Seq<u8>, at: int) -> KeyPtr {
    KeyPtr {
        key: chunk::key_at(b, at),
        blockptr: bytes::u64_at(b, at + 17),
        generation: bytes::u64_at(b, at + 25),
    }
}

impl KeyPtr {
    /// Parse a key pointer from the first [`KEY_PTR_SIZE`] bytes of `buf`.
    pub fn parse(buf: &[u8]) -> (r: Result<Self>)
        ensures
            crate::error::seen(r) == (if buf@.len() < KEY_PTR_SIZE {
                Err(
                    ErrorView::BadSuperblock(
                        "key pointer needs 33 bytes, got "@ + text::dec(buf@.len()),
                    ),
                )
            } else {
                Ok(key_ptr_at(buf@, 0))
            }),
    {
        if buf.len() < KEY_PTR_SIZE {
            return Err(
                Error::BadSuperblock(
                    cat2(Lit("key pointer needs 33 bytes, got "), Dec(buf.len() as u64)),
                ),
            );
        }
        Ok(KeyPtr::read(buf, 0))
    }

    /// Read the key pointer at position `at`.
    fn read(buf: &[u8], at: usize) -> (ptr: Self)
        requires
            at + KEY_PTR_SIZE <= buf@.len(),
        ensures
            ptr == key_ptr_at(buf@, at as int),
    {
        assert(at + KEY_PTR_SIZE <= buf.len());
        KeyPtr {
            key: DiskKey::read(buf, at),
            blockptr: le64(buf, at + DISK_KEY_SIZE),
            generation: le64(buf, at + DISK_KEY_SIZE + 8),
        }
    }
}

/// One `struct btrfs_item`: a leaf's index entry for a piece of item data
/// stored elsewhere in the same block.
#[derive(Debug, Clone, Copy, PartialEq, Eq, Structural)]
pub struct Item {
    /// The key this item is filed under.
    pub key: DiskKey,
    /// Where the item's data starts, **measured from the end of the header**
    /// ([`LEAF_DATA_OFFSET`]).
    pub offset: u32,
    /// How many bytes of data the item has.
    pub size: u32,
}

/// The item at position `at`.
pub open spec fn item_at(b: Seq<u8>, at: int) -> Item {
    Item {
        key: chunk::key_at(b, at),
        offset: bytes::u32_at(b, at + 17),
        size: bytes::u32_at(b, at + 21),
    }
}

impl Item {
    /// Parse an item from the first [`ITEM_SIZE`] bytes of `buf`.
    pub fn parse(buf: &[u8]) -> (r: Result<Self>)
        ensures
            crate::error::seen(r) == (if buf@.len() < ITEM_SIZE {
                Err(
                    ErrorView::BadSuperblock(
                        "leaf item needs 25 bytes, got "@ + text::dec(buf@.len()),
                    ),
                )
            } else {
                Ok(item_at(buf@, 0))
            }),
    {
        if buf.len() < ITEM_SIZE {
            return Err(
                Error::BadSuperblock(
                    cat2(Lit("leaf item needs 25 bytes, got "), Dec(buf.len() as u64)),
                ),
            );
        }
        Ok(Item::read(buf, 0))
    }

    /// Read the item at position `at`.
    fn read(buf: &[u8], at: usize) -> (item: Self)
        requires
            at + ITEM_SIZE <= buf@.len(),
        ensures
            item == item_at(buf@, at as int),
    {
        assert(at + ITEM_SIZE <= buf.len());
        Item {
            key: DiskKey::read(buf, at),
            offset: le32(buf, at + DISK_KEY_SIZE),
            size: le32(buf, at + DISK_KEY_SIZE + 4),
        }
    }

    /// One past the last byte of this item's data, in the same coordinate
    /// system as [`Item::offset`].
    pub fn data_end(&self) -> (end: usize)
        requires
            self.offset + self.size <= usize::MAX,
        ensures
            end == self.offset + self.size,
    {
        self.offset as usize + self.size as usize
    }
}

/// A tree block's contents, which depend entirely on its level.
#[derive(Debug, Clone, PartialEq, Eq)]
pub enum Body {
    /// `level > 0`: pointers to child blocks, in ascending key order.
    Node(Vec<KeyPtr>),
    /// `level == 0`: the items themselves, in ascending key order.
    Leaf(Vec<Item>),
}

impl Body {
    /// The child pointers, or `None` if this is a leaf.
    pub fn key_ptrs(&self) -> (r: Option<&[KeyPtr]>)
        ensures
            match self {
                Body::Node(p) => r matches Some(s) && s@ == p@,
                Body::Leaf(_) => r is None,
            },
    {
        match self {
            Body::Node(p) => Some(p.as_slice()),
            Body::Leaf(_) => None,
        }
    }

    /// The items, or `None` if this is an internal node.
    pub fn items(&self) -> (r: Option<&[Item]>)
        ensures
            match self {
                Body::Leaf(i) => r matches Some(s) && s@ == i@,
                Body::Node(_) => r is None,
            },
    {
        match self {
            Body::Leaf(i) => Some(i.as_slice()),
            Body::Node(_) => None,
        }
    }

    /// How many entries the body holds, whichever kind they are.
    pub fn len(&self) -> (n: usize)
        ensures
            match self {
                Body::Node(p) => n == p@.len(),
                Body::Leaf(i) => n == i@.len(),
            },
    {
        match self {
            Body::Node(p) => p.len(),
            Body::Leaf(i) => i.len(),
        }
    }

    /// Whether the body holds no entries at all.
    pub fn is_empty(&self) -> (yes: bool)
        ensures
            match self {
                Body::Node(p) => yes == (p@.len() == 0),
                Body::Leaf(i) => yes == (i@.len() == 0),
            },
    {
        self.len() == 0
    }
}

/// Everything needed to validate a tree block, gathered from the superblock
/// once so the walker does not have to carry it around.
#[derive(Debug, Clone, Copy, PartialEq, Eq)]
pub struct TreeGeometry {
    /// Size of every metadata block, in bytes.
    pub nodesize: u32,
    /// Algorithm protecting each block.
    pub csum_type: ChecksumType,
    /// UUID every block header must carry.
    pub fsid: [u8; UUID_SIZE],
}

/// What a [`TreeGeometry`] holds.
#[verifier::ext_equal]
pub struct GeometryModel {
    pub nodesize: u32,
    pub csum_type: ChecksumType,
    pub fsid: Seq<u8>,
}

impl View for TreeGeometry {
    type V = GeometryModel;

    open spec fn view(&self) -> GeometryModel {
        GeometryModel { nodesize: self.nodesize, csum_type: self.csum_type, fsid: self.fsid@ }
    }
}

/// The geometry a superblock implies.
pub open spec fn geometry_of(sb: SuperblockModel) -> GeometryModel {
    GeometryModel { nodesize: sb.nodesize, csum_type: sb.csum_type, fsid: sb.node_uuid() }
}

impl TreeGeometry {
    /// Take the geometry from a parsed superblock. The UUID is the one
    /// stamped into tree blocks, which is not the visible one when the
    /// `METADATA_UUID` feature is set.
    pub fn from_superblock(sb: &Superblock) -> (geom: Self)
        ensures
            geom@ == geometry_of(sb@),
    {
        TreeGeometry { nodesize: sb.nodesize, csum_type: sb.csum_type, fsid: sb.node_uuid() }
    }
}

/// The items a leaf's item array lists.
pub open spec fn leaf_items(b: Seq<u8>) -> Seq<Item> {
    Seq::new(
        header_of(b).nritems as nat,
        |i: int| item_at(b, LEAF_DATA_OFFSET + i * ITEM_SIZE),
    )
}

/// The children a node's pointer array lists.
pub open spec fn node_ptrs(b: Seq<u8>) -> Seq<KeyPtr> {
    Seq::new(
        header_of(b).nritems as nat,
        |i: int| key_ptr_at(b, HEADER_SIZE + i * KEY_PTR_SIZE),
    )
}

/// The data an item of the block `b` names.
pub open spec fn item_bytes(b: Seq<u8>, item: Item) -> Seq<u8> {
    b.subrange(LEAF_DATA_OFFSET + item.offset, LEAF_DATA_OFFSET + item.offset + item.size)
}

/// The first check a leaf's items fail from position `i` on, the data of item
/// `i` being due to end at `expected_end`.
pub open spec fn items_error(
    items: Seq<Item>,
    logical: u64,
    data_size: int,
    expected_end: int,
    i: int,
) -> Option<ErrorView>
    decreases items.len() - i,
{
    let array_end: int = items.len() * ITEM_SIZE;
    if i < 0 || i >= items.len() {
        None
    } else {
        let item = items[i];
        let end: int = item.offset + item.size;
        if end > data_size {
            Some(
                bad_block(
                    logical,
                    "item "@ + text::dec(i as nat) + " data ["@ + text::dec(item.offset as nat)
                        + ", "@ + text::dec(end as nat) + ") runs past the "@ + text::dec(
                        data_size as nat,
                    ) + "-byte data area"@,
                ),
            )
        } else if item.offset < array_end {
            Some(
                bad_block(
                    logical,
                    "item "@ + text::dec(i as nat) + " data starts at "@ + text::dec(
                        item.offset as nat,
                    ) + ", inside the item array that ends at "@ + text::dec(array_end as nat),
                ),
            )
        } else if end != expected_end {
            Some(
                bad_block(
                    logical,
                    "item "@ + text::dec(i as nat) + " data ends at "@ + text::dec(end as nat)
                        + ", expected "@ + text::dec(expected_end as nat)
                        + " — items are not contiguous"@,
                ),
            )
        } else if i > 0 && !key_less(items[i - 1].key, item.key) {
            Some(
                bad_block(
                    logical,
                    "item "@ + text::dec(i as nat) + " key "@ + item.key.shown()
                        + " does not follow "@ + items[i - 1].key.shown(),
                ),
            )
        } else {
            items_error(items, logical, data_size, item.offset as int, i + 1)
        }
    }
}

/// The first check a node's children fail from position `i` on.
pub open spec fn ptrs_error(ptrs: Seq<KeyPtr>, logical: u64, i: int) -> Option<ErrorView>
    decreases ptrs.len() - i,
{
    if i < 0 || i >= ptrs.len() {
        None
    } else if ptrs[i].blockptr == 0 {
        Some(bad_block(logical, "child "@ + text::dec(i as nat) + " has a null blockptr"@))
    } else if i > 0 && !key_less(ptrs[i - 1].key, ptrs[i].key) {
        Some(
            bad_block(
                logical,
                "child "@ + text::dec(i as nat) + " key "@ + ptrs[i].key.shown()
                    + " does not follow "@ + ptrs[i - 1].key.shown(),
            ),
        )
    } else {
        ptrs_error(ptrs, logical, i + 1)
    }
}

/// The first check the contents of a block fail.
pub open spec fn body_error(b: Seq<u8>, logical: u64) -> Option<ErrorView> {
    let n: int = header_of(b).nritems as int;
    if header_of(b).level == 0 {
        if LEAF_DATA_OFFSET + n * ITEM_SIZE > b.len() {
            Some(
                bad_block(
                    logical,
                    text::dec(n as nat) + " items need "@ + text::dec(
                        (LEAF_DATA_OFFSET + n * ITEM_SIZE) as nat,
                    ) + " bytes but the node is only "@ + text::dec(b.len()),
                ),
            )
        } else {
            items_error(
                leaf_items(b),
                logical,
                b.len() - LEAF_DATA_OFFSET,
                b.len() - LEAF_DATA_OFFSET,
                0,
            )
        }
    } else if n == 0 {
        Some(bad_block(logical, "internal node has no children"@))
    } else if HEADER_SIZE + n * KEY_PTR_SIZE > b.len() {
        Some(
            bad_block(
                logical,
                text::dec(n as nat) + " key pointers need "@ + text::dec(
                    (HEADER_SIZE + n * KEY_PTR_SIZE) as nat,
                ) + " bytes but the node is only "@ + text::dec(b.len()),
            ),
        )
    } else {
        ptrs_error(node_ptrs(b), logical, 0)
    }
}

/// Whether the stored checksum of a tree block matches its contents.
pub open spec fn block_intact(b: Seq<u8>, geom: GeometryModel) -> bool {
    b.len() == geom.nodesize && b.len() >= HEADER_SIZE && geom.csum_type.matches(
        b.subrange(CSUM_SIZE as int, b.len() as int),
        header_of(b).csum,
    )
}

/// The first check a block read from `logical` fails, `intact` saying whether
/// its stored checksum matches.
pub open spec fn block_error(b: Seq<u8>, logical: u64, geom: GeometryModel, intact: bool) -> Option<
    ErrorView,
> {
    let header = header_of(b);
    if b.len() != geom.nodesize {
        Some(
            bad_block(
                logical,
                "got "@ + text::dec(b.len()) + " bytes for a "@ + text::dec(geom.nodesize as nat)
                    + "-byte node"@,
            ),
        )
    } else if b.len() < HEADER_SIZE {
        Some(
            ErrorView::BadSuperblock(
                "tree block header needs 101 bytes, got "@ + text::dec(b.len()),
            ),
        )
    } else if !intact {
        Some(ErrorView::ChecksumMismatch { what: "tree block"@, offset: logical })
    } else if header.bytenr != logical {
        Some(
            ErrorView::BlockIdentityMismatch {
                what: "tree block"@,
                expected: logical,
                found: header.bytenr,
            },
        )
    } else if header.fsid != geom.fsid {
        Some(
            bad_block(
                logical,
                "fsid "@ + text::hex_bytes(header.fsid) + " is not this volume's "@
                    + text::hex_bytes(geom.fsid),
            ),
        )
    } else if header.level >= MAX_LEVEL {
        Some(
            bad_block(
                logical,
                "level "@ + text::dec(header.level as nat)
                    + " is at or above the maximum tree height 8"@,
            ),
        )
    } else {
        body_error(b, logical)
    }
}

/// A whole tree block: its header, its parsed body, and the bytes the item
/// data lives in.
///
/// Constructing one verifies the checksum and both identity fields first, so
/// a `TreeBlock` in hand is a block that has already proved it is intact and
/// that it belongs where it was found.
#[derive(Debug, Clone, PartialEq, Eq)]
pub struct TreeBlock {
    /// The parsed header.
    pub header: Header,
    /// Child pointers or items, depending on the level.
    pub body: Body,
    /// The raw block, kept because leaf item data is referenced out of it by
    /// offset.
    pub bytes: Vec<u8>,
}

impl View for TreeBlock {
    type V = Seq<u8>;

    open spec fn view(&self) -> Seq<u8> {
        self.bytes@
    }
}

impl TreeBlock {
    /// Whether the header and the body say what the bytes say.
    pub open spec fn decoded(&self) -> bool {
        &&& self@.len() >= HEADER_SIZE
        &&& self.header@ == header_of(self@)
        &&& match self.body {
            Body::Leaf(items) => self.header.level == 0 && items@ == leaf_items(self@),
            Body::Node(ptrs) => self.header.level != 0 && ptrs@ == node_ptrs(self@),
        }
    }

    /// Verify and parse a `nodesize`-byte block read from `logical`.
    pub fn parse(bytes: Vec<u8>, logical: u64, geom: &TreeGeometry) -> (r: Result<Self>)
        ensures
            match r {
                Ok(block) => {
                    &&& block_error(bytes@, logical, geom@, block_intact(bytes@, geom@)) is None
                    &&& block@ == bytes@
                    &&& block.decoded()
                },
                Err(e) => block_error(bytes@, logical, geom@, block_intact(bytes@, geom@)) == Some(
                    e@,
                ),
            },
    {
        let mut intact = false;
        if bytes.len() == geom.nodesize as usize && bytes.len() >= HEADER_SIZE {
            let stored = slice_subrange(bytes.as_slice(), 0, CSUM_SIZE);
            intact = geom.csum_type.verify(
                slice_subrange(bytes.as_slice(), CSUM_SIZE, bytes.len()),
                stored,
            );
            assert(stored@ =~= header_of(bytes@).csum);
        }
        Self::parse_checked(bytes, logical, geom, intact)
    }

    /// Verify and parse a block read from `logical` whose stored checksum is
    /// known to match (`intact`) or not to.
    pub fn parse_checked(
        bytes: Vec<u8>,
        logical: u64,
        geom: &TreeGeometry,
        intact: bool,
    ) -> (r: Result<Self>)
        ensures
            match r {
                Ok(block) => {
                    &&& block_error(bytes@, logical, geom@, intact) is None
                    &&& block@ == bytes@
                    &&& block.decoded()
                },
                Err(e) => block_error(bytes@, logical, geom@, intact) == Some(e@),
            },
    {
        let nodesize: usize = geom.nodesize as usize;
        if bytes.len() != nodesize {
            return Err(
                block_complaint(
                    logical,
                    cat5(
                        Lit("got "),
                        Dec(bytes.len() as u64),
                        Lit(" bytes for a "),
                        Dec(nodesize as u64),
                        Lit("-byte node"),
                    ),
                ),
            );
        }
        let header = match Header::parse(bytes.as_slice()) {
            Ok(header) => header,
            Err(e) => return Err(e),
        };
        if !intact {
            return Err(Error::ChecksumMismatch { what: "tree block", offset: logical });
        }
        if header.bytenr != logical {
            return Err(
                Error::BlockIdentityMismatch {
                    what: "tree block",
                    expected: logical,
                    found: header.bytenr,
                },
            );
        }
        if !same_bytes(header.fsid.as_slice(), geom.fsid.as_slice()) {
            let found = hex_bytes_text(header.fsid.as_slice());
            let wanted = hex_bytes_text(geom.fsid.as_slice());
            return Err(
                block_complaint(
                    logical,
                    cat4(
                        Lit("fsid "),
                        Lit(found.as_str()),
                        Lit(" is not this volume's "),
                        Lit(wanted.as_str()),
                    ),
                ),
            );
        }
        if header.level >= MAX_LEVEL {
            return Err(
                block_complaint(
                    logical,
                    cat3(
                        Lit("level "),
                        Dec(header.level as u64),
                        Lit(" is at or above the maximum tree height 8"),
                    ),
                ),
            );
        }
        let body = if header.is_leaf() {
            match parse_leaf_items(bytes.as_slice(), logical, header.nritems) {
                Ok(items) => Body::Leaf(items),
                Err(e) => return Err(e),
            }
        } else {
            match parse_key_ptrs(bytes.as_slice(), logical, header.nritems) {
                Ok(ptrs) => Body::Node(ptrs),
                Err(e) => return Err(e),
            }
        };
        Ok(TreeBlock { header, body, bytes })
    }

    /// The raw block bytes.
    pub fn bytes(&self) -> (out: &[u8])
        ensures
            out@ == self@,
    {
        self.bytes.as_slice()
    }

    /// Whether this block is a leaf.
    pub fn is_leaf(&self) -> (yes: bool)
        ensures
            yes == (self.header.level == 0),
    {
        self.header.is_leaf()
    }

    /// The data belonging to `item`, or `None` if it would reach past the end
    /// of the block. For an item of this block it never does.
    pub fn item_data(&self, item: &Item) -> (r: Option<&[u8]>)
        ensures
            match r {
                Some(data) => LEAF_DATA_OFFSET + item.offset + item.size <= self@.len() && data@
                    == item_bytes(self@, *item),
                None => LEAF_DATA_OFFSET + item.offset + item.size > self@.len(),
            },
    {
        let start: u64 = LEAF_DATA_OFFSET as u64 + item.offset as u64;
        let end: u64 = start + item.size as u64;
        if end > self.bytes.len() as u64 {
            return None;
        }
        Some(slice_subrange(self.bytes.as_slice(), start as usize, end as usize))
    }
}

/// Parse and validate a leaf's item array: every item's data lies inside the
/// leaf data area and starts after the item array, the data runs are exactly
/// contiguous from the block's end, and keys strictly ascend.
fn parse_leaf_items(block: &[u8], logical: u64, nritems: u32) -> (r: Result<Vec<Item>>)
    requires
        block@.len() >= HEADER_SIZE,
        nritems == header_of(block@).nritems,
        header_of(block@).level == 0,
    ensures
        match r {
            Ok(items) => body_error(block@, logical) is None && items@ == leaf_items(block@),
            Err(e) => body_error(block@, logical) == Some(e@),
        },
{
    let n: u64 = nritems as u64;
    let array_end: u64 = n * ITEM_SIZE as u64;
    let need: u64 = LEAF_DATA_OFFSET as u64 + array_end;
    if need > block.len() as u64 {
        return Err(
            block_complaint(
                logical,
                cat5(
                    Dec(n),
                    Lit(" items need "),
                    Dec(need),
                    Lit(" bytes but the node is only "),
                    Dec(block.len() as u64),
                ),
            ),
        );
    }
    let data_size: u64 = block.len() as u64 - LEAF_DATA_OFFSET as u64;
    let ghost all = leaf_items(block@);
    let mut items: Vec<Item> = Vec::new();
    // Item 0's data ends at the very end of the block; each subsequent item's
    // data ends where the previous one's began.
    let mut expected_end: u64 = data_size;
    let mut i: u64 = 0;
    while i < n
        invariant
            i <= n,
            n == nritems,
            array_end == n * ITEM_SIZE,
            LEAF_DATA_OFFSET + array_end <= block@.len(),
            data_size == block@.len() - LEAF_DATA_OFFSET,
            all == leaf_items(block@),
            all.len() == n,
            items@ == all.take(i as int),
            body_error(block@, logical) == items_error(
                all,
                logical,
                data_size as int,
                expected_end as int,
                i as int,
            ),
        decreases n - i,
    {
        assert(i * ITEM_SIZE + ITEM_SIZE <= array_end) by (nonlinear_arith)
            requires
                i < n,
                array_end == n * ITEM_SIZE,
        ;
        assert(block@.len() == block.len());
        let item = Item::read(block, LEAF_DATA_OFFSET + (i as usize) * ITEM_SIZE);
        assert(item == all[i as int]);
        let end: u64 = item.offset as u64 + item.size as u64;
        if end > data_size {
            let message = text::cat7(
                Lit("item "),
                Dec(i),
                Lit(" data ["),
                Dec(item.offset as u64),
                Lit(", "),
                Dec(end),
                Lit(") runs past the "),
            );
            return Err(
                block_complaint(
                    logical,
                    cat3(Lit(message.as_str()), Dec(data_size), Lit("-byte data area")),
                ),
            );
        }
        if (item.offset as u64) < array_end {
            return Err(
                block_complaint(
                    logical,
                    cat6(
                        Lit("item "),
                        Dec(i),
                        Lit(" data starts at "),
                        Dec(item.offset as u64),
                        Lit(", inside the item array that ends at "),
                        Dec(array_end),
                    ),
                ),
            );
        }
        if end != expected_end {
            return Err(
                block_complaint(
                    logical,
                    text::cat7(
                        Lit("item "),
                        Dec(i),
                        Lit(" data ends at "),
                        Dec(end),
                        Lit(", expected "),
                        Dec(expected_end),
                        Lit(" — items are not contiguous"),
                    ),
                ),
            );
        }
        if i > 0 {
            let prev = items[(i - 1) as usize];
            if !key_before(&prev.key, &item.key) {
                let key = item.key.show();
                let before = prev.key.show();
                return Err(
                    block_complaint(
                        logical,
                        cat6(
                            Lit("item "),
                            Dec(i),
                            Lit(" key "),
                            Lit(key.as_str()),
                            Lit(" does not follow "),
                            Lit(before.as_str()),
                        ),
                    ),
                );
            }
        }
        expected_end = item.offset as u64;
        items.push(item);
        i = i + 1;
        assert(items@ =~= all.take(i as int));
    }
    assert(items@ =~= all);
    Ok(items)
}

/// Parse and validate an internal node's key-pointer array: it has children,
/// each named by an address, under strictly ascending keys.
fn parse_key_ptrs(block: &[u8], logical: u64, nritems: u32) -> (r: Result<Vec<KeyPtr>>)
    requires
        block@.len() >= HEADER_SIZE,
        nritems == header_of(block@).nritems,
        header_of(block@).level != 0,
    ensures
        match r {
            Ok(ptrs) => body_error(block@, logical) is None && ptrs@ == node_ptrs(block@),
            Err(e) => body_error(block@, logical) == Some(e@),
        },
{
    if nritems == 0 {
        return Err(block_complaint(logical, "internal node has no children".to_owned()));
    }
    let n: u64 = nritems as u64;
    let array_end: u64 = n * KEY_PTR_SIZE as u64;
    let need: u64 = HEADER_SIZE as u64 + array_end;
    if need > block.len() as u64 {
        return Err(
            block_complaint(
                logical,
                cat5(
                    Dec(n),
                    Lit(" key pointers need "),
                    Dec(need),
                    Lit(" bytes but the node is only "),
                    Dec(block.len() as u64),
                ),
            ),
        );
    }
    let ghost all = node_ptrs(block@);
    let mut ptrs: Vec<KeyPtr> = Vec::new();
    let mut i: u64 = 0;
    while i < n
        invariant
            i <= n,
            n == nritems,
            array_end == n * KEY_PTR_SIZE,
            HEADER_SIZE + array_end <= block@.len(),
            all == node_ptrs(block@),
            all.len() == n,
            ptrs@ == all.take(i as int),
            body_error(block@, logical) == ptrs_error(all, logical, i as int),
        decreases n - i,
    {
        assert(i * KEY_PTR_SIZE + KEY_PTR_SIZE <= array_end) by (nonlinear_arith)
            requires
                i < n,
                array_end == n * KEY_PTR_SIZE,
        ;
        assert(block@.len() == block.len());
        let ptr = KeyPtr::read(block, HEADER_SIZE + (i as usize) * KEY_PTR_SIZE);
        assert(ptr == all[i as int]);
        if ptr.blockptr == 0 {
            return Err(
                block_complaint(
                    logical,
                    cat3(Lit("child "), Dec(i), Lit(" has a null blockptr")),
                ),
            );
        }
        if i > 0 {
            let prev = ptrs[(i - 1) as usize];
            if !key_before(&prev.key, &ptr.key) {
                let key = ptr.key.show();
                let before = prev.key.show();
                return Err(
                    block_complaint(
                        logical,
                        cat6(
                            Lit("child "),
                            Dec(i),
                            Lit(" key "),
                            Lit(key.as_str()),
                            Lit(" does not follow "),
                            Lit(before.as_str()),
                        ),
                    ),
                );
            }
        }
        ptrs.push(ptr);
        i = i + 1;
        assert(ptrs@ =~= all.take(i as int));
    }
    assert(ptrs@ =~= all);
    Ok(ptrs)
}

/// Whether the keys of `items` strictly ascend.
pub open spec fn items_ascend(items: Seq<Item>) -> bool {
    forall|i: int, j: int| 0 <= i < j < items.len() ==> key_less(
        (#[trigger] items[i]).key,
        (#[trigger] items[j]).key,
    )
}

/// Where the data of item `i` has to end: at the end of the data area for the
/// first, where the data of the one before it starts for every other.
pub open spec fn data_limit(items: Seq<Item>, data_size: int, i: int) -> int {
    if i == 0 {
        data_size
    } else {
        items[i - 1].offset as int
    }
}

/// Whether the data of `items` lies end to end, the last item first, up to the
/// end of a data area of `data_size` bytes, and behind the item array.
pub open spec fn items_tile(items: Seq<Item>, data_size: int) -> bool {
    forall|i: int|
        0 <= i < items.len() ==> items[i].offset + items[i].size == #[trigger] data_limit(
            items,
            data_size,
            i,
        ) && items[i].offset >= items.len() * ITEM_SIZE
}

/// Whether the keys of `ptrs` strictly ascend.
pub open spec fn ptrs_ascend(ptrs: Seq<KeyPtr>) -> bool {
    forall|i: int, j: int| 0 <= i < j < ptrs.len() ==> key_less(
        (#[trigger] ptrs[i]).key,
        (#[trigger] ptrs[j]).key,
    )
}

proof fn lemma_items_ok(items: Seq<Item>, logical: u64, data_size: int, expected_end: int, i: int)
    requires
        0 <= i,
        items_error(items, logical, data_size, expected_end, i) is None,
        forall|a: int, b: int| 0 <= a < b < i && b < items.len() ==> key_less(
            (#[trigger] items[a]).key,
            (#[trigger] items[b]).key,
        ),
        forall|a: int| 0 <= a < i && a < items.len() ==> (#[trigger] items[a]).offset + items[a].size
            <= data_size,
        i < items.len() ==> expected_end == data_limit(items, data_size, i),
        forall|a: int|
            0 <= a < i && a < items.len() ==> items[a].offset + items[a].size
                == #[trigger] data_limit(items, data_size, a) && items[a].offset >= items.len()
                * ITEM_SIZE,
    ensures
        items_ascend(items),
        items_tile(items, data_size),
        forall|a: int| 0 <= a < items.len() ==> (#[trigger] items[a]).offset + items[a].size
            <= data_size,
    decreases items.len() - i,
{
    if i < items.len() {
        assert forall|a: int, b: int| 0 <= a < b < i + 1 && b < items.len() implies key_less(
            (#[trigger] items[a]).key,
            (#[trigger] items[b]).key,
        ) by {
            if b == i && a < i - 1 {
                assert(key_less(items[a].key, items[i - 1].key));
            }
        }
        assert(data_limit(items, data_size, i) == expected_end);
        lemma_items_ok(items, logical, data_size, items[i].offset as int, i + 1);
    }
}

proof fn lemma_ptrs_ok(ptrs: Seq<KeyPtr>, logical: u64, i: int)
    requires
        0 <= i,
        ptrs_error(ptrs, logical, i) is None,
        forall|a: int, b: int| 0 <= a < b < i && b < ptrs.len() ==> key_less(
            (#[trigger] ptrs[a]).key,
            (#[trigger] ptrs[b]).key,
        ),
        forall|a: int| 0 <= a < i && a < ptrs.len() ==> (#[trigger] ptrs[a]).blockptr != 0,
    ensures
        ptrs_ascend(ptrs),
        forall|a: int| 0 <= a < ptrs.len() ==> (#[trigger] ptrs[a]).blockptr != 0,
    decreases ptrs.len() - i,
{
    if i < ptrs.len() {
        assert forall|a: int, b: int| 0 <= a < b < i + 1 && b < ptrs.len() implies key_less(
            (#[trigger] ptrs[a]).key,
            (#[trigger] ptrs[b]).key,
        ) by {
            if b == i && a < i - 1 {
                assert(key_less(ptrs[a].key, ptrs[i - 1].key));
            }
        }
        lemma_ptrs_ok(ptrs, logical, i + 1);
    }
}

proof fn lemma_data_apart(items: Seq<Item>, data_size: int, i: int, j: int)
    requires
        items_tile(items, data_size),
        0 <= i < j < items.len(),
    ensures
        items[j].offset + items[j].size <= items[i].offset,
    decreases j - i,
{
    assert(data_limit(items, data_size, j) == items[j - 1].offset);
    if i < j - 1 {
        lemma_data_apart(items, data_size, i, j - 1);
    }
}

/// A block that parses is sound inside. A leaf's keys strictly ascend, the data
/// of every item lies in the block, and that data takes up the end of the block
/// without gap or overlap. A node has children, none of them at address zero,
/// and their keys strictly ascend.
pub proof fn law_parsed_block_is_sound(
    b: Seq<u8>,
    logical: u64,
    geom: GeometryModel,
    intact: bool,
)
    requires
        block_error(b, logical, geom, intact) is None,
    ensures
        b.len() == geom.nodesize,
        header_of(b).level < MAX_LEVEL,
        header_of(b).level == 0 ==> {
            &&& items_ascend(leaf_items(b))
            &&& forall|i: int|
                0 <= i < leaf_items(b).len() ==> LEAF_DATA_OFFSET + (#[trigger] leaf_items(
                    b,
                )[i]).offset + leaf_items(b)[i].size <= b.len()
            &&& items_tile(leaf_items(b), b.len() - LEAF_DATA_OFFSET)
            &&& forall|i: int, j: int|
                0 <= i < j < leaf_items(b).len() ==> (#[trigger] leaf_items(b)[j]).offset
                    + leaf_items(b)[j].size <= (#[trigger] leaf_items(b)[i]).offset
        },
        header_of(b).level != 0 ==> {
            &&& node_ptrs(b).len() > 0
            &&& ptrs_ascend(node_ptrs(b))
            &&& forall|i: int|
                0 <= i < node_ptrs(b).len() ==> (#[trigger] node_ptrs(b)[i]).blockptr != 0
        },
{
    if header_of(b).level == 0 {
        let size: int = b.len() - LEAF_DATA_OFFSET;
        lemma_items_ok(leaf_items(b), logical, size, size, 0);
        assert forall|i: int, j: int| 0 <= i < j < leaf_items(b).len() implies (
        #[trigger] leaf_items(b)[j]).offset + leaf_items(b)[j].size <= (#[trigger] leaf_items(
            b,
        )[i]).offset by {
            lemma_data_apart(leaf_items(b), size, i, j);
        }
    } else {
        lemma_ptrs_ok(node_ptrs(b), logical, 0);
    }
}

/// Where `key` belongs among `keys`: behind the last one that is smaller.
pub open spec fn rank(keys: Seq<DiskKey>, key: DiskKey) -> int
    decreases keys.len(),
{
    if keys.len() == 0 || key_less(keys.last(), key) {
        keys.len() as int
    } else {
        rank(keys.drop_last(), key)
    }
}

/// How many of `keys` stand at or before the last one not greater than `key`.
pub open spec fn rank_through(keys: Seq<DiskKey>, key: DiskKey) -> int
    decreases keys.len(),
{
    if keys.len() == 0 || !key_less(key, keys.last()) {
        keys.len() as int
    } else {
        rank_through(keys.drop_last(), key)
    }
}

/// The keys of a leaf's items.
pub open spec fn item_keys(items: Seq<Item>) -> Seq<DiskKey> {
    Seq::new(items.len(), |i: int| items[i].key)
}

/// The keys of a node's children.
pub open spec fn ptr_keys(ptrs: Seq<KeyPtr>) -> Seq<DiskKey> {
    Seq::new(ptrs.len(), |i: int| ptrs[i].key)
}

/// The child an internal node descends into when looking for `key`: the last
/// one whose key is not greater, and the first one when `key` sorts before
/// them all.
pub open spec fn slot_in_node(ptrs: Seq<KeyPtr>, key: DiskKey) -> int {
    let through: int = rank_through(ptr_keys(ptrs), key);
    if through > 0 {
        through - 1
    } else {
        0
    }
}

/// The slot a leaf search settles on: the first item whose key is not
/// smaller.
pub open spec fn slot_in_leaf(items: Seq<Item>, key: DiskKey) -> int {
    rank(item_keys(items), key)
}

pub(crate) proof fn lemma_rank(keys: Seq<DiskKey>, key: DiskKey)
    ensures
        0 <= rank(keys, key) <= keys.len(),
        rank(keys, key) > 0 ==> key_less(keys[rank(keys, key) - 1], key),
        forall|i: int| rank(keys, key) <= i < keys.len() ==> !key_less(#[trigger] keys[i], key),
    decreases keys.len(),
{
    if keys.len() > 0 && !key_less(keys.last(), key) {
        lemma_rank(keys.drop_last(), key);
        assert forall|i: int| rank(keys, key) <= i < keys.len() implies !key_less(
            #[trigger] keys[i],
            key,
        ) by {
            if i < keys.len() - 1 {
                assert(keys[i] == keys.drop_last()[i]);
            }
        }
    }
}

/// The slot an internal node descends into when looking for `key`.
fn node_slot(ptrs: &[KeyPtr], key: &DiskKey) -> (slot: usize)
    requires
        ptrs@.len() > 0,
    ensures
        slot == slot_in_node(ptrs@, *key),
        slot < ptrs@.len(),
{
    let ghost keys = ptr_keys(ptrs@);
    let mut above: usize = ptrs.len();
    assert(keys.take(above as int) =~= keys);
    while above > 0 && key_before(key, &ptrs[above - 1].key)
        invariant
            above <= ptrs@.len(),
            keys == ptr_keys(ptrs@),
            rank_through(keys, *key) == rank_through(keys.take(above as int), *key),
        decreases above,
    {
        above = above - 1;
        assert(keys.take(above + 1).drop_last() =~= keys.take(above as int));
    }
    if above > 0 {
        above - 1
    } else {
        0
    }
}

/// The slot a leaf search settles on: equal to `items.len()` when `key` sorts
/// after everything in the leaf.
fn leaf_slot(items: &[Item], key: &DiskKey) -> (slot: usize)
    ensures
        slot == slot_in_leaf(items@, *key),
        slot <= items@.len(),
{
    let ghost keys = item_keys(items@);
    let mut at: usize = items.len();
    assert(keys.take(at as int) =~= keys);
    while at > 0 && !key_before(&items[at - 1].key, key)
        invariant
            at <= items@.len(),
            keys == item_keys(items@),
            rank(keys, *key) == rank(keys.take(at as int), *key),
        decreases at,
    {
        at = at - 1;
        assert(keys.take(at + 1).drop_last() =~= keys.take(at as int));
    }
    at
}

/// One item lifted out of a leaf, with its data copied.
#[derive(Debug, Clone, PartialEq, Eq)]
pub struct LeafItem {
    /// The key the item was filed under.
    pub key: DiskKey,
    /// The item's data.
    pub data: Vec<u8>,
}

/// What a [`LeafItem`] holds.
#[verifier::ext_equal]
pub struct ItemModel {
    pub key: DiskKey,
    pub data: Seq<u8>,
}

impl View for LeafItem {
    type V = ItemModel;

    open spec fn view(&self) -> ItemModel {
        ItemModel { key: self.key, data: self.data@ }
    }
}

/// What a list of items holds.
pub open spec fn models(items: Seq<LeafItem>) -> Seq<ItemModel> {
    items.map_values(|i: LeafItem| i@)
}

/// The items of a leaf, each with its data.
pub open spec fn leaf_contents(b: Seq<u8>) -> Seq<ItemModel> {
    Seq::new(
        leaf_items(b).len(),
        |i: int| ItemModel { key: leaf_items(b)[i].key, data: item_bytes(b, leaf_items(b)[i]) },
    )
}

/// What lies at each logical address: `nodesize` bytes, or the reason they
/// cannot be had.
pub type Image = spec_fn(u64) -> std::result::Result<Seq<u8>, ErrorView>;

/// Whether every answer `read` may give for `nodesize` bytes is the one
/// `image` gives.
pub open spec fn answers<F: Fn(u64, usize) -> Result<Vec<u8>>>(
    read: &F,
    nodesize: u32,
    image: Image,
) -> bool {
    forall|logical: u64, r: Result<Vec<u8>>| #[trigger]
        call_ensures(read, (logical, nodesize as usize), r) ==> crate::error::viewed(r) == image(
            logical,
        )
}

/// The verified block at `logical`, or the first complaint about it.
pub open spec fn block_at(image: Image, geom: GeometryModel, logical: u64) -> std::result::Result<
    Seq<u8>,
    ErrorView,
> {
    block_in(image(logical), geom, logical)
}

/// The verified block at `logical` in what a reader answered, or the first
/// complaint about it.
pub open spec fn block_in(
    answer: std::result::Result<Seq<u8>, ErrorView>,
    geom: GeometryModel,
    logical: u64,
) -> std::result::Result<Seq<u8>, ErrorView> {
    match answer {
        Err(e) => Err(e),
        Ok(b) => match block_error(b, logical, geom, block_intact(b, geom)) {
            Some(e) => Err(e),
            None => Ok(b),
        },
    }
}

/// Whether `r` is the verified block at `logical` in some answer of `read`:
/// the reader's own error, or the block or complaint its bytes give.
pub open spec fn block_read<F: Fn(u64, usize) -> Result<Vec<u8>>>(
    read: &F,
    geom: TreeGeometry,
    logical: u64,
    r: Result<TreeBlock>,
) -> bool {
    exists|answer: Result<Vec<u8>>| #[trigger]
        call_ensures(read, (logical, geom.nodesize as usize), answer) && crate::error::viewed(r)
            == block_in(crate::error::viewed(answer), geom@, logical) && (answer matches Err(e)
            ==> r matches Err(f) && f == e)
}

/// A block whose level is not the one its parent promised.
pub open spec fn wrong_level(logical: u64, level: u8, want: u8) -> ErrorView {
    bad_block(
        logical,
        "level "@ + text::dec(level as nat) + " where the parent said "@ + text::dec(want as nat)
            + " — the tree is inconsistent"@,
    )
}

/// The leaf a descent towards `key` reaches from `logical`, `steps` blocks
/// being left to read and `expected` naming the level the parent promised.
pub open spec fn leaf_for(
    image: Image,
    geom: GeometryModel,
    root: u64,
    logical: u64,
    expected: Option<u8>,
    key: DiskKey,
    steps: nat,
) -> std::result::Result<Seq<u8>, ErrorView>
    decreases steps,
{
    if steps == 0 {
        Err(bad_block(root, "descent did not reach a leaf within 8 levels"@))
    } else {
        match block_at(image, geom, logical) {
            Err(e) => Err(e),
            Ok(b) => if expected is Some && header_of(b).level != expected->Some_0 {
                Err(wrong_level(logical, header_of(b).level, expected->Some_0))
            } else if header_of(b).level == 0 {
                Ok(b)
            } else {
                leaf_for(
                    image,
                    geom,
                    root,
                    node_ptrs(b)[slot_in_node(node_ptrs(b), key)].blockptr,
                    Some((header_of(b).level - 1) as u8),
                    key,
                    (steps - 1) as nat,
                )
            },
        }
    }
}

/// Whether `r` is what a descent towards `key` comes to from `logical` with
/// some answers of `read`, each block being asked for once on the way. It is
/// the leaf of [`leaf_for`] where every address has one answer.
#[verifier::opaque]
pub open spec fn descended<F: Fn(u64, usize) -> Result<Vec<u8>>>(
    read: &F,
    geom: TreeGeometry,
    root: u64,
    logical: u64,
    expected: Option<u8>,
    key: DiskKey,
    steps: nat,
    r: std::result::Result<Seq<u8>, ErrorView>,
) -> bool
    decreases steps,
{
    if steps == 0 {
        r == Err::<Seq<u8>, ErrorView>(
            bad_block(root, "descent did not reach a leaf within 8 levels"@),
        )
    } else {
        exists|answer: Result<Vec<u8>>| #[trigger]
            call_ensures(read, (logical, geom.nodesize as usize), answer) && match block_in(
                crate::error::viewed(answer),
                geom@,
                logical,
            ) {
                Err(e) => r == Err::<Seq<u8>, ErrorView>(e),
                Ok(b) => if expected is Some && header_of(b).level != expected->Some_0 {
                    r == Err::<Seq<u8>, ErrorView>(
                        wrong_level(logical, header_of(b).level, expected->Some_0),
                    )
                } else if header_of(b).level == 0 {
                    r == Ok::<Seq<u8>, ErrorView>(b)
                } else {
                    descended(
                        read,
                        geom,
                        root,
                        node_ptrs(b)[slot_in_node(node_ptrs(b), key)].blockptr,
                        Some((header_of(b).level - 1) as u8),
                        key,
                        (steps - 1) as nat,
                        r,
                    )
                },
            }
    }
}

/// Whether `item` lies in a verified leaf that `read` answers with somewhere.
#[verifier::opaque]
pub open spec fn comes_from<F: Fn(u64, usize) -> Result<Vec<u8>>>(
    read: &F,
    geom: TreeGeometry,
    item: ItemModel,
) -> bool {
    exists|logical: u64, answer: Result<Vec<u8>>| #[trigger]
        call_ensures(read, (logical, geom.nodesize as usize), answer) && (block_in(
            crate::error::viewed(answer),
            geom@,
            logical,
        ) matches Ok(b) && header_of(b).level == 0 && leaf_contents(b).contains(item))
}

/// Whether every one of `items` lies in a verified leaf that `read` answers
/// with somewhere.
pub open spec fn all_come_from<F: Fn(u64, usize) -> Result<Vec<u8>>>(
    read: &F,
    geom: TreeGeometry,
    items: Seq<LeafItem>,
) -> bool {
    forall|i: int| 0 <= i < items.len() ==> comes_from(read, geom, (#[trigger] items[i])@)
}

/// The item of the leaf `b` filed under exactly `key`.
pub open spec fn found_in_leaf(b: Seq<u8>, key: DiskKey) -> Option<ItemModel> {
    let slot: int = slot_in_leaf(leaf_items(b), key);
    if slot < leaf_items(b).len() && leaf_items(b)[slot].key == key {
        Some(leaf_contents(b)[slot])
    } else {
        None
    }
}

/// What a walk comes across: the items, in the order it meets them, and the
/// fault that ends it, if one does.
#[verifier::ext_equal]
pub struct Stream {
    pub items: Seq<ItemModel>,
    pub fault: Option<ErrorView>,
}

/// The walk of the tree rooted at `logical`, from `start` on. `start` applies
/// to the leftmost path only: everything right of it is visited whole.
pub open spec fn walk_from(
    image: Image,
    geom: GeometryModel,
    logical: u64,
    start: Option<DiskKey>,
    depth: nat,
) -> Stream
    decreases MAX_LEVEL - depth, 1nat, 0int,
{
    if depth >= MAX_LEVEL {
        Stream {
            items: Seq::empty(),
            fault: Some(bad_block(logical, "walk went deeper than 8 levels"@)),
        }
    } else {
        match block_at(image, geom, logical) {
            Err(e) => Stream { items: Seq::empty(), fault: Some(e) },
            Ok(b) => if header_of(b).level == 0 {
                let first: int = match start {
                    Some(key) => slot_in_leaf(leaf_items(b), key),
                    None => 0,
                };
                Stream { items: leaf_contents(b).skip(first), fault: None }
            } else {
                let first: int = match start {
                    Some(key) => slot_in_node(node_ptrs(b), key),
                    None => 0,
                };
                walk_children(image, geom, node_ptrs(b), first, start, depth)
            },
        }
    }
}

/// The walk `tail` after the walk `head`.
pub open spec fn walk_on(head: Stream, tail: Stream) -> Stream {
    if head.fault is Some {
        head
    } else {
        Stream { items: head.items + tail.items, fault: tail.fault }
    }
}

/// The walk of the children `from ..` of a node, the first of them from
/// `start` on.
pub open spec fn walk_children(
    image: Image,
    geom: GeometryModel,
    ptrs: Seq<KeyPtr>,
    from: int,
    start: Option<DiskKey>,
    depth: nat,
) -> Stream
    decreases MAX_LEVEL - depth, 0nat, ptrs.len() - from,
{
    if from < 0 || from >= ptrs.len() || depth >= MAX_LEVEL {
        Stream { items: Seq::empty(), fault: None }
    } else {
        walk_on(
            walk_from(image, geom, ptrs[from].blockptr, start, depth + 1),
            walk_children(image, geom, ptrs, from + 1, None, depth),
        )
    }
}

/// How many items a visitor sees that goes on after those `keep` accepts.
pub open spec fn seen_count(items: Seq<ItemModel>, keep: spec_fn(ItemModel) -> bool) -> nat
    decreases items.len(),
{
    if items.len() == 0 {
        0
    } else if keep(items[0]) {
        1 + seen_count(items.drop_first(), keep)
    } else {
        1
    }
}

/// Whether a visitor that goes on after the items `keep` accepts is stopped.
pub open spec fn stopped(items: Seq<ItemModel>, keep: spec_fn(ItemModel) -> bool) -> bool {
    exists|i: int| 0 <= i < items.len() && !keep(#[trigger] items[i])
}

/// What a visitor sees of a walk that goes on after the items `keep` accepts:
/// the fault of a walk is met only by a visitor that is not stopped first.
pub open spec fn visited(s: Stream, keep: spec_fn(ItemModel) -> bool) -> std::result::Result<
    Seq<ItemModel>,
    ErrorView,
> {
    if stopped(s.items, keep) {
        Ok(s.items.take(seen_count(s.items, keep) as int))
    } else {
        match s.fault {
            Some(e) => Err(e),
            None => Ok(s.items),
        }
    }
}

/// The longest run of items `keep` accepts, from the front.
pub open spec fn run(items: Seq<ItemModel>, keep: spec_fn(ItemModel) -> bool) -> Seq<ItemModel>
    decreases items.len(),
{
    if items.len() == 0 || !keep(items[0]) {
        Seq::empty()
    } else {
        seq![items[0]] + run(items.drop_first(), keep)
    }
}

/// What a list of items, or the error in its place, holds.
pub open spec fn listed(r: Result<Vec<LeafItem>>) -> std::result::Result<
    Seq<ItemModel>,
    ErrorView,
> {
    match r {
        Ok(items) => Ok(models(items@)),
        Err(e) => Err(e@),
    }
}

/// Whether `visit` asked to go on after each of `items`.
pub open spec fn accepted<V: Fn(&LeafItem) -> Result<bool>>(
    visit: &V,
    items: Seq<LeafItem>,
) -> bool {
    forall|i: int|
        0 <= i < items.len() ==> call_ensures(
            visit,
            (&(#[trigger] items[i]),),
            Ok::<bool, Error>(true),
        )
}

/// Whether `visit` asked to go on after each of `items` but the last, and
/// answered `end` to that one.
pub open spec fn halted<V: Fn(&LeafItem) -> Result<bool>>(
    visit: &V,
    items: Seq<LeafItem>,
    end: Result<bool>,
) -> bool {
    &&& items.len() > 0
    &&& accepted(visit, items.drop_last())
    &&& call_ensures(visit, (&items.last(),), end)
}

/// Whether `items` are the first of what the walk `s` comes across.
pub open spec fn met(s: Stream, items: Seq<LeafItem>) -> bool {
    items.len() <= s.items.len() && models(items) == s.items.take(items.len() as int)
}

/// Whether `r` is what visiting the walk `s` gives: the items up to the one
/// `visit` stopped at, or all of them; the error of `visit` at the first item
/// it failed on, or the fault behind the items.
pub open spec fn followed<V: Fn(&LeafItem) -> Result<bool>>(
    s: Stream,
    visit: &V,
    r: Result<Vec<LeafItem>>,
) -> bool {
    match r {
        Ok(items) => {
            &&& met(s, items@)
            &&& {
                ||| halted(visit, items@, Ok(false))
                ||| accepted(visit, items@) && items@.len() == s.items.len() && s.fault is None
            }
        },
        Err(e) => {
            ||| s.fault == Some(e@) && exists|items: Seq<LeafItem>|
                models(items) == s.items && #[trigger] accepted(visit, items)
            ||| exists|items: Seq<LeafItem>|
                met(s, items) && #[trigger] halted(visit, items, Err::<bool, Error>(e))
        },
    }
}

/// Whether `r` is how a walk ends that hands `fresh` to `visit`: `true` where
/// it came to its end, `false` where `visit` stopped it. `known` says whether
/// the walk is known to be `s`.
pub open spec fn walked<V: Fn(&LeafItem) -> Result<bool>>(
    s: Stream,
    known: bool,
    visit: &V,
    fresh: Seq<LeafItem>,
    r: Result<bool>,
) -> bool {
    match r {
        Ok(true) => accepted(visit, fresh) && (known ==> models(fresh) == s.items
            && s.fault is None),
        Ok(false) => halted(visit, fresh, r) && (known ==> met(s, fresh)),
        Err(e) => {
            ||| accepted(visit, fresh) && (known ==> models(fresh) == s.items && s.fault == Some(
                e@,
            ))
            ||| halted(visit, fresh, r) && (known ==> met(s, fresh))
        },
    }
}

/// Whether `visit` goes on exactly after the items `keep` accepts.
pub open spec fn obeys<V: Fn(&LeafItem) -> Result<bool>>(
    visit: &V,
    keep: spec_fn(ItemModel) -> bool,
) -> bool {
    forall|item: &LeafItem, go: Result<bool>| #[trigger]
        call_ensures(visit, (item,), go) ==> go == Ok::<bool, Error>(keep(item@))
}

/// A visitor that goes on after all but the last of the first `n` items is
/// stopped there.
pub(crate) proof fn lemma_stop(items: Seq<ItemModel>, keep: spec_fn(ItemModel) -> bool, n: int)
    requires
        0 < n <= items.len(),
        forall|i: int| 0 <= i < n - 1 ==> keep(#[trigger] items[i]),
        !keep(items[n - 1]),
    ensures
        stopped(items, keep),
        seen_count(items, keep) == n,
        run(items, keep) == items.take(n - 1),
    decreases n,
{
    if n > 1 {
        let rest = items.drop_first();
        assert forall|i: int| 0 <= i < n - 2 implies keep(#[trigger] rest[i]) by {
            assert(rest[i] == items[i + 1]);
        }
        assert(rest[n - 2] == items[n - 1]);
        assert(keep(items[0]));
        lemma_stop(rest, keep, n - 1);
        assert(seq![items[0]] + rest.take(n - 2) =~= items.take(n - 1));
    } else {
        assert(run(items, keep) =~= items.take(0));
    }
}

proof fn lemma_no_stop(items: Seq<ItemModel>, keep: spec_fn(ItemModel) -> bool)
    requires
        forall|i: int| 0 <= i < items.len() ==> keep(#[trigger] items[i]),
    ensures
        !stopped(items, keep),
        run(items, keep) == items,
    decreases items.len(),
{
    if items.len() > 0 {
        let rest = items.drop_first();
        assert forall|i: int| 0 <= i < rest.len() implies keep(#[trigger] rest[i]) by {
            assert(rest[i] == items[i + 1]);
        }
        lemma_no_stop(rest, keep);
        assert(keep(items[0]));
        assert(seq![items[0]] + rest =~= items);
    } else {
        assert(run(items, keep) =~= items);
    }
}

/// A stopped visitor has seen one item more than it went on after.
pub proof fn lemma_seen(items: Seq<ItemModel>, keep: spec_fn(ItemModel) -> bool)
    ensures
        stopped(items, keep) ==> {
            &&& 0 < seen_count(items, keep) <= items.len()
            &&& !keep(items[seen_count(items, keep) - 1])
            &&& forall|i: int| 0 <= i < seen_count(items, keep) - 1 ==> keep(#[trigger] items[i])
        },
    decreases items.len(),
{
    if stopped(items, keep) && keep(items[0]) {
        let rest = items.drop_first();
        let k = choose|k: int| 0 <= k < items.len() && !keep(#[trigger] items[k]);
        assert(rest[k - 1] == items[k]);
        lemma_seen(rest, keep);
        let n = seen_count(items, keep);
        assert(rest[n - 2] == items[n - 1]);
        assert forall|i: int| 0 <= i < n - 1 implies keep(#[trigger] items[i]) by {
            if i > 0 {
                assert(rest[i - 1] == items[i]);
            }
        }
    }
}

/// The longest run is a run, and what stands behind it ends it.
pub proof fn lemma_run(items: Seq<ItemModel>, keep: spec_fn(ItemModel) -> bool)
    ensures
        run(items, keep).len() <= items.len(),
        run(items, keep) == items.take(run(items, keep).len() as int),
        forall|i: int| 0 <= i < run(items, keep).len() ==> keep(#[trigger] items[i]),
        run(items, keep).len() < items.len() ==> !keep(items[run(items, keep).len() as int]),
    decreases items.len(),
{
    if items.len() == 0 || !keep(items[0]) {
        assert(run(items, keep) =~= items.take(0));
    } else {
        let rest = items.drop_first();
        lemma_run(rest, keep);
        let n: int = run(rest, keep).len() as int;
        assert(seq![items[0]] + rest.take(n) =~= items.take(n + 1));
        assert forall|i: int| 0 <= i < n + 1 implies keep(#[trigger] items[i]) by {
            if i > 0 {
                assert(rest[i - 1] == items[i]);
            }
        }
        if n + 1 < items.len() {
            assert(rest[n] == items[n + 1]);
        }
    }
}

/// What a visitor sees begins with the longest run, and nothing it sees
/// behind it belongs to one.
pub proof fn lemma_run_of_visited(s: Stream, keep: spec_fn(ItemModel) -> bool)
    ensures
        visited(s, keep) matches Ok(seen) ==> run(seen, keep) == run(s.items, keep),
{
    lemma_run(s.items, keep);
    if let Ok(seen) = visited(s, keep) {
        lemma_run(seen, keep);
        if stopped(s.items, keep) {
            lemma_seen(s.items, keep);
            let n: int = seen_count(s.items, keep) as int;
            let a = run(s.items, keep).len();
            let b = run(seen, keep).len();
            assert(forall|i: int| 0 <= i < n ==> seen[i] == s.items[i]);
            assert(seen[n - 1] == s.items[n - 1]);
            if a < n - 1 {
                assert(keep(s.items[a as int]));
            }
            if b < n - 1 {
                assert(keep(s.items[b as int]));
                assert(seen[b as int] == s.items[b as int]);
            }
            assert(a == n - 1 && b == n - 1);
            assert(seen.take(n - 1) =~= s.items.take(n - 1));
        }
    }
}

/// Visiting with a visitor that obeys `keep` gives what `keep` lets through.
pub proof fn lemma_followed<V: Fn(&LeafItem) -> Result<bool>>(
    s: Stream,
    visit: &V,
    r: Result<Vec<LeafItem>>,
    keep: spec_fn(ItemModel) -> bool,
)
    requires
        followed(s, visit, r),
        obeys(visit, keep),
    ensures
        listed(r) == visited(s, keep),
{
    match r {
        Ok(items) => {
            let n: int = items@.len() as int;
            assert forall|i: int| 0 <= i < n implies #[trigger] s.items[i] == items@[i]@ by {
                assert(models(items@)[i] == items@[i]@);
                assert(s.items.take(n)[i] == s.items[i]);
            }
            if halted(visit, items@, Ok(false)) {
                assert forall|i: int| 0 <= i < n - 1 implies keep(#[trigger] s.items[i]) by {
                    assert(items@.drop_last()[i] == items@[i]);
                }
                lemma_stop(s.items, keep, n);
            } else {
                assert forall|i: int| 0 <= i < n implies keep(#[trigger] s.items[i]) by {
                    assert(call_ensures(visit, (&items@[i],), Ok::<bool, Error>(true)));
                }
                lemma_no_stop(s.items, keep);
                assert(s.items.take(n) =~= s.items);
            }
        },
        Err(e) => {
            assert forall|items: Seq<LeafItem>| !(#[trigger] halted(
                visit,
                items,
                Err::<bool, Error>(e),
            )) by {
                if halted(visit, items, Err::<bool, Error>(e)) {
                    assert(Err::<bool, Error>(e) == Ok::<bool, Error>(keep(items.last()@)));
                }
            }
            let items = choose|items: Seq<LeafItem>|
                models(items) == s.items && #[trigger] accepted(visit, items);
            assert forall|i: int| 0 <= i < s.items.len() implies keep(#[trigger] s.items[i]) by {
                assert(models(items)[i] == items[i]@);
                assert(call_ensures(visit, (&items[i],), Ok::<bool, Error>(true)));
            }
            lemma_no_stop(s.items, keep);
        },
    }
}

proof fn lemma_ends_in_head<V: Fn(&LeafItem) -> Result<bool>>(
    head: Stream,
    tail: Stream,
    known: bool,
    visit: &V,
    fresh: Seq<LeafItem>,
    r: Result<bool>,
)
    requires
        walked(head, known, visit, fresh, r),
        r != Ok::<bool, Error>(true),
    ensures
        walked(walk_on(head, tail), known, visit, fresh, r),
{
    let s = walk_on(head, tail);
    if met(head, fresh) {
        assert(s.items.take(fresh.len() as int) =~= head.items.take(fresh.len() as int));
        assert(met(s, fresh));
    }
}

proof fn lemma_ends_in_tail<V: Fn(&LeafItem) -> Result<bool>>(
    head: Stream,
    tail: Stream,
    known: bool,
    visit: &V,
    one: Seq<LeafItem>,
    two: Seq<LeafItem>,
    r: Result<bool>,
)
    requires
        walked(head, known, visit, one, Ok(true)),
        walked(tail, known, visit, two, r),
    ensures
        walked(walk_on(head, tail), known, visit, one + two, r),
{
    let s = walk_on(head, tail);
    let fresh = one + two;
    assert(models(fresh) =~= models(one) + models(two));
    assert(accepted(visit, two) ==> accepted(visit, fresh));
    if two.len() > 0 {
        assert(fresh.last() == two.last());
        assert(fresh.drop_last() =~= one + two.drop_last());
        assert(accepted(visit, two.drop_last()) ==> accepted(visit, fresh.drop_last()));
    }
    if known && met(tail, two) {
        assert(s.items.take(fresh.len() as int) =~= head.items + tail.items.take(two.len() as int));
    }
}

/// Taking the item a visitor stopped at off what it saw leaves the run.
proof fn lemma_trimmed(s: Stream, all: Seq<ItemModel>, keep: spec_fn(ItemModel) -> bool)
    requires
        visited(s, keep) == Ok::<Seq<ItemModel>, ErrorView>(all),
    ensures
        run(s.items, keep) == (if all.len() > 0 && !keep(all.last()) {
            all.drop_last()
        } else {
            all
        }),
{
    if stopped(s.items, keep) {
        let n: int = lemma_first_stop(s.items, keep);
        lemma_stop(s.items, keep, n);
        assert(all.last() == s.items[n - 1]);
        assert(all.drop_last() =~= s.items.take(n - 1));
    } else {
        lemma_no_stop(s.items, keep);
        if all.len() > 0 {
            assert(keep(s.items[all.len() - 1]));
        }
    }
}

proof fn lemma_first_stop(items: Seq<ItemModel>, keep: spec_fn(ItemModel) -> bool) -> (n: int)
    requires
        stopped(items, keep),
    ensures
        0 < n <= items.len(),
        forall|i: int| 0 <= i < n - 1 ==> keep(#[trigger] items[i]),
        !keep(items[n - 1]),
    decreases items.len(),
{
    if !keep(items[0]) {
        1
    } else {
        let rest = items.drop_first();
        let k = choose|k: int| 0 <= k < items.len() && !keep(#[trigger] items[k]);
        assert(rest[k - 1] == items[k]);
        let m: int = lemma_first_stop(rest, keep);
        assert forall|i: int| 0 <= i < m implies keep(#[trigger] items[i]) by {
            if i > 0 {
                assert(rest[i - 1] == items[i]);
            }
        }
        assert(items[m] == rest[m - 1]);
        m + 1
    }
}

/// Lift the item in `slot` out of a leaf.
fn lift(leaf: &TreeBlock, slot: usize) -> (item: LeafItem)
    requires
        leaf.decoded(),
        leaf.header.level == 0,
        slot < leaf_items(leaf@).len(),
        LEAF_DATA_OFFSET + leaf_items(leaf@)[slot as int].offset + leaf_items(
            leaf@,
        )[slot as int].size <= leaf@.len(),
    ensures
        item@ == leaf_contents(leaf@)[slot as int],
{
    match &leaf.body {
        Body::Leaf(items) => {
            let entry = items[slot];
            assert(leaf.bytes.len() == leaf@.len());
            let start: usize = LEAF_DATA_OFFSET + entry.offset as usize;
            LeafItem {
                key: entry.key,
                data: copy_range(leaf.bytes.as_slice(), start, start + entry.size as usize),
            }
        },
        Body::Node(_) => LeafItem {
            key: DiskKey { objectid: 0, key_type: 0, offset: 0 },
            data: Vec::new(),
        },
    }
}

/// What one block read means for the descent it is a step of.
proof fn lemma_descends<F: Fn(u64, usize) -> Result<Vec<u8>>>(
    read: &F,
    geom: TreeGeometry,
    root: u64,
    logical: u64,
    expected: Option<u8>,
    key: DiskKey,
    steps: nat,
    r: Result<TreeBlock>,
)
    requires
        steps > 0,
        block_read(read, geom, logical, r),
    ensures
        match crate::error::viewed(r) {
            Err(e) => descended(
                read,
                geom,
                root,
                logical,
                expected,
                key,
                steps,
                Err::<Seq<u8>, ErrorView>(e),
            ),
            Ok(b) => if expected is Some && header_of(b).level != expected->Some_0 {
                descended(
                    read,
                    geom,
                    root,
                    logical,
                    expected,
                    key,
                    steps,
                    Err::<Seq<u8>, ErrorView>(
                        wrong_level(logical, header_of(b).level, expected->Some_0),
                    ),
                )
            } else if header_of(b).level == 0 {
                descended(
                    read,
                    geom,
                    root,
                    logical,
                    expected,
                    key,
                    steps,
                    Ok::<Seq<u8>, ErrorView>(b),
                )
            } else {
                forall|end: std::result::Result<Seq<u8>, ErrorView>| #[trigger]
                    descended(
                        read,
                        geom,
                        root,
                        node_ptrs(b)[slot_in_node(node_ptrs(b), key)].blockptr,
                        Some((header_of(b).level - 1) as u8),
                        key,
                        (steps - 1) as nat,
                        end,
                    ) ==> descended(read, geom, root, logical, expected, key, steps, end)
            },
        },
{
    reveal_with_fuel(descended, 1);
    let answer = choose|answer: Result<Vec<u8>>| #[trigger]
        call_ensures(read, (logical, geom.nodesize as usize), answer) && crate::error::viewed(r)
            == block_in(crate::error::viewed(answer), geom@, logical) && (answer matches Err(e)
            ==> r matches Err(f) && f == e);
    assert(call_ensures(read, (logical, geom.nodesize as usize), answer));
    if let Ok(b) = crate::error::viewed(r) {
        if header_of(b).level != 0 && !(expected is Some && header_of(b).level
            != expected->Some_0) {
            assert forall|end: std::result::Result<Seq<u8>, ErrorView>| #[trigger]
                descended(
                    read,
                    geom,
                    root,
                    node_ptrs(b)[slot_in_node(node_ptrs(b), key)].blockptr,
                    Some((header_of(b).level - 1) as u8),
                    key,
                    (steps - 1) as nat,
                    end,
                ) implies descended(read, geom, root, logical, expected, key, steps, end) by {
                assert(call_ensures(read, (logical, geom.nodesize as usize), answer));
            }
        }
    }
}

/// A descent with no step left comes to nothing.
proof fn lemma_descent_ends<F: Fn(u64, usize) -> Result<Vec<u8>>>(
    read: &F,
    geom: TreeGeometry,
    root: u64,
    logical: u64,
    expected: Option<u8>,
    key: DiskKey,
)
    ensures
        descended(
            read,
            geom,
            root,
            logical,
            expected,
            key,
            0,
            Err::<Seq<u8>, ErrorView>(
                bad_block(root, "descent did not reach a leaf within 8 levels"@),
            ),
        ),
{
    reveal_with_fuel(descended, 1);
}

proof fn lemma_all_come_from<F: Fn(u64, usize) -> Result<Vec<u8>>>(
    read: &F,
    geom: TreeGeometry,
    one: Seq<LeafItem>,
    two: Seq<LeafItem>,
)
    requires
        all_come_from(read, geom, one),
        all_come_from(read, geom, two),
    ensures
        all_come_from(read, geom, one + two),
{
    let both = one + two;
    assert forall|i: int| 0 <= i < both.len() implies comes_from(
        read,
        geom,
        (#[trigger] both[i])@,
    ) by {
        if i < one.len() {
            assert(both[i] == one[i]);
        } else {
            assert(both[i] == two[i - one.len()]);
        }
    }
}

/// The items of a leaf that was read come from the reader.
proof fn lemma_leaf_comes_from<F: Fn(u64, usize) -> Result<Vec<u8>>>(
    read: &F,
    geom: TreeGeometry,
    logical: u64,
    r: Result<TreeBlock>,
    items: Seq<LeafItem>,
)
    requires
        block_read(read, geom, logical, r),
        r matches Ok(block) && header_of(block@).level == 0 && forall|i: int|
            0 <= i < items.len() ==> leaf_contents(block@).contains((#[trigger] items[i])@),
    ensures
        all_come_from(read, geom, items),
{
    reveal(comes_from);
    let answer = choose|answer: Result<Vec<u8>>| #[trigger]
        call_ensures(read, (logical, geom.nodesize as usize), answer) && crate::error::viewed(r)
            == block_in(crate::error::viewed(answer), geom@, logical) && (answer matches Err(e)
            ==> r matches Err(f) && f == e);
    assert(call_ensures(read, (logical, geom.nodesize as usize), answer));
}

/// A B-tree, reachable through a caller-supplied block reader: given a
/// logical address and a length, it returns that many bytes.
///
/// One instance can walk any number of trees, because every Btrfs tree shares
/// this exact structure and the root address is a per-call argument.
pub struct Tree<'a, F> {
    /// What every block is validated against.
    pub geom: TreeGeometry,
    /// Where the blocks come from.
    pub read: &'a F,
    /// What the reader is taken to answer.
    pub image: Ghost<Image>,
}

impl<'a, F: Fn(u64, usize) -> Result<Vec<u8>>> Tree<'a, F> {
    /// Whether the reader answers every address the one way
    /// [`Tree::image`] says.
    pub open spec fn faithful(&self) -> bool {
        answers(self.read, self.geom.nodesize, self.image@)
    }

    /// Whether the reader may be asked for any block.
    pub open spec fn readable(&self) -> bool {
        forall|logical: u64| #[trigger]
            call_requires(self.read, (logical, self.geom.nodesize as usize))
    }

    /// Build a walker over an explicit geometry. Where the reader answers
    /// every address in one way only, the walker's image is such an answer.
    pub fn new(geom: TreeGeometry, read: &'a F) -> (tree: Self)
        ensures
            tree.geom == geom,
            tree.read == read,
            (exists|image: Image| #[trigger] answers(read, geom.nodesize, image))
                ==> tree.faithful(),
    {
        Tree {
            geom,
            read,
            image: Ghost(choose|image: Image| #[trigger] answers(read, geom.nodesize, image)),
        }
    }

    /// Build a walker over a reader known to answer as `image` says.
    pub fn over(geom: TreeGeometry, read: &'a F, Ghost(image): Ghost<Image>) -> (tree: Self)
        ensures
            tree.geom == geom,
            tree.read == read,
            tree.image@ == image,
    {
        Tree { geom, read, image: Ghost(image) }
    }

    /// Build a walker using the geometry a parsed superblock implies.
    pub fn from_superblock(sb: &Superblock, read: &'a F) -> (tree: Self)
        ensures
            tree.geom@ == geometry_of(sb@),
            tree.read == read,
            (exists|image: Image| #[trigger] answers(read, sb.nodesize, image)) ==> tree.faithful(),
    {
        Tree::new(TreeGeometry::from_superblock(sb), read)
    }

    /// The geometry this walker validates against.
    pub fn geometry(&self) -> (geom: &TreeGeometry)
        ensures
            *geom == self.geom,
    {
        &self.geom
    }

    /// Read, verify and parse the block at `logical`. One answer of the reader,
    /// asked for `nodesize` bytes there, decides the result.
    pub fn read_block(&self, logical: u64) -> (r: Result<TreeBlock>)
        requires
            self.readable(),
        ensures
            block_read(self.read, self.geom, logical, r),
            self.faithful() ==> crate::error::viewed(r) == block_at(
                self.image@,
                self.geom@,
                logical,
            ),
            r matches Ok(block) ==> {
                &&& block.decoded()
                &&& block_error(block@, logical, self.geom@, block_intact(block@, self.geom@)) is None
            },
    {
        let answer = (self.read)(logical, self.geom.nodesize as usize);
        let ghost given = answer;
        let r = match answer {
            Ok(bytes) => TreeBlock::parse(bytes, logical, &self.geom),
            Err(e) => Err(e),
        };
        assert(call_ensures(self.read, (logical, self.geom.nodesize as usize), given));
        r
    }

    /// Descend from `root` to the leaf that would hold `key`, whether or not
    /// the key is actually present.
    pub fn descend(&self, root: u64, key: &DiskKey) -> (r: Result<TreeBlock>)
        requires
            self.readable(),
        ensures
            descended(
                self.read,
                self.geom,
                root,
                root,
                None,
                *key,
                MAX_LEVEL as nat,
                crate::error::viewed(r),
            ),
            self.faithful() ==> crate::error::viewed(r) == leaf_for(
                self.image@,
                self.geom@,
                root,
                root,
                None,
                *key,
                MAX_LEVEL as nat,
            ),
            r matches Ok(block) ==> {
                &&& block.decoded()
                &&& block.header.level == 0
                &&& forall|i: int|
                    0 <= i < leaf_items(block@).len() ==> LEAF_DATA_OFFSET + (#[trigger] leaf_items(
                        block@,
                    )[i]).offset + leaf_items(block@)[i].size <= block@.len()
            },
    {
        let mut logical: u64 = root;
        let mut expected: Option<u8> = None;
        // A tree is at most MAX_LEVEL blocks tall, so this many reads is
        // enough for any well-formed tree.
        let mut steps: u8 = MAX_LEVEL;
        while steps > 0
            invariant
                self.readable(),
                steps <= MAX_LEVEL,
                forall|end: std::result::Result<Seq<u8>, ErrorView>| #[trigger]
                    descended(
                        self.read,
                        self.geom,
                        root,
                        logical,
                        expected,
                        *key,
                        steps as nat,
                        end,
                    ) ==> descended(
                        self.read,
                        self.geom,
                        root,
                        root,
                        None,
                        *key,
                        MAX_LEVEL as nat,
                        end,
                    ),
                self.faithful() ==> leaf_for(
                    self.image@,
                    self.geom@,
                    root,
                    root,
                    None,
                    *key,
                    MAX_LEVEL as nat,
                ) == leaf_for(
                    self.image@,
                    self.geom@,
                    root,
                    logical,
                    expected,
                    *key,
                    steps as nat,
                ),
            decreases steps,
        {
            let answered = self.read_block(logical);
            proof {
                lemma_descends(
                    self.read,
                    self.geom,
                    root,
                    logical,
                    expected,
                    *key,
                    steps as nat,
                    answered,
                );
            }
            let block = match answered {
                Ok(block) => block,
                Err(e) => return Err(e),
            };
            proof {
                law_parsed_block_is_sound(
                    block@,
                    logical,
                    self.geom@,
                    block_intact(block@, self.geom@),
                );
            }
            if let Some(want) = expected {
                if block.header.level != want {
                    return Err(
                        block_complaint(
                            logical,
                            cat5(
                                Lit("level "),
                                Dec(block.header.level as u64),
                                Lit(" where the parent said "),
                                Dec(want as u64),
                                Lit(" — the tree is inconsistent"),
                            ),
                        ),
                    );
                }
            }
            let next: u64 = match block.body.key_ptrs() {
                None => return Ok(block),
                Some(ptrs) => {
                    let slot: usize = node_slot(ptrs, key);
                    ptrs[slot].blockptr
                },
            };
            expected = Some(block.header.level - 1);
            logical = next;
            steps = steps - 1;
        }
        proof {
            lemma_descent_ends(self.read, self.geom, root, logical, expected, *key);
        }
        Err(
            block_complaint(
                root,
                "descent did not reach a leaf within 8 levels".to_owned(),
            ),
        )
    }

    /// Find the item filed under exactly `key`, if the tree holds one.
    pub fn search(&self, root: u64, key: &DiskKey) -> (r: Result<Option<LeafItem>>)
        requires
            self.readable(),
        ensures
            exists|end: std::result::Result<Seq<u8>, ErrorView>| #[trigger]
                descended(
                    self.read,
                    self.geom,
                    root,
                    root,
                    None,
                    *key,
                    MAX_LEVEL as nat,
                    end,
                ) && match end {
                    Err(e) => r matches Err(f) && f@ == e,
                    Ok(b) => match found_in_leaf(b, *key) {
                        Some(item) => r matches Ok(Some(found)) && found@ == item,
                        None => r matches Ok(None),
                    },
                },
            self.faithful() ==> match leaf_for(
                self.image@,
                self.geom@,
                root,
                root,
                None,
                *key,
                MAX_LEVEL as nat,
            ) {
                Err(e) => r matches Err(f) && f@ == e,
                Ok(b) => match found_in_leaf(b, *key) {
                    Some(item) => r matches Ok(Some(found)) && found@ == item,
                    None => r matches Ok(None),
                },
            },
    {
        let reached = self.descend(root, key);
        let ghost end = crate::error::viewed(reached);
        assert(descended(
            self.read,
            self.geom,
            root,
            root,
            None,
            *key,
            MAX_LEVEL as nat,
            end,
        ));
        let leaf = match reached {
            Ok(leaf) => leaf,
            Err(e) => return Err(e),
        };
        match &leaf.body {
            Body::Node(_) => Ok(None),
            Body::Leaf(items) => {
                let slot: usize = leaf_slot(items.as_slice(), key);
                if slot >= items.len() || items[slot].key != *key {
                    return Ok(None);
                }
                Ok(Some(lift(&leaf, slot)))
            },
        }
    }

    /// Every item in the tree sharing `objectid` and `key_type`, in key
    /// order: the run of such items that begins where the smallest key of
    /// that kind would stand.
    pub fn find_all(&self, root: u64, objectid: u64, key_type: u8) -> (r: Result<Vec<LeafItem>>)
        requires
            self.readable(),
        ensures
            self.faithful() ==> ({
                let start = DiskKey { objectid, key_type, offset: 0 };
                let s = walk_from(self.image@, self.geom@, root, Some(start), 0);
                let same = |i: ItemModel| i.key.objectid == objectid && i.key.key_type == key_type;
                listed(r) == match visited(s, same) {
                    Ok(_) => Ok(run(s.items, same)),
                    Err(e) => Err(e),
                }
            }),
            r matches Ok(items) ==> all_come_from(self.read, self.geom, items@) && forall|i: int|
                0 <= i < items@.len() ==> (#[trigger] items@[i]).key.objectid == objectid
                    && items@[i].key.key_type == key_type,
    {
        let start = DiskKey { objectid, key_type, offset: 0 };
        let visit = |item: &LeafItem| -> (go: Result<bool>)
            ensures
                go == Ok::<bool, Error>(
                    item.key.objectid == objectid && item.key.key_type == key_type,
                ),
            { Ok(item.key.objectid == objectid && item.key.key_type == key_type) };
        let ghost same = |i: ItemModel| i.key.objectid == objectid && i.key.key_type == key_type;
        let ghost s = walk_from(self.image@, self.geom@, root, Some(start), 0);
        let r = self.for_each_from(root, &start, &visit);
        proof {
            if self.faithful() {
                lemma_followed(s, &visit, r, same);
            }
        }
        let mut items = match r {
            Ok(items) => items,
            Err(e) => return Err(e),
        };
        let ghost all = models(items@);
        let ghost seen = items@;
        assert forall|i: int| 0 <= i < seen.len() - 1 implies (
        #[trigger] seen[i]).key.objectid == objectid && seen[i].key.key_type == key_type by {
            if halted(&visit, seen, Ok(false)) {
                assert(seen.drop_last()[i] == seen[i]);
            }
            assert(call_ensures(&visit, (&seen[i],), Ok::<bool, Error>(true)));
        }
        // Keys ascend, so the first key past the run ends it.
        if items.len() > 0 {
            let last: usize = items.len() - 1;
            assert(all[last as int] == items@[last as int]@);
            if !(items[last].key.objectid == objectid && items[last].key.key_type == key_type) {
                items.pop();
            }
        }
        assert(forall|i: int| 0 <= i < items@.len() ==> #[trigger] items@[i] == seen[i]);
        proof {
            if self.faithful() {
                lemma_trimmed(s, all, same);
                if all.len() > 0 && !same(all.last()) {
                    assert(models(items@) =~= all.drop_last());
                } else {
                    assert(models(items@) =~= all);
                }
            }
        }
        Ok(items)
    }

    /// Visit every item in the tree, in key order, and return those visited.
    ///
    /// `visit` returns `false` to stop early; the item it stopped at is the
    /// last one returned. An error of `visit` ends the walk too and is the
    /// result.
    pub fn for_each<V: Fn(&LeafItem) -> Result<bool>>(&self, root: u64, visit: &V) -> (r: Result<
        Vec<LeafItem>,
    >)
        requires
            self.readable(),
            forall|item: &LeafItem| #[trigger] call_requires(visit, (item,)),
        ensures
            self.faithful() ==> followed(
                walk_from(self.image@, self.geom@, root, None, 0),
                visit,
                r,
            ),
            r matches Ok(items) ==> {
                &&& accepted(visit, items@) || halted(visit, items@, Ok(false))
                &&& all_come_from(self.read, self.geom, items@)
            },
    {
        let mut out: Vec<LeafItem> = Vec::new();
        let r = self.walk(root, None, 0, visit, &mut out);
        proof {
            assert(out@.skip(0) =~= out@);
            if self.faithful() {
                let s = walk_from(self.image@, self.geom@, root, None, 0);
                assert(s.items.take(s.items.len() as int) =~= s.items);
            }
        }
        match r {
            Ok(_) => Ok(out),
            Err(e) => Err(e),
        }
    }

    /// Visit every item from `start` onwards, in key order, and return those
    /// visited.
    ///
    /// The tree is descended to `start` rather than scanned from the
    /// beginning.
    pub fn for_each_from<V: Fn(&LeafItem) -> Result<bool>>(
        &self,
        root: u64,
        start: &DiskKey,
        visit: &V,
    ) -> (r: Result<Vec<LeafItem>>)
        requires
            self.readable(),
            forall|item: &LeafItem| #[trigger] call_requires(visit, (item,)),
        ensures
            self.faithful() ==> followed(
                walk_from(self.image@, self.geom@, root, Some(*start), 0),
                visit,
                r,
            ),
            r matches Ok(items) ==> {
                &&& accepted(visit, items@) || halted(visit, items@, Ok(false))
                &&& all_come_from(self.read, self.geom, items@)
            },
    {
        let mut out: Vec<LeafItem> = Vec::new();
        let r = self.walk(root, Some(*start), 0, visit, &mut out);
        proof {
            assert(out@.skip(0) =~= out@);
            if self.faithful() {
                let s = walk_from(self.image@, self.geom@, root, Some(*start), 0);
                assert(s.items.take(s.items.len() as int) =~= s.items);
            }
        }
        match r {
            Ok(_) => Ok(out),
            Err(e) => Err(e),
        }
    }

    /// Depth-first, left-to-right walk, adding what it visits to `out`.
    /// Returns `false` once `visit` has asked to stop.
    fn walk<V: Fn(&LeafItem) -> Result<bool>>(
        &self,
        logical: u64,
        start: Option<DiskKey>,
        depth: u8,
        visit: &V,
        out: &mut Vec<LeafItem>,
    ) -> (r: Result<bool>)
        requires
            self.readable(),
            forall|item: &LeafItem| #[trigger] call_requires(visit, (item,)),
        ensures
            final(out)@.len() >= old(out)@.len(),
            final(out)@.take(old(out)@.len() as int) == old(out)@,
            ({
                let fresh = final(out)@.skip(old(out)@.len() as int);
                let s = walk_from(self.image@, self.geom@, logical, start, depth as nat);
                walked(s, self.faithful(), visit, fresh, r) && all_come_from(
                    self.read,
                    self.geom,
                    fresh,
                )
            }),
        decreases MAX_LEVEL - depth,
    {
        let ghost before = out@;
        if depth >= MAX_LEVEL {
            assert(models(out@.skip(before.len() as int)) =~= Seq::empty());
            assert(out@.take(before.len() as int) =~= before);
            return Err(
                block_complaint(logical, "walk went deeper than 8 levels".to_owned()),
            );
        }
        let block = match self.read_block(logical) {
            Ok(block) => block,
            Err(e) => {
                assert(models(out@.skip(before.len() as int)) =~= Seq::empty());
                assert(out@.take(before.len() as int) =~= before);
                return Err(e);
            },
        };
        proof {
            law_parsed_block_is_sound(
                block@,
                logical,
                self.geom@,
                block_intact(block@, self.geom@),
            );
        }
        match &block.body {
            Body::Leaf(items) => {
                let r = self.walk_leaf(&block, items.len(), start, visit, out);
                proof {
                    lemma_leaf_comes_from(
                        self.read,
                        self.geom,
                        logical,
                        Ok(block),
                        out@.skip(before.len() as int),
                    );
                }
                r
            },
            Body::Node(ptrs) => {
                let first: usize = match &start {
                    Some(key) => node_slot(ptrs.as_slice(), key),
                    None => 0,
                };
                self.walk_nodes(ptrs.as_slice(), first, start, depth, visit, out)
            },
        }
    }

    /// The part of a walk that lies in one leaf.
    fn walk_leaf<V: Fn(&LeafItem) -> Result<bool>>(
        &self,
        block: &TreeBlock,
        count: usize,
        start: Option<DiskKey>,
        visit: &V,
        out: &mut Vec<LeafItem>,
    ) -> (r: Result<bool>)
        requires
            block.decoded(),
            block.header.level == 0,
            count == leaf_items(block@).len(),
            forall|i: int|
                0 <= i < leaf_items(block@).len() ==> LEAF_DATA_OFFSET + (#[trigger] leaf_items(
                    block@,
                )[i]).offset + leaf_items(block@)[i].size <= block@.len(),
            forall|item: &LeafItem| #[trigger] call_requires(visit, (item,)),
        ensures
            final(out)@.len() >= old(out)@.len(),
            final(out)@.take(old(out)@.len() as int) == old(out)@,
            ({
                let fresh = final(out)@.skip(old(out)@.len() as int);
                let first: int = match start {
                    Some(key) => slot_in_leaf(leaf_items(block@), key),
                    None => 0,
                };
                let whole = leaf_contents(block@).skip(first);
                walked(Stream { items: whole, fault: None }, true, visit, fresh, r) && forall|i: int|
                    0 <= i < fresh.len() ==> leaf_contents(block@).contains(
                        (#[trigger] fresh[i])@,
                    )
            }),
    {
        let ghost before = out@;
        let first: usize = match (&start, &block.body) {
            (Some(key), Body::Leaf(items)) => leaf_slot(items.as_slice(), key),
            _ => 0,
        };
        let ghost whole = leaf_contents(block@).skip(first as int);
        let mut i: usize = first;
        assert(out@.skip(before.len() as int) =~= Seq::empty());
        while i < count
            invariant
                first <= i <= count,
                first == (match start {
                    Some(key) => slot_in_leaf(leaf_items(block@), key),
                    None => 0,
                }),
                before == old(out)@,
                count == leaf_items(block@).len(),
                block.decoded(),
                block.header.level == 0,
                whole == leaf_contents(block@).skip(first as int),
                forall|i: int|
                    0 <= i < leaf_items(block@).len() ==> LEAF_DATA_OFFSET + (#[trigger] leaf_items(
                        block@,
                    )[i]).offset + leaf_items(block@)[i].size <= block@.len(),
                forall|item: &LeafItem| #[trigger] call_requires(visit, (item,)),
                out@.len() == before.len() + (i - first),
                out@.take(before.len() as int) == before,
                accepted(visit, out@.skip(before.len() as int)),
                models(out@.skip(before.len() as int)) == whole.take(i - first),
                forall|k: int|
                    0 <= k < out@.len() - before.len() ==> leaf_contents(block@).contains(
                        (#[trigger] out@.skip(before.len() as int)[k])@,
                    ),
            decreases count - i,
        {
            let ghost so_far = out@.skip(before.len() as int);
            let item = lift(block, i);
            let go = visit(&item);
            let ghost added = item;
            out.push(item);
            i = i + 1;
            proof {
                let fresh = out@.skip(before.len() as int);
                assert(fresh =~= so_far.push(added));
                assert(out@.take(before.len() as int) =~= before);
                assert(models(fresh) =~= whole.take(i - first));
                assert(fresh.drop_last() =~= so_far);
                assert(leaf_contents(block@)[i - 1] == added@);
            }
            match go {
                Ok(true) => {},
                _ => return go,
            }
        }
        assert(whole.take(i - first) =~= whole);
        Ok(true)
    }

    /// The part of a walk that lies below the children `first ..` of a node.
    fn walk_nodes<V: Fn(&LeafItem) -> Result<bool>>(
        &self,
        ptrs: &[KeyPtr],
        first: usize,
        start: Option<DiskKey>,
        depth: u8,
        visit: &V,
        out: &mut Vec<LeafItem>,
    ) -> (r: Result<bool>)
        requires
            self.readable(),
            depth < MAX_LEVEL,
            first <= ptrs@.len(),
            forall|item: &LeafItem| #[trigger] call_requires(visit, (item,)),
        ensures
            final(out)@.len() >= old(out)@.len(),
            final(out)@.take(old(out)@.len() as int) == old(out)@,
            ({
                let fresh = final(out)@.skip(old(out)@.len() as int);
                let s = walk_children(
                    self.image@,
                    self.geom@,
                    ptrs@,
                    first as int,
                    start,
                    depth as nat,
                );
                walked(s, self.faithful(), visit, fresh, r) && all_come_from(
                    self.read,
                    self.geom,
                    fresh,
                )
            }),
        decreases MAX_LEVEL - depth, ptrs@.len() - first,
    {
        let ghost before = out@;
        assert(out@.skip(before.len() as int) =~= Seq::empty());
        assert(models(out@.skip(before.len() as int)) =~= Seq::empty());
        assert(out@.take(before.len() as int) =~= before);
        if first >= ptrs.len() {
            return Ok(true);
        }
        let head = self.walk(ptrs[first].blockptr, start, depth + 1, visit, out);
        let ghost one = out@.skip(before.len() as int);
        let ghost (h, t) = (
            walk_from(
                self.image@,
                self.geom@,
                ptrs@[first as int].blockptr,
                start,
                (depth + 1) as nat,
            ),
            walk_children(self.image@, self.geom@, ptrs@, first + 1, None, depth as nat),
        );
        match head {
            Ok(true) => {},
            _ => {
                proof {
                    lemma_ends_in_head(h, t, self.faithful(), visit, one, head);
                }
                return head;
            },
        }
        let ghost middle = out@;
        let tail = self.walk_nodes(ptrs, first + 1, None, depth, visit, out);
        proof {
            let two = out@.skip(middle.len() as int);
            let fresh = out@.skip(before.len() as int);
            assert(fresh =~= one + two) by {
                assert(out@.take(middle.len() as int) =~= middle);
                assert forall|i: int| 0 <= i < fresh.len() implies fresh[i] == (one + two)[i] by {
                    if i < one.len() {
                        assert(out@[before.len() + i] == out@.take(middle.len() as int)[before.len()
                            + i]);
                    }
                }
            }
            assert(out@.take(before.len() as int) =~= before) by {
                assert(out@.take(middle.len() as int).take(before.len() as int) =~= middle.take(
                    before.len() as int,
                ));
                assert(out@.take(before.len() as int) =~= out@.take(middle.len() as int).take(
                    before.len() as int,
                ));
            }
            lemma_ends_in_tail(h, t, self.faithful(), visit, one, two, tail);
            lemma_all_come_from(self.read, self.geom, one, two);
        }
        tail
    }
}

} // verus!
