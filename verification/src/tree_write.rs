//! Building tree blocks.
//!
//! Btrfs is copy-on-write: changing one byte of one inode means writing a new
//! leaf holding the change, a new node above it pointing at that leaf, and so
//! on to the root. This builds those blocks. It writes nothing: a block is
//! bytes, and where they go and in what order is the transaction's business.
//!
//! ```text
//!   0  header       101 bytes
//! 101  items        25 bytes each, growing forwards
//!  ...  free space
//!  ...  item data, growing backwards from the end of the block
//! ```
//!
//! An item's offset is measured from the end of the header. The checksum does
//! not cover itself. A block records its own address.

use vstd::prelude::*;
use vstd::slice::slice_subrange;

use crate::btree;
use crate::btree::{
    header_flags, header_offsets, HeaderModel, Item, ItemModel, KeyPtr, HEADER_SIZE, ITEM_SIZE,
    KEY_PTR_SIZE, LEAF_DATA_OFFSET,
};
pub use crate::btree::key_before;
use crate::bytes;
use crate::bytes::{put32, put64, put8, put_bytes, uuid_at};
use crate::chunk;
use crate::chunk::{DiskKey, DISK_KEY_SIZE};
use crate::error::{Error, ErrorView, Result};
use crate::superblock::{Superblock, SuperblockModel, CSUM_SIZE};
use crate::text;
use crate::text::Part::{Dec, Lit};
use crate::text::{cat4, cat6};

pub mod block_laws;

verus! {

/// One item to place in a leaf: where it is filed, and its body.
#[derive(Debug, Clone)]
pub struct LeafItem<'a> {
    pub key: DiskKey,
    pub data: &'a [u8],
}

impl<'a> View for LeafItem<'a> {
    type V = ItemModel;

    open spec fn view(&self) -> ItemModel {
        ItemModel { key: self.key, data: self.data@ }
    }
}

/// What a list of items to place holds.
pub open spec fn placed_models(items: Seq<LeafItem<'_>>) -> Seq<ItemModel> {
    Seq::new(items.len(), |i: int| items[i]@)
}

/// The bytes the data of the first `n` items takes.
pub open spec fn data_before(items: Seq<ItemModel>, n: int) -> nat
    decreases n,
{
    if n <= 0 || n > items.len() {
        0
    } else {
        data_before(items, n - 1) + items[n - 1].data.len()
    }
}

/// What a leaf's items and their data occupy, header included.
pub open spec fn space(items: Seq<ItemModel>) -> nat {
    HEADER_SIZE as nat + items.len() * (ITEM_SIZE as nat) + data_before(items, items.len() as int)
}

/// `n`, held to what a `u64` can say.
pub open spec fn held(n: nat) -> u64 {
    if n > u64::MAX {
        u64::MAX
    } else {
        n as u64
    }
}

/// What a leaf's items and their data occupy, header included.
///
/// Used to refuse a leaf that will not fit rather than build one whose item
/// array has run into its own data. Items too large for a `usize` to count
/// are reported as taking all of it.
pub fn space_needed(items: &[LeafItem<'_>]) -> (n: usize)
    ensures
        n == (if space(placed_models(items@)) > usize::MAX {
            usize::MAX as int
        } else {
            space(placed_models(items@)) as int
        }),
{
    let total: u64 = space_total(items);
    if total > usize::MAX as u64 {
        usize::MAX
    } else {
        total as usize
    }
}

pub(crate) fn space_total(items: &[LeafItem<'_>]) -> (n: u64)
    ensures
        n == held(space(placed_models(items@))),
{
    let ghost all = placed_models(items@);
    let mut total: u64 = HEADER_SIZE as u64;
    let mut i: usize = 0;
    while i < items.len()
        invariant
            i <= items@.len(),
            all == placed_models(items@),
            total == held(
                HEADER_SIZE as nat + i as nat * (ITEM_SIZE as nat) + data_before(all, i as int),
            ),
        decreases items@.len() - i,
    {
        assert(all[i as int].data == items@[i as int].data@);
        assert(items@[i as int].data@.len() == items@[i as int].data.len());
        assert((i + 1) * ITEM_SIZE == i * ITEM_SIZE + ITEM_SIZE);
        total = total.saturating_add(ITEM_SIZE as u64).saturating_add(items[i].data.len() as u64);
        i = i + 1;
    }
    total
}

/// Where a block belongs and what it says about itself.
#[derive(Debug, Clone, Copy)]
pub struct BlockIdentity {
    /// The logical address the block will live at.
    pub bytenr: u64,
    /// The tree this block belongs to.
    pub owner: u64,
    /// The transaction writing it.
    pub generation: u64,
    /// Zero for a leaf; the height above the leaves otherwise.
    pub level: u8,
    /// The header flags, see [`flags_for_new_block`].
    pub flags: u64,
    /// The chunk tree's UUID, which every tree block carries.
    pub chunk_tree_uuid: [u8; 16],
}

/// The flags a block written now should carry: it has been written out, and
/// its back-references are of revision 1.
pub fn flags_for_new_block() -> (flags: u64)
    ensures
        flags == 0x0100_0000_0000_0001,
{
    let rev: u64 = header_flags::MIXED_BACKREF_REV as u64;
    assert(0x1u64 | (1u64 << 56) == 0x0100_0000_0000_0001u64) by (bit_vector);
    header_flags::WRITTEN | (rev << header_flags::BACKREF_REV_SHIFT)
}

/// The chunk-tree UUID a tree block carries, which is the one every new block
/// of the filesystem must repeat.
pub fn chunk_tree_uuid_of(block: &[u8]) -> (uuid: [u8; 16])
    requires
        block@.len() >= header_offsets::CHUNK_TREE_UUID + 16,
    ensures
        uuid@ == btree::header_of(block@).chunk_tree_uuid,
{
    uuid_at(block, header_offsets::CHUNK_TREE_UUID)
}

/// The header a block built for `id` carries, its checksum covering `covered`.
pub open spec fn new_header(
    sb: SuperblockModel,
    id: BlockIdentity,
    nritems: u32,
    covered: Seq<u8>,
) -> HeaderModel {
    HeaderModel {
        csum: sb.csum_type.field(covered),
        fsid: sb.node_uuid(),
        bytenr: id.bytenr,
        flags: id.flags,
        chunk_tree_uuid: id.chunk_tree_uuid@,
        generation: id.generation,
        owner: id.owner,
        nritems,
        level: id.level,
    }
}

/// Item `i` of a leaf of `nodesize` bytes, as its item array lists it: its
/// data ends where the data of the item before it begins, and the first
/// item's data at the end of the block.
pub open spec fn entry(items: Seq<ItemModel>, nodesize: int, i: int) -> Item {
    Item {
        key: items[i].key,
        offset: (nodesize - LEAF_DATA_OFFSET - data_before(items, i + 1)) as u32,
        size: items[i].data.len() as u32,
    }
}

/// Whether the item array of the block `b` lists the first `n` items.
pub open spec fn lists_items(b: Seq<u8>, items: Seq<ItemModel>, n: int) -> bool {
    forall|i: int|
        0 <= i < n ==> #[trigger] btree::item_at(b, LEAF_DATA_OFFSET + i * ITEM_SIZE) == entry(
            items,
            b.len() as int,
            i,
        )
}

/// Whether the data of the first `n` items stands at the end of the block
/// `b`, the first item's data last.
pub open spec fn holds_data(b: Seq<u8>, items: Seq<ItemModel>, n: int) -> bool {
    forall|i: int|
        0 <= i < n ==> b.subrange(
            b.len() - data_before(items, i + 1),
            b.len() - data_before(items, i),
        ) == (#[trigger] items[i]).data
}

/// Whether everything between the array of the first `n` items and their data
/// is zero.
pub open spec fn gap_is_zero(b: Seq<u8>, items: Seq<ItemModel>, n: int) -> bool {
    forall|j: int|
        LEAF_DATA_OFFSET + n * ITEM_SIZE <= j < b.len() - data_before(items, n) ==> #[trigger] b[j]
            == 0
}

/// Whether the first `n` items stand in the block `b`, data included, and
/// everything between their array and their data is zero.
pub open spec fn holds_items(b: Seq<u8>, items: Seq<ItemModel>, n: int) -> bool {
    &&& lists_items(b, items, n)
    &&& holds_data(b, items, n)
    &&& gap_is_zero(b, items, n)
}

/// Whether `b` is the leaf that holds `items` under the identity `id`. This
/// fixes every byte: the header, the item array, the item data, and the zeros
/// between the two.
pub open spec fn is_leaf_block(
    b: Seq<u8>,
    sb: SuperblockModel,
    id: BlockIdentity,
    items: Seq<ItemModel>,
) -> bool {
    &&& b.len() == sb.nodesize
    &&& btree::header_of(b) == new_header(
        sb,
        id,
        items.len() as u32,
        b.subrange(CSUM_SIZE as int, b.len() as int),
    )
    &&& holds_items(b, items, items.len() as int)
}

/// The first pair of neighbours that are out of order, at or after position
/// `i`.
pub open spec fn disorder(items: Seq<ItemModel>, i: int) -> Option<ErrorView>
    decreases items.len() - i,
{
    if i < 0 || i + 1 >= items.len() {
        None
    } else if !btree::key_less(items[i].key, items[i + 1].key) {
        Some(
            ErrorView::UnsupportedFeature(
                "leaf items are out of order: "@ + items[i].key.shown() + " is not before "@
                    + items[i + 1].key.shown(),
            ),
        )
    } else {
        disorder(items, i + 1)
    }
}

/// Why `items` cannot be built into one leaf of `nodesize` bytes.
pub open spec fn leaf_refusal(items: Seq<ItemModel>, nodesize: u32) -> Option<ErrorView> {
    if space(items) > nodesize {
        Some(
            ErrorView::UnsupportedFeature(
                text::dec(items.len()) + " items need "@ + text::dec(held(space(items)) as nat)
                    + " bytes and a tree block holds "@ + text::dec(nodesize as nat)
                    + "; splitting a leaf is not implemented"@,
            ),
        )
    } else {
        disorder(items, 0)
    }
}

pub(crate) proof fn lemma_data_monotone(items: Seq<ItemModel>, a: int, b: int)
    requires
        0 <= a <= b <= items.len(),
    ensures
        data_before(items, a) <= data_before(items, b),
    decreases b - a,
{
    if a < b {
        lemma_data_monotone(items, a, b - 1);
    }
}

/// Writing an item's entry makes it readable there.
fn write_entry(block: &mut [u8], at: usize, item: &Item)
    requires
        at + ITEM_SIZE <= old(block)@.len(),
    ensures
        final(block)@.len() == old(block)@.len(),
        btree::item_at(final(block)@, at as int) == *item,
        forall|j: int|
            0 <= j < old(block)@.len() && (j < at || j >= at + ITEM_SIZE) ==>
                #[trigger] final(block)@[j] == old(block)@[j],
{
    assert(at + ITEM_SIZE <= block.len());
    write_key(block, at, &item.key);
    put32(block, at + DISK_KEY_SIZE, item.offset);
    put32(block, at + DISK_KEY_SIZE + 4, item.size);
    proof {
        broadcast use crate::bytes::group_fields;

    }
}

/// A key, in the 17 bytes the on-disk form uses.
fn write_key(block: &mut [u8], at: usize, key: &DiskKey)
    requires
        at + DISK_KEY_SIZE <= old(block)@.len(),
    ensures
        final(block)@.len() == old(block)@.len(),
        chunk::key_at(final(block)@, at as int) == *key,
        forall|j: int|
            0 <= j < old(block)@.len() && (j < at || j >= at + DISK_KEY_SIZE)
                ==> #[trigger] final(block)@[j] == old(block)@[j],
{
    assert(at + DISK_KEY_SIZE <= block.len());
    put64(block, at, key.objectid);
    put8(block, at + 8, key.key_type);
    put64(block, at + 9, key.offset);
    proof {
        broadcast use crate::bytes::group_fields;

    }
}

/// Write the header every tree block opens with, all but its checksum, which
/// covers everything after itself and so has to come last.
fn write_header(block: &mut [u8], sb: &Superblock, id: BlockIdentity, nritems: u32)
    requires
        old(block)@.len() >= HEADER_SIZE,
    ensures
        final(block)@.len() == old(block)@.len(),
        forall|covered: Seq<u8>|
            #![trigger new_header(sb@, id, nritems, covered)]
            ({
                let h = btree::header_of(final(block)@);
                let n = new_header(sb@, id, nritems, covered);
                h == (HeaderModel { csum: h.csum, ..n })
            }),
        forall|j: int|
            HEADER_SIZE <= j < old(block)@.len() ==> #[trigger] final(block)@[j] == old(block)@[j],
{
    let uuid = sb.node_uuid();
    put_bytes(block, header_offsets::FSID, uuid.as_slice());
    put64(block, header_offsets::BYTENR, id.bytenr);
    put64(block, header_offsets::FLAGS, id.flags);
    put_bytes(block, header_offsets::CHUNK_TREE_UUID, id.chunk_tree_uuid.as_slice());
    put64(block, header_offsets::GENERATION, id.generation);
    put64(block, header_offsets::OWNER, id.owner);
    put32(block, header_offsets::NRITEMS, nritems);
    put8(block, header_offsets::LEVEL, id.level);
    proof {
        broadcast use crate::bytes::group_fields;

        let h = btree::header_of(block@);
        assert(h.fsid == uuid@);
        assert(h.chunk_tree_uuid == id.chunk_tree_uuid@);
        assert forall|covered: Seq<u8>|
            #![trigger new_header(sb@, id, nritems, covered)]
            h == (HeaderModel { csum: h.csum, ..new_header(sb@, id, nritems, covered) }) by {
            assert(h =~= HeaderModel { csum: h.csum, ..new_header(sb@, id, nritems, covered) });
        }
    }
}

/// Compute and store the block's checksum. It covers everything after itself,
/// so re-stamping after any later edit is not optional.
pub fn stamp_checksum(block: &mut [u8], sb: &Superblock)
    requires
        old(block)@.len() >= CSUM_SIZE,
    ensures
        final(block)@ == stamped(old(block)@, sb@),
{
    let digest = sb.csum_type.digest(slice_subrange(block, CSUM_SIZE, block.len()));
    put_bytes(block, 0, digest.as_slice());
}

/// `b` with the checksum of everything after its checksum field put into it.
pub open spec fn stamped(b: Seq<u8>, sb: SuperblockModel) -> Seq<u8> {
    bytes::splice(b, 0, sb.csum_type.field(b.subrange(CSUM_SIZE as int, b.len() as int)))
}

/// Equal bytes hold equal items.
proof fn lemma_item_local(a: Seq<u8>, b: Seq<u8>, at: int)
    requires
        0 <= at,
        at + ITEM_SIZE <= a.len(),
        a.len() == b.len(),
        forall|j: int| at <= j < at + ITEM_SIZE ==> a[j] == b[j],
    ensures
        btree::item_at(a, at) == btree::item_at(b, at),
{
    bytes::lemma_u64_local(a, b, at, at);
    bytes::lemma_u64_local(a, b, at + 9, at + 9);
    bytes::lemma_u32_local(a, b, at + 17, at + 17);
    bytes::lemma_u32_local(a, b, at + 21, at + 21);
}

/// Equal bytes hold equal headers, but for the checksum.
proof fn lemma_header_local(a: Seq<u8>, b: Seq<u8>)
    requires
        a.len() == b.len(),
        a.len() >= HEADER_SIZE,
        forall|j: int| CSUM_SIZE <= j < HEADER_SIZE ==> a[j] == b[j],
    ensures
        btree::header_of(a) == (HeaderModel {
            csum: btree::header_of(a).csum,
            ..btree::header_of(b)
        }),
{
    bytes::lemma_u64_local(a, b, header_offsets::BYTENR as int, header_offsets::BYTENR as int);
    bytes::lemma_u64_local(a, b, header_offsets::FLAGS as int, header_offsets::FLAGS as int);
    bytes::lemma_u64_local(
        a,
        b,
        header_offsets::GENERATION as int,
        header_offsets::GENERATION as int,
    );
    bytes::lemma_u64_local(a, b, header_offsets::OWNER as int, header_offsets::OWNER as int);
    bytes::lemma_u32_local(a, b, header_offsets::NRITEMS as int, header_offsets::NRITEMS as int);
    assert(btree::header_of(a) =~= HeaderModel {
        csum: btree::header_of(a).csum,
        ..btree::header_of(b)
    });
}

/// Whether `b` differs from `a` at most where item `n` goes.
spec fn item_written(a: Seq<u8>, b: Seq<u8>, items: Seq<ItemModel>, n: int) -> bool {
    let at: int = LEAF_DATA_OFFSET + n * ITEM_SIZE;
    let from: int = a.len() - data_before(items, n + 1);
    let to: int = a.len() - data_before(items, n);
    forall|j: int|
        0 <= j < a.len() && !(at <= j < at + ITEM_SIZE) && !(from <= j < to) ==> #[trigger] b[j]
            == a[j]
}

proof fn lemma_array_extends(a: Seq<u8>, b: Seq<u8>, items: Seq<ItemModel>, n: int)
    requires
        0 <= n < items.len(),
        a.len() == b.len(),
        space(items) <= a.len(),
        lists_items(a, items, n),
        btree::item_at(b, LEAF_DATA_OFFSET + n * ITEM_SIZE) == entry(items, b.len() as int, n),
        item_written(a, b, items, n),
    ensures
        lists_items(b, items, n + 1),
{
    lemma_data_monotone(items, n + 1, items.len() as int);
    assert forall|i: int| 0 <= i < n + 1 implies #[trigger] btree::item_at(
        b,
        LEAF_DATA_OFFSET + i * ITEM_SIZE,
    ) == entry(items, b.len() as int, i) by {
        if i < n {
            assert(btree::item_at(a, LEAF_DATA_OFFSET + i * ITEM_SIZE) == entry(
                items,
                a.len() as int,
                i,
            ));
            lemma_item_local(b, a, LEAF_DATA_OFFSET + i * ITEM_SIZE);
        }
    }
}

/// Writing item `n` leaves the data of an earlier item where it was.
proof fn lemma_data_kept(a: Seq<u8>, b: Seq<u8>, items: Seq<ItemModel>, n: int, i: int)
    requires
        0 <= i < n < items.len(),
        a.len() == b.len(),
        space(items) <= a.len(),
        item_written(a, b, items, n),
    ensures
        b.subrange(b.len() - data_before(items, i + 1), b.len() - data_before(items, i))
            == a.subrange(a.len() - data_before(items, i + 1), a.len() - data_before(items, i)),
{
    let from: int = a.len() - data_before(items, i + 1);
    let to: int = a.len() - data_before(items, i);
    lemma_data_monotone(items, n + 1, items.len() as int);
    lemma_data_monotone(items, i + 1, n);
    lemma_data_monotone(items, i, i + 1);
    lemma_data_monotone(items, 0, i);
    assert(LEAF_DATA_OFFSET + (n + 1) * ITEM_SIZE <= from <= to <= a.len());
    assert forall|j: int| from <= j < to implies b[j] == a[j] by {}
    assert(b.subrange(from, to) =~= a.subrange(from, to));
}

#[verifier::spinoff_prover]
proof fn lemma_data_extends(a: Seq<u8>, b: Seq<u8>, items: Seq<ItemModel>, n: int)
    requires
        0 <= n < items.len(),
        a.len() == b.len(),
        space(items) <= a.len(),
        holds_data(a, items, n),
        b.subrange(b.len() - data_before(items, n + 1), b.len() - data_before(items, n))
            == items[n].data,
        item_written(a, b, items, n),
    ensures
        holds_data(b, items, n + 1),
{
    assert forall|i: int| 0 <= i < n + 1 implies b.subrange(
        b.len() - data_before(items, i + 1),
        b.len() - data_before(items, i),
    ) == (#[trigger] items[i]).data by {
        if i < n {
            lemma_data_kept(a, b, items, n, i);
            assert(a.subrange(
                a.len() - data_before(items, i + 1),
                a.len() - data_before(items, i),
            ) == items[i].data);
        } else {
            assert(i == n);
        }
    }
}

/// One more item written leaves the items before it as they were.
proof fn lemma_items_extend(a: Seq<u8>, b: Seq<u8>, items: Seq<ItemModel>, n: int)
    requires
        0 <= n < items.len(),
        a.len() == b.len(),
        space(items) <= a.len(),
        holds_items(a, items, n),
        btree::item_at(b, LEAF_DATA_OFFSET + n * ITEM_SIZE) == entry(items, b.len() as int, n),
        b.subrange(b.len() - data_before(items, n + 1), b.len() - data_before(items, n))
            == items[n].data,
        item_written(a, b, items, n),
    ensures
        holds_items(b, items, n + 1),
{
    lemma_array_extends(a, b, items, n);
    lemma_data_extends(a, b, items, n);
    lemma_data_monotone(items, n, n + 1);
    lemma_data_monotone(items, n + 1, items.len() as int);
}

/// Put item `i` into a leaf that holds the items before it.
fn put_item(block: &mut Vec<u8>, Ghost(all): Ghost<Seq<ItemModel>>, i: usize, item: &LeafItem<'_>, data_end: usize)
    requires
        i < all.len(),
        all[i as int] == item@,
        space(all) <= old(block)@.len(),
        old(block)@.len() <= u32::MAX,
        data_end == old(block)@.len() - data_before(all, i as int),
        holds_items(old(block)@, all, i as int),
    ensures
        final(block)@.len() == old(block)@.len(),
        holds_items(final(block)@, all, i + 1),
        forall|j: int|
            0 <= j < HEADER_SIZE ==> #[trigger] final(block)@[j] == old(block)@[j],
{
    let ghost before = block@;
    proof {
        lemma_data_monotone(all, i + 1, all.len() as int);
    }
    let size: usize = item.data.len();
    let at: usize = LEAF_DATA_OFFSET + i * ITEM_SIZE;
    let start: usize = data_end - size;
    let listed = Item {
        key: item.key,
        offset: (start - LEAF_DATA_OFFSET) as u32,
        size: size as u32,
    };
    write_entry(block.as_mut_slice(), at, &listed);
    let ghost middle = block@;
    put_bytes(block.as_mut_slice(), start, item.data);
    proof {
        lemma_item_local(block@, middle, at as int);
        assert(block@.subrange(start as int, data_end as int) =~= all[i as int].data);
        lemma_items_extend(before, block@, all, i as int);
    }
}

/// Stamping a block changes its checksum field and nothing else.
proof fn lemma_stamped_leaf(
    built: Seq<u8>,
    headed: Seq<u8>,
    sb: SuperblockModel,
    id: BlockIdentity,
    all: Seq<ItemModel>,
)
    requires
        built.len() == sb.nodesize,
        space(all) <= built.len(),
        headed.len() == built.len(),
        holds_items(built, all, all.len() as int),
        forall|j: int| 0 <= j < HEADER_SIZE ==> built[j] == headed[j],
        forall|covered: Seq<u8>|
            #![trigger new_header(sb, id, all.len() as u32, covered)]
            btree::header_of(headed) == (HeaderModel {
                csum: btree::header_of(headed).csum,
                ..new_header(sb, id, all.len() as u32, covered)
            }),
    ensures
        is_leaf_block(stamped(built, sb), sb, id, all),
{
    let b = stamped(built, sb);
    let n: int = all.len() as int;
    let covered = built.subrange(CSUM_SIZE as int, built.len() as int);
    assert(b.subrange(CSUM_SIZE as int, b.len() as int) =~= covered);
    lemma_header_local(b, headed);
    assert(btree::header_of(b).csum =~= sb.csum_type.field(covered));
    assert(btree::header_of(b) =~= new_header(sb, id, n as u32, covered));
    assert forall|i: int| 0 <= i < n implies #[trigger] btree::item_at(
        b,
        LEAF_DATA_OFFSET + i * ITEM_SIZE,
    ) == entry(all, b.len() as int, i) by {
        assert(btree::item_at(built, LEAF_DATA_OFFSET + i * ITEM_SIZE) == entry(
            all,
            b.len() as int,
            i,
        ));
        lemma_item_local(b, built, LEAF_DATA_OFFSET + i * ITEM_SIZE);
    }
    assert forall|i: int| 0 <= i < n implies b.subrange(
        b.len() - data_before(all, i + 1),
        b.len() - data_before(all, i),
    ) == (#[trigger] all[i]).data by {
        lemma_data_monotone(all, i + 1, n);
        lemma_data_monotone(all, i, i + 1);
        assert(b.subrange(b.len() - data_before(all, i + 1), b.len() - data_before(all, i))
            =~= built.subrange(b.len() - data_before(all, i + 1), b.len() - data_before(all, i)));
    }
}

/// Build a leaf block.
///
/// `items` must be sorted by key, which is what every search of the tree
/// relies on, and must fit in one block.
pub fn build_leaf(sb: &Superblock, id: BlockIdentity, items: &[LeafItem<'_>]) -> (r: Result<
    Vec<u8>,
>)
    ensures
        match r {
            Ok(block) => leaf_refusal(placed_models(items@), sb.nodesize) is None && is_leaf_block(
                block@,
                sb@,
                id,
                placed_models(items@),
            ),
            Err(e) => leaf_refusal(placed_models(items@), sb.nodesize) == Some(e@),
        },
{
    let nodesize: usize = sb.nodesize as usize;
    let ghost all = placed_models(items@);
    let needed: u64 = space_total(items);
    if needed > sb.nodesize as u64 {
        return Err(
            Error::UnsupportedFeature(
                cat6(
                    Dec(items.len() as u64),
                    Lit(" items need "),
                    Dec(needed),
                    Lit(" bytes and a tree block holds "),
                    Dec(nodesize as u64),
                    Lit("; splitting a leaf is not implemented"),
                ),
            ),
        );
    }
    if let Err(e) = check_order(items) {
        return Err(e);
    }
    let mut block = bytes::zeroed(nodesize);
    write_header(block.as_mut_slice(), sb, id, items.len() as u32);
    let ghost headed = block@;
    let mut data_end: usize = nodesize;
    let mut i: usize = 0;
    while i < items.len()
        invariant
            i <= items@.len(),
            nodesize == sb.nodesize,
            all == placed_models(items@),
            space(all) <= nodesize,
            block@.len() == nodesize,
            data_end == nodesize - data_before(all, i as int),
            forall|j: int| 0 <= j < HEADER_SIZE ==> #[trigger] block@[j] == headed[j],
            holds_items(block@, all, i as int),
        decreases items@.len() - i,
    {
        proof {
            lemma_data_monotone(all, i + 1, all.len() as int);
        }
        put_item(&mut block, Ghost(all), i, &items[i], data_end);
        data_end = data_end - items[i].data.len();
        i = i + 1;
    }
    proof {
        lemma_stamped_leaf(block@, headed, sb@, id, all);
    }
    stamp_checksum(block.as_mut_slice(), sb);
    Ok(block)
}

/// Refuse items that are not in strictly ascending key order.
fn check_order(items: &[LeafItem<'_>]) -> (r: Result<()>)
    ensures
        match r {
            Ok(()) => disorder(placed_models(items@), 0) is None,
            Err(e) => disorder(placed_models(items@), 0) == Some(e@),
        },
{
    let ghost all = placed_models(items@);
    if items.len() == 0 {
        return Ok(());
    }
    let last: usize = items.len() - 1;
    let mut i: usize = 0;
    while i < last
        invariant
            i <= last,
            last == items@.len() - 1,
            all == placed_models(items@),
            disorder(all, 0) == disorder(all, i as int),
        decreases last - i,
    {
        if !key_before(&items[i].key, &items[i + 1].key) {
            let first = items[i].key.show();
            let second = items[i + 1].key.show();
            return Err(
                Error::UnsupportedFeature(
                    cat4(
                        Lit("leaf items are out of order: "),
                        Lit(first.as_str()),
                        Lit(" is not before "),
                        Lit(second.as_str()),
                    ),
                ),
            );
        }
        i = i + 1;
    }
    Ok(())
}

/// The first pair of neighbouring children that are out of order, at or after
/// position `i`.
pub open spec fn ptr_disorder(ptrs: Seq<KeyPtr>, i: int) -> Option<ErrorView>
    decreases ptrs.len() - i,
{
    if i < 0 || i + 1 >= ptrs.len() {
        None
    } else if !btree::key_less(ptrs[i].key, ptrs[i + 1].key) {
        Some(
            ErrorView::UnsupportedFeature(
                "node keys are out of order: "@ + ptrs[i].key.shown() + " is not before "@
                    + ptrs[i + 1].key.shown(),
            ),
        )
    } else {
        ptr_disorder(ptrs, i + 1)
    }
}

/// Why `ptrs` cannot be built into one node of `nodesize` bytes.
pub open spec fn node_refusal(ptrs: Seq<KeyPtr>, nodesize: u32) -> Option<ErrorView> {
    let needed: nat = HEADER_SIZE as nat + ptrs.len() * (KEY_PTR_SIZE as nat);
    if needed > nodesize {
        Some(
            ErrorView::UnsupportedFeature(
                text::dec(ptrs.len()) + " key pointers need "@ + text::dec(held(needed) as nat)
                    + " bytes and a tree block holds "@ + text::dec(nodesize as nat)
                    + "; splitting a node is not implemented"@,
            ),
        )
    } else {
        ptr_disorder(ptrs, 0)
    }
}

/// Whether the pointer array of the block `b` lists the first `n` of `ptrs`.
pub open spec fn lists_ptrs(b: Seq<u8>, ptrs: Seq<KeyPtr>, n: int) -> bool {
    forall|i: int|
        0 <= i < n ==> #[trigger] btree::key_ptr_at(b, HEADER_SIZE + i * KEY_PTR_SIZE) == ptrs[i]
}

/// Whether `b` is the node that points at `ptrs` under the identity `id`. This
/// fixes every byte: the header, the pointer array, and the zeros behind it.
pub open spec fn is_node_block(
    b: Seq<u8>,
    sb: SuperblockModel,
    id: BlockIdentity,
    ptrs: Seq<KeyPtr>,
) -> bool {
    &&& b.len() == sb.nodesize
    &&& btree::header_of(b) == new_header(
        sb,
        id,
        ptrs.len() as u32,
        b.subrange(CSUM_SIZE as int, b.len() as int),
    )
    &&& lists_ptrs(b, ptrs, ptrs.len() as int)
    &&& forall|j: int| HEADER_SIZE + ptrs.len() * KEY_PTR_SIZE <= j < b.len() ==> #[trigger] b[j] == 0
}

/// Equal bytes hold equal key pointers.
proof fn lemma_ptr_local(a: Seq<u8>, b: Seq<u8>, at: int)
    requires
        0 <= at,
        at + KEY_PTR_SIZE <= a.len(),
        a.len() == b.len(),
        forall|j: int| at <= j < at + KEY_PTR_SIZE ==> a[j] == b[j],
    ensures
        btree::key_ptr_at(a, at) == btree::key_ptr_at(b, at),
{
    bytes::lemma_u64_local(a, b, at, at);
    bytes::lemma_u64_local(a, b, at + 9, at + 9);
    bytes::lemma_u64_local(a, b, at + 17, at + 17);
    bytes::lemma_u64_local(a, b, at + 25, at + 25);
}

/// Writing a key pointer makes it readable there.
fn write_ptr(block: &mut [u8], at: usize, ptr: &KeyPtr)
    requires
        at + KEY_PTR_SIZE <= old(block)@.len(),
    ensures
        final(block)@.len() == old(block)@.len(),
        btree::key_ptr_at(final(block)@, at as int) == *ptr,
        forall|j: int|
            0 <= j < old(block)@.len() && (j < at || j >= at + KEY_PTR_SIZE) ==>
                #[trigger] final(block)@[j] == old(block)@[j],
{
    assert(at + KEY_PTR_SIZE <= block.len());
    write_key(block, at, &ptr.key);
    put64(block, at + DISK_KEY_SIZE, ptr.blockptr);
    put64(block, at + DISK_KEY_SIZE + 8, ptr.generation);
    proof {
        broadcast use crate::bytes::group_fields;

    }
}

/// Put child `i` into a node that lists the children before it.
fn put_ptr(block: &mut Vec<u8>, Ghost(all): Ghost<Seq<KeyPtr>>, i: usize, ptr: &KeyPtr)
    requires
        i < all.len(),
        all[i as int] == *ptr,
        HEADER_SIZE + all.len() * KEY_PTR_SIZE <= old(block)@.len(),
        lists_ptrs(old(block)@, all, i as int),
        forall|j: int|
            HEADER_SIZE + i * KEY_PTR_SIZE <= j < old(block)@.len() ==> #[trigger] old(block)@[j]
                == 0,
    ensures
        final(block)@.len() == old(block)@.len(),
        lists_ptrs(final(block)@, all, i + 1),
        forall|j: int|
            HEADER_SIZE + (i + 1) * KEY_PTR_SIZE <= j < final(block)@.len() ==>
                #[trigger] final(block)@[j] == 0,
        forall|j: int| 0 <= j < HEADER_SIZE ==> #[trigger] final(block)@[j] == old(block)@[j],
{
    let ghost before = block@;
    assert(block@.len() == block.len());
    let at: usize = HEADER_SIZE + i * KEY_PTR_SIZE;
    write_ptr(block.as_mut_slice(), at, ptr);
    assert forall|k: int| 0 <= k < i + 1 implies #[trigger] btree::key_ptr_at(
        block@,
        HEADER_SIZE + k * KEY_PTR_SIZE,
    ) == all[k] by {
        if k < i {
            assert(btree::key_ptr_at(before, HEADER_SIZE + k * KEY_PTR_SIZE) == all[k]);
            lemma_ptr_local(block@, before, HEADER_SIZE + k * KEY_PTR_SIZE);
        }
    }
}

/// Stamping a block changes its checksum field and nothing else.
proof fn lemma_stamped_node(
    built: Seq<u8>,
    headed: Seq<u8>,
    sb: SuperblockModel,
    id: BlockIdentity,
    all: Seq<KeyPtr>,
)
    requires
        built.len() == sb.nodesize,
        HEADER_SIZE + all.len() * KEY_PTR_SIZE <= built.len(),
        headed.len() == built.len(),
        lists_ptrs(built, all, all.len() as int),
        forall|j: int|
            HEADER_SIZE + all.len() * KEY_PTR_SIZE <= j < built.len() ==> #[trigger] built[j] == 0,
        forall|j: int| 0 <= j < HEADER_SIZE ==> built[j] == headed[j],
        forall|covered: Seq<u8>|
            #![trigger new_header(sb, id, all.len() as u32, covered)]
            btree::header_of(headed) == (HeaderModel {
                csum: btree::header_of(headed).csum,
                ..new_header(sb, id, all.len() as u32, covered)
            }),
    ensures
        is_node_block(stamped(built, sb), sb, id, all),
{
    let b = stamped(built, sb);
    let n: int = all.len() as int;
    let covered = built.subrange(CSUM_SIZE as int, built.len() as int);
    assert(b.subrange(CSUM_SIZE as int, b.len() as int) =~= covered);
    lemma_header_local(b, headed);
    assert(btree::header_of(b).csum =~= sb.csum_type.field(covered));
    assert(btree::header_of(b) =~= new_header(sb, id, n as u32, covered));
    assert forall|i: int| 0 <= i < n implies #[trigger] btree::key_ptr_at(
        b,
        HEADER_SIZE + i * KEY_PTR_SIZE,
    ) == all[i] by {
        assert(btree::key_ptr_at(built, HEADER_SIZE + i * KEY_PTR_SIZE) == all[i]);
        lemma_ptr_local(b, built, HEADER_SIZE + i * KEY_PTR_SIZE);
    }
}

/// Build an internal node.
///
/// `ptrs` must be sorted by key and must fit in one block.
pub fn build_node(sb: &Superblock, id: BlockIdentity, ptrs: &[KeyPtr]) -> (r: Result<Vec<u8>>)
    ensures
        match r {
            Ok(block) => node_refusal(ptrs@, sb.nodesize) is None && is_node_block(
                block@,
                sb@,
                id,
                ptrs@,
            ),
            Err(e) => node_refusal(ptrs@, sb.nodesize) == Some(e@),
        },
{
    let nodesize: usize = sb.nodesize as usize;
    let mut needed: u64 = HEADER_SIZE as u64;
    let mut i: usize = 0;
    while i < ptrs.len()
        invariant
            i <= ptrs@.len(),
            needed == held(HEADER_SIZE as nat + i as nat * (KEY_PTR_SIZE as nat)),
        decreases ptrs@.len() - i,
    {
        needed = needed.saturating_add(KEY_PTR_SIZE as u64);
        i = i + 1;
    }
    if needed > sb.nodesize as u64 {
        return Err(
            Error::UnsupportedFeature(
                cat6(
                    Dec(ptrs.len() as u64),
                    Lit(" key pointers need "),
                    Dec(needed),
                    Lit(" bytes and a tree block holds "),
                    Dec(nodesize as u64),
                    Lit("; splitting a node is not implemented"),
                ),
            ),
        );
    }
    if let Err(e) = check_ptr_order(ptrs) {
        return Err(e);
    }
    let mut block = bytes::zeroed(nodesize);
    write_header(block.as_mut_slice(), sb, id, ptrs.len() as u32);
    let ghost headed = block@;
    let mut i: usize = 0;
    while i < ptrs.len()
        invariant
            i <= ptrs@.len(),
            nodesize == sb.nodesize,
            HEADER_SIZE + ptrs@.len() * KEY_PTR_SIZE <= nodesize,
            block@.len() == nodesize,
            forall|j: int| 0 <= j < HEADER_SIZE ==> #[trigger] block@[j] == headed[j],
            lists_ptrs(block@, ptrs@, i as int),
            forall|j: int|
                HEADER_SIZE + i * KEY_PTR_SIZE <= j < block@.len() ==> #[trigger] block@[j] == 0,
        decreases ptrs@.len() - i,
    {
        put_ptr(&mut block, Ghost(ptrs@), i, &ptrs[i]);
        i = i + 1;
    }
    proof {
        lemma_stamped_node(block@, headed, sb@, id, ptrs@);
    }
    stamp_checksum(block.as_mut_slice(), sb);
    Ok(block)
}

/// Refuse children that are not in strictly ascending key order.
fn check_ptr_order(ptrs: &[KeyPtr]) -> (r: Result<()>)
    ensures
        match r {
            Ok(()) => ptr_disorder(ptrs@, 0) is None,
            Err(e) => ptr_disorder(ptrs@, 0) == Some(e@),
        },
{
    if ptrs.len() == 0 {
        return Ok(());
    }
    let last: usize = ptrs.len() - 1;
    let mut i: usize = 0;
    while i < last
        invariant
            i <= last,
            last == ptrs@.len() - 1,
            ptr_disorder(ptrs@, 0) == ptr_disorder(ptrs@, i as int),
        decreases last - i,
    {
        if !key_before(&ptrs[i].key, &ptrs[i + 1].key) {
            let first = ptrs[i].key.show();
            let second = ptrs[i + 1].key.show();
            return Err(
                Error::UnsupportedFeature(
                    cat4(
                        Lit("node keys are out of order: "),
                        Lit(first.as_str()),
                        Lit(" is not before "),
                        Lit(second.as_str()),
                    ),
                ),
            );
        }
        i = i + 1;
    }
    Ok(())
}

proof fn lemma_ordered_pair(items: Seq<ItemModel>, from: int, i: int)
    requires
        0 <= from <= i,
        i + 1 < items.len(),
        disorder(items, from) is None,
    ensures
        btree::key_less(items[i].key, items[i + 1].key),
    decreases i - from,
{
    if from < i {
        lemma_ordered_pair(items, from + 1, i);
    }
}

proof fn lemma_ordered_ptrs(ptrs: Seq<KeyPtr>, from: int, i: int)
    requires
        0 <= from <= i,
        i + 1 < ptrs.len(),
        ptr_disorder(ptrs, from) is None,
    ensures
        btree::key_less(ptrs[i].key, ptrs[i + 1].key),
    decreases i - from,
{
    if from < i {
        lemma_ordered_ptrs(ptrs, from + 1, i);
    }
}

/// The entries of a leaf that was built pass every check a leaf's items face.
proof fn lemma_entries_pass(items: Seq<ItemModel>, nodesize: int, logical: u64, i: int)
    requires
        0 <= i <= items.len(),
        space(items) <= nodesize <= u32::MAX,
        disorder(items, 0) is None,
    ensures
        btree::items_error(
            Seq::new(items.len(), |k: int| entry(items, nodesize, k)),
            logical,
            nodesize - LEAF_DATA_OFFSET,
            nodesize - LEAF_DATA_OFFSET - data_before(items, i),
            i,
        ) is None,
    decreases items.len() - i,
{
    let list = Seq::new(items.len(), |k: int| entry(items, nodesize, k));
    if i < items.len() {
        lemma_data_monotone(items, i + 1, items.len() as int);
        lemma_data_monotone(items, i, items.len() as int);
        assert(list[i] == entry(items, nodesize, i));
        if i > 0 {
            lemma_ordered_pair(items, 0, i - 1);
            assert(list[i - 1] == entry(items, nodesize, i - 1));
        }
        lemma_entries_pass(items, nodesize, logical, i + 1);
    }
}

/// The item array of a leaf that was built lists its items.
proof fn lemma_array_of_leaf(b: Seq<u8>, items: Seq<ItemModel>)
    requires
        btree::header_of(b).nritems == items.len(),
        lists_items(b, items, items.len() as int),
    ensures
        btree::leaf_items(b) == Seq::new(items.len(), |k: int| entry(items, b.len() as int, k)),
{
    let list = btree::leaf_items(b);
    assert forall|i: int| 0 <= i < items.len() implies #[trigger] list[i] == entry(
        items,
        b.len() as int,
        i,
    ) by {
        assert(btree::item_at(b, LEAF_DATA_OFFSET + i * ITEM_SIZE) == entry(
            items,
            b.len() as int,
            i,
        ));
    }
    assert(list =~= Seq::new(items.len(), |k: int| entry(items, b.len() as int, k)));
}

/// The data of a leaf that was built is its items' data.
proof fn lemma_contents_of_leaf(b: Seq<u8>, items: Seq<ItemModel>)
    requires
        btree::leaf_items(b) == Seq::new(items.len(), |k: int| entry(items, b.len() as int, k)),
        space(items) <= b.len() <= u32::MAX,
        holds_data(b, items, items.len() as int),
    ensures
        btree::leaf_contents(b) == items,
{
    let list = btree::leaf_items(b);
    let contents = btree::leaf_contents(b);
    assert forall|i: int| 0 <= i < items.len() implies #[trigger] contents[i] == items[i] by {
        lemma_data_monotone(items, i + 1, items.len() as int);
        assert(items[i].data.len() == data_before(items, i + 1) - data_before(items, i));
        assert(list[i] == entry(items, b.len() as int, i));
        assert(btree::item_bytes(b, list[i]) == items[i].data);
        assert(contents[i] =~= items[i]);
    }
    assert(contents =~= items);
}

/// A leaf that was built reads back: at the address it was built for it passes
/// every check a tree block faces, and holds exactly the items it was built
/// from.
pub proof fn law_built_leaf_reads_back(
    b: Seq<u8>,
    sb: SuperblockModel,
    id: BlockIdentity,
    items: Seq<ItemModel>,
)
    requires
        is_leaf_block(b, sb, id, items),
        leaf_refusal(items, sb.nodesize) is None,
        id.level == 0,
    ensures
        btree::block_error(
            b,
            id.bytenr,
            btree::geometry_of(sb),
            btree::block_intact(b, btree::geometry_of(sb)),
        ) is None,
        btree::leaf_contents(b) == items,
        btree::header_of(b).owner == id.owner,
        btree::header_of(b).generation == id.generation,
{
    lemma_data_monotone(items, 0, items.len() as int);
    lemma_array_of_leaf(b, items);
    lemma_entries_pass(items, b.len() as int, id.bytenr, 0);
    lemma_contents_of_leaf(b, items);
}

proof fn lemma_ptrs_pass(ptrs: Seq<KeyPtr>, logical: u64, i: int)
    requires
        0 <= i <= ptrs.len(),
        ptr_disorder(ptrs, 0) is None,
        forall|k: int| 0 <= k < ptrs.len() ==> (#[trigger] ptrs[k]).blockptr != 0,
    ensures
        btree::ptrs_error(ptrs, logical, i) is None,
    decreases ptrs.len() - i,
{
    if i < ptrs.len() {
        if i > 0 {
            lemma_ordered_ptrs(ptrs, 0, i - 1);
        }
        lemma_ptrs_pass(ptrs, logical, i + 1);
    }
}

/// A node that was built reads back: at the address it was built for it passes
/// every check a tree block faces, and points at exactly the children it was
/// built from.
pub proof fn law_built_node_reads_back(
    b: Seq<u8>,
    sb: SuperblockModel,
    id: BlockIdentity,
    ptrs: Seq<KeyPtr>,
)
    requires
        is_node_block(b, sb, id, ptrs),
        node_refusal(ptrs, sb.nodesize) is None,
        0 < id.level < crate::superblock::MAX_LEVEL,
        ptrs.len() > 0,
        forall|k: int| 0 <= k < ptrs.len() ==> (#[trigger] ptrs[k]).blockptr != 0,
    ensures
        btree::block_error(
            b,
            id.bytenr,
            btree::geometry_of(sb),
            btree::block_intact(b, btree::geometry_of(sb)),
        ) is None,
        btree::node_ptrs(b) == ptrs,
        btree::header_of(b).level == id.level,
        btree::header_of(b).owner == id.owner,
        btree::header_of(b).generation == id.generation,
{
    let list = btree::node_ptrs(b);
    assert forall|i: int| 0 <= i < ptrs.len() implies #[trigger] list[i] == ptrs[i] by {
        assert(btree::key_ptr_at(b, HEADER_SIZE + i * KEY_PTR_SIZE) == ptrs[i]);
    }
    assert(list =~= ptrs);
    lemma_ptrs_pass(ptrs, id.bytenr, 0);
}

/// A stamped block verifies, whatever its contents.
pub proof fn law_stamped_block_is_intact(b: Seq<u8>, sb: SuperblockModel)
    requires
        b.len() == sb.nodesize,
        b.len() >= HEADER_SIZE,
    ensures
        btree::block_intact(stamped(b, sb), btree::geometry_of(sb)),
{
    let s = stamped(b, sb);
    assert(s.subrange(CSUM_SIZE as int, s.len() as int) =~= b.subrange(
        CSUM_SIZE as int,
        b.len() as int,
    ));
    assert(btree::header_of(s).csum =~= sb.csum_type.field(
        b.subrange(CSUM_SIZE as int, b.len() as int),
    ));
}

} // verus!
