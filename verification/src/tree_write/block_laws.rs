//! Where the bytes of a built tree block stand, and what is built at all.

use vstd::prelude::*;

use crate::btree;
use crate::btree::{ItemModel, KeyPtr};
use crate::bytes;
use crate::leaf_edit::edit_laws;
use crate::superblock::SuperblockModel;
use crate::tree_write;
use crate::tree_write::BlockIdentity;

verus! {

/// Whether the first 101 bytes of a block are those of one of `n` entries
/// under the identity `id`, on the filesystem of `sb`.
pub open spec fn headed(b: Seq<u8>, sb: SuperblockModel, id: BlockIdentity, n: nat) -> bool {
    &&& b.len() == sb.nodesize
    &&& b.subrange(0, 32) == sb.csum_type.field(b.skip(32))
    &&& b.subrange(32, 48) == (if sb.incompat_flags & 0x400 != 0 {
        sb.metadata_uuid
    } else {
        sb.fsid
    })
    &&& bytes::u64_at(b, 48) == id.bytenr
    &&& bytes::u64_at(b, 56) == id.flags
    &&& b.subrange(64, 80) == id.chunk_tree_uuid@
    &&& bytes::u64_at(b, 80) == id.generation
    &&& bytes::u64_at(b, 88) == id.owner
    &&& bytes::u32_at(b, 96) == n
    &&& b[100] == id.level
}

proof fn lemma_leaf_header(
    b: Seq<u8>,
    sb: SuperblockModel,
    id: BlockIdentity,
    items: Seq<ItemModel>,
)
    requires
        tree_write::is_leaf_block(b, sb, id, items),
        tree_write::leaf_refusal(items, sb.nodesize) is None,
    ensures
        headed(b, sb, id, items.len()),
{
    assert(b.subrange(32, b.len() as int) =~= b.skip(32));
}

/// Where the data of item `i` starts, past the header.
spec fn data_start(b: Seq<u8>, items: Seq<ItemModel>, i: int) -> int {
    b.len() - 101 - tree_write::data_before(items, i + 1)
}

proof fn lemma_entry(b: Seq<u8>, items: Seq<ItemModel>, i: int, p: int)
    requires
        tree_write::lists_items(b, items, items.len() as int),
        tree_write::space(items) <= b.len() <= u32::MAX,
        0 <= i < items.len(),
        p == 101 + 25 * i,
    ensures
        bytes::u64_at(b, p) == items[i].key.objectid,
        b[p + 8] == items[i].key.key_type,
        bytes::u64_at(b, p + 9) == items[i].key.offset,
        bytes::u32_at(b, p + 17) == data_start(b, items, i),
        bytes::u32_at(b, p + 21) == items[i].data.len(),
        25 * items.len() <= data_start(b, items, i),
        i == 0 ==> data_start(b, items, i) + items[i].data.len() == b.len() - 101,
        i > 0 ==> data_start(b, items, i) + items[i].data.len() == data_start(b, items, i - 1),
{
    tree_write::lemma_data_monotone(items, i, i + 1);
    tree_write::lemma_data_monotone(items, i + 1, items.len() as int);
    assert(btree::item_at(b, 101 + i * 25) == tree_write::entry(items, b.len() as int, i));
    assert(tree_write::data_before(items, 0) == 0);
}

proof fn lemma_data(b: Seq<u8>, items: Seq<ItemModel>, i: int)
    requires
        tree_write::holds_data(b, items, items.len() as int),
        0 <= i < items.len(),
    ensures
        ({
            let at: int = 101 + data_start(b, items, i);
            b.subrange(at, at + items[i].data.len()) == items[i].data
        }),
{
    assert(tree_write::data_before(items, i + 1) == tree_write::data_before(items, i)
        + items[i].data.len());
}

proof fn lemma_gap(b: Seq<u8>, items: Seq<ItemModel>)
    requires
        tree_write::gap_is_zero(b, items, items.len() as int),
        items.len() > 0,
    ensures
        forall|j: int|
            101 + 25 * items.len() <= j < 101 + data_start(b, items, items.len() - 1)
                ==> #[trigger] b[j] == 0,
{
}

/// A built leaf has its header in the first 101 bytes, then 25 bytes for each
/// item in order: its key, where its data starts past the header and how long
/// it is. The data stands at the end, the first item's last, with zeros in
/// between.
pub proof fn law_a_built_leaf_is_laid_out(
    b: Seq<u8>,
    sb: SuperblockModel,
    id: BlockIdentity,
    items: Seq<ItemModel>,
    i: int,
)
    requires
        tree_write::is_leaf_block(b, sb, id, items),
        tree_write::leaf_refusal(items, sb.nodesize) is None,
        0 <= i < items.len(),
    ensures
        headed(b, sb, id, items.len()),
        bytes::u64_at(b, 101 + 25 * i) == items[i].key.objectid,
        b[101 + 25 * i + 8] == items[i].key.key_type,
        bytes::u64_at(b, 101 + 25 * i + 9) == items[i].key.offset,
        ({
            let at: int = 101 + bytes::u32_at(b, 101 + 25 * i + 17);
            let len: int = bytes::u32_at(b, 101 + 25 * i + 21) as int;
            let end: int = if i == 0 {
                b.len() as int
            } else {
                101 + bytes::u32_at(b, 101 + 25 * (i - 1) + 17)
            };
            &&& len == items[i].data.len()
            &&& at + len == end
            &&& 101 + 25 * items.len() <= at
            &&& b.subrange(at, at + len) == items[i].data
            &&& i == items.len() - 1 ==> forall|j: int|
                101 + 25 * items.len() <= j < at ==> #[trigger] b[j] == 0
        }),
{
    let n: int = items.len() as int;
    let p: int = 101 + 25 * i;
    lemma_leaf_header(b, sb, id, items);
    lemma_entry(b, items, i, p);
    lemma_data(b, items, i);
    if i > 0 {
        lemma_entry(b, items, i - 1, 101 + 25 * (i - 1));
    }
    if i == n - 1 {
        lemma_gap(b, items);
    }
}

/// A built node has its header in the first 101 bytes, then 33 bytes for each
/// child in order: the key it starts at, its address and its generation. What
/// is left is zeros.
pub proof fn law_a_built_node_is_laid_out(
    b: Seq<u8>,
    sb: SuperblockModel,
    id: BlockIdentity,
    ptrs: Seq<KeyPtr>,
    i: int,
)
    requires
        tree_write::is_node_block(b, sb, id, ptrs),
        tree_write::node_refusal(ptrs, sb.nodesize) is None,
        0 <= i < ptrs.len(),
    ensures
        headed(b, sb, id, ptrs.len()),
        bytes::u64_at(b, 101 + 33 * i) == ptrs[i].key.objectid,
        b[101 + 33 * i + 8] == ptrs[i].key.key_type,
        bytes::u64_at(b, 101 + 33 * i + 9) == ptrs[i].key.offset,
        bytes::u64_at(b, 101 + 33 * i + 17) == ptrs[i].blockptr,
        bytes::u64_at(b, 101 + 33 * i + 25) == ptrs[i].generation,
        forall|j: int| 101 + 33 * ptrs.len() <= j < b.len() ==> #[trigger] b[j] == 0,
{
    assert(b.subrange(32, b.len() as int) =~= b.skip(32));
    assert(btree::key_ptr_at(b, 101 + i * 33) == ptrs[i]);
}

proof fn lemma_in_order(items: Seq<ItemModel>, from: int)
    requires
        0 <= from,
    ensures
        tree_write::disorder(items, from) is None <==> forall|i: int|
            from <= i && i + 1 < items.len() ==> btree::key_less(
                (#[trigger] items[i]).key,
                items[i + 1].key,
            ),
    decreases items.len() - from,
{
    if from + 1 < items.len() {
        lemma_in_order(items, from + 1);
    }
}

proof fn lemma_ptrs_in_order(ptrs: Seq<KeyPtr>, from: int)
    requires
        0 <= from,
    ensures
        tree_write::ptr_disorder(ptrs, from) is None <==> forall|i: int|
            from <= i && i + 1 < ptrs.len() ==> btree::key_less(
                (#[trigger] ptrs[i]).key,
                ptrs[i + 1].key,
            ),
    decreases ptrs.len() - from,
{
    if from + 1 < ptrs.len() {
        lemma_ptrs_in_order(ptrs, from + 1);
    }
}

/// A leaf is built exactly of items whose keys ascend and that fit in a block,
/// and a node exactly of children whose keys ascend and that fit in one.
pub proof fn law_what_fits_in_order_is_built(
    items: Seq<ItemModel>,
    ptrs: Seq<KeyPtr>,
    nodesize: u32,
)
    ensures
        tree_write::leaf_refusal(items, nodesize) is None <==> edit_laws::need(items) <= nodesize
            && forall|i: int|
            0 <= i && i + 1 < items.len() ==> btree::key_less(
                (#[trigger] items[i]).key,
                items[i + 1].key,
            ),
        tree_write::node_refusal(ptrs, nodesize) is None <==> 101 + 33 * ptrs.len() <= nodesize
            && forall|i: int|
            0 <= i && i + 1 < ptrs.len() ==> btree::key_less(
                (#[trigger] ptrs[i]).key,
                ptrs[i + 1].key,
            ),
{
    edit_laws::lemma_need(items);
    lemma_in_order(items, 0);
    lemma_ptrs_in_order(ptrs, 0);
}

} // verus!
