//! Where a tree block keeps what it holds, when it is taken for one, and what
//! a walk meets.

use vstd::prelude::*;

use crate::btree;
use crate::btree::{GeometryModel, Image, Item, ItemModel, KeyPtr};
use crate::bytes;
use crate::chunk::DiskKey;
use crate::superblock;
use crate::superblock::layout_laws as super_laws;

verus! {

/// Keys go by their objectid first, then by their type, then by their offset.
pub proof fn law_keys_go_by_objectid_type_and_offset(a: DiskKey, b: DiskKey)
    ensures
        a.objectid < b.objectid ==> btree::key_less(a, b),
        a.objectid == b.objectid && a.key_type < b.key_type ==> btree::key_less(a, b),
        a.objectid == b.objectid && a.key_type == b.key_type ==> (btree::key_less(a, b) <==> a.offset
            < b.offset),
        btree::key_less(a, b) ==> !btree::key_less(b, a),
{
}

/// The key at position `at`: 8 bytes of objectid, one of type, 8 of offset.
pub open spec fn key(b: Seq<u8>, at: int) -> DiskKey {
    DiskKey {
        objectid: bytes::u64_at(b, at),
        key_type: b[at + 8],
        offset: bytes::u64_at(b, at + 9),
    }
}

/// How many items or children a block says it has.
pub open spec fn count(b: Seq<u8>) -> int {
    bytes::u32_at(b, 96) as int
}

/// Where the data of item `i` of a leaf starts, behind the header.
pub open spec fn data_at(b: Seq<u8>, i: int) -> int {
    bytes::u32_at(b, 101 + 25 * i + 17) as int
}

/// How long the data of item `i` of a leaf is.
pub open spec fn data_len(b: Seq<u8>, i: int) -> int {
    bytes::u32_at(b, 101 + 25 * i + 21) as int
}

/// Item `i` of a leaf: its key in the array behind the header, and its data
/// where the array says.
pub open spec fn entry(b: Seq<u8>, i: int) -> ItemModel {
    ItemModel {
        key: key(b, 101 + 25 * i),
        data: b.subrange(101 + data_at(b, i), 101 + data_at(b, i) + data_len(b, i)),
    }
}

/// Where child `k` of a node lies.
pub open spec fn child(b: Seq<u8>, k: int) -> u64 {
    bytes::u64_at(b, 101 + 33 * k + 17)
}

/// The items of a leaf are its entries, and the children of a node its key
/// pointers, one behind the other.
pub proof fn law_a_block_holds_what_it_lists(b: Seq<u8>)
    ensures
        btree::leaf_contents(b).len() == count(b),
        forall|i: int|
            0 <= i < count(b) ==> #[trigger] btree::leaf_contents(b)[i] == entry(b, i),
        btree::node_ptrs(b).len() == count(b),
        forall|k: int|
            0 <= k < count(b) ==> (#[trigger] btree::node_ptrs(b)[k]).key == key(b, 101 + 33 * k)
                && btree::node_ptrs(b)[k].blockptr == child(b, k)
                && btree::node_ptrs(b)[k].generation == bytes::u64_at(b, 101 + 33 * k + 25),
{
    assert forall|i: int| 0 <= i < count(b) implies #[trigger] btree::leaf_contents(b)[i] == entry(
        b,
        i,
    ) by {
        assert(btree::LEAF_DATA_OFFSET + i * btree::ITEM_SIZE == 101 + 25 * i);
        assert(btree::leaf_items(b)[i] == btree::item_at(b, 101 + 25 * i));
    }
    assert forall|k: int| 0 <= k < count(b) implies (#[trigger] btree::node_ptrs(b)[k]).key == key(
        b,
        101 + 33 * k,
    ) && btree::node_ptrs(b)[k].blockptr == child(b, k) && btree::node_ptrs(b)[k].generation
        == bytes::u64_at(b, 101 + 33 * k + 25) by {
        assert(btree::HEADER_SIZE + k * btree::KEY_PTR_SIZE == 101 + 33 * k);
    }
}

/// Where the data of item `i` of a leaf has to end, behind the header: where
/// that of the item before it starts, and for the first at the end of the
/// block.
pub open spec fn data_end(b: Seq<u8>, i: int) -> int {
    if i == 0 {
        b.len() - 101
    } else {
        data_at(b, i - 1)
    }
}

/// Whether the contents of a leaf can be: its items are in key order and their
/// data lies end to end, up to the end of the block and behind the array.
pub open spec fn good_leaf(b: Seq<u8>) -> bool {
    &&& 101 + 25 * count(b) <= b.len()
    &&& forall|i: int|
        0 <= i < count(b) ==> 25 * count(b) <= #[trigger] data_at(b, i) && data_at(b, i) + data_len(
            b,
            i,
        ) == data_end(b, i)
    &&& forall|i: int|
        0 < i < count(b) ==> btree::key_less(
            (#[trigger] entry(b, i - 1)).key,
            entry(b, i).key,
        )
}

/// Whether the contents of a node can be: it has children, none of them at
/// address zero, and their keys ascend.
pub open spec fn good_node(b: Seq<u8>) -> bool {
    &&& 0 < count(b)
    &&& 101 + 33 * count(b) <= b.len()
    &&& forall|k: int| 0 <= k < count(b) ==> #[trigger] child(b, k) != 0
    &&& forall|k: int|
        0 < k < count(b) ==> btree::key_less(
            #[trigger] key(b, 101 + 33 * (k - 1)),
            key(b, 101 + 33 * k),
        )
}

/// Whether `b` is a tree block of the volume that lies at `at`: as long as
/// its nodes are, sealed by its checksum, with its own address and the
/// volume's UUID in its header, not too high, and with contents that can be.
pub open spec fn good_block(b: Seq<u8>, geom: GeometryModel, at: u64) -> bool {
    &&& b.len() == geom.nodesize
    &&& b.len() >= 101
    &&& b.subrange(0, super_laws::digest_size(geom.csum_type)) == superblock::padded(
        geom.csum_type.hash(b.subrange(32, b.len() as int)),
    ).take(super_laws::digest_size(geom.csum_type))
    &&& bytes::u64_at(b, 48) == at
    &&& b.subrange(32, 48) == geom.fsid
    &&& b[100] < 8
    &&& if b[100] == 0 {
        good_leaf(b)
    } else {
        good_node(b)
    }
}

proof fn lemma_items(b: Seq<u8>, at: u64, end: int, i: int)
    requires
        0 <= i,
        end == data_end(b, i),
    ensures
        btree::items_error(btree::leaf_items(b), at, b.len() - 101, end, i) is None <==> (forall|
            j: int,
        |
            i <= j < count(b) ==> 25 * count(b) <= #[trigger] data_at(b, j) && data_at(b, j)
                + data_len(b, j) == data_end(b, j) && data_at(b, j) + data_len(b, j) <= b.len()
                - 101) && (forall|j: int|
            i <= j < count(b) && 0 < j ==> btree::key_less(
                (#[trigger] entry(b, j - 1)).key,
                entry(b, j).key,
            )),
    decreases count(b) - i,
{
    if i < count(b) {
        let items = btree::leaf_items(b);
        assert(btree::LEAF_DATA_OFFSET + i * btree::ITEM_SIZE == 101 + 25 * i);
        assert(items[i] == btree::item_at(b, 101 + 25 * i));
        assert(items[i].offset == data_at(b, i) && items[i].size == data_len(b, i));
        assert(items[i].key == entry(b, i).key);
        if i > 0 {
            assert(btree::LEAF_DATA_OFFSET + (i - 1) * btree::ITEM_SIZE == 101 + 25 * (i - 1));
            assert(items[i - 1] == btree::item_at(b, 101 + 25 * (i - 1)));
            assert(items[i - 1].key == entry(b, i - 1).key);
        }
        lemma_items(b, at, data_at(b, i), i + 1);
    }
}

proof fn lemma_data_inside(b: Seq<u8>, i: int)
    requires
        good_leaf(b),
        0 <= i < count(b),
    ensures
        data_at(b, i) + data_len(b, i) <= b.len() - 101,
    decreases i,
{
    if i > 0 {
        lemma_data_inside(b, i - 1);
    }
}

proof fn lemma_ptrs(b: Seq<u8>, at: u64, i: int)
    requires
        0 <= i,
    ensures
        btree::ptrs_error(btree::node_ptrs(b), at, i) is None <==> (forall|k: int|
            i <= k < count(b) ==> #[trigger] child(b, k) != 0) && (forall|k: int|
            i <= k < count(b) && 0 < k ==> btree::key_less(
                #[trigger] key(b, 101 + 33 * (k - 1)),
                key(b, 101 + 33 * k),
            )),
    decreases count(b) - i,
{
    if i < count(b) {
        law_a_block_holds_what_it_lists(b);
        let ptrs = btree::node_ptrs(b);
        assert(ptrs[i].blockptr == child(b, i));
        assert(ptrs[i].key == key(b, 101 + 33 * i));
        if i > 0 {
            assert(ptrs[i - 1].key == key(b, 101 + 33 * (i - 1)));
        }
        lemma_ptrs(b, at, i + 1);
    }
}

/// A block is accepted exactly where it is a tree block of the volume that
/// lies where it was read from.
pub proof fn law_a_block_is_accepted_where_it_belongs(b: Seq<u8>, geom: GeometryModel, at: u64)
    ensures
        btree::block_error(b, at, geom, btree::block_intact(b, geom)) is None <==> good_block(
            b,
            geom,
            at,
        ),
{
    if b.len() == geom.nodesize && b.len() >= 101 {
        let kind = geom.csum_type;
        let stored = b.subrange(0, 32);
        assert(btree::header_of(b).csum =~= stored);
        assert(stored.take(super_laws::digest_size(kind)) =~= b.subrange(
            0,
            super_laws::digest_size(kind),
        ));
        assert(btree::header_of(b).fsid =~= b.subrange(32, 48));
        if b[100] == 0 {
            lemma_items(b, at, b.len() - 101, 0);
            if good_leaf(b) {
                assert forall|j: int| 0 <= j < count(b) implies data_at(b, j) + data_len(b, j)
                    <= b.len() - 101 by {
                    lemma_data_inside(b, j);
                }
            }
        } else {
            lemma_ptrs(b, at, 0);
        }
    }
}

proof fn lemma_item_complaints(items: Seq<Item>, at: u64, size: int, end: int, i: int)
    requires
        0 <= i,
    ensures
        btree::items_error(items, at, size, end, i) matches Some(e) ==> e is BadSuperblock,
    decreases items.len() - i,
{
    if i < items.len() {
        lemma_item_complaints(items, at, size, items[i].offset as int, i + 1);
    }
}

proof fn lemma_ptr_complaints(ptrs: Seq<KeyPtr>, at: u64, i: int)
    requires
        0 <= i,
    ensures
        btree::ptrs_error(ptrs, at, i) matches Some(e) ==> e is BadSuperblock,
    decreases ptrs.len() - i,
{
    if i < ptrs.len() {
        lemma_ptr_complaints(ptrs, at, i + 1);
    }
}

/// A block whose checksum does not match is told from one that belongs
/// somewhere else, and both from one that is bad in itself.
pub proof fn law_a_refused_block_says_why(b: Seq<u8>, geom: GeometryModel, at: u64)
    requires
        b.len() == geom.nodesize,
        b.len() >= 101,
    ensures
        ({
            let width = super_laws::digest_size(geom.csum_type);
            let digest = superblock::padded(geom.csum_type.hash(b.subrange(32, b.len() as int)));
            let sealed = b.subrange(0, width) == digest.take(width);
            let r = btree::block_error(b, at, geom, btree::block_intact(b, geom));
            &&& !sealed ==> (r matches Some(e) && e is ChecksumMismatch
                && e->ChecksumMismatch_offset == at)
            &&& sealed && bytes::u64_at(b, 48) != at ==> (r matches Some(e)
                && e is BlockIdentityMismatch && e->expected == at && e->found == bytes::u64_at(
                b,
                48,
            ))
            &&& sealed && bytes::u64_at(b, 48) == at ==> (r matches Some(e) ==> e is BadSuperblock)
        }),
{
    let kind = geom.csum_type;
    let stored = b.subrange(0, 32);
    assert(btree::header_of(b).csum =~= stored);
    assert(stored.take(super_laws::digest_size(kind)) =~= b.subrange(
        0,
        super_laws::digest_size(kind),
    ));
    lemma_item_complaints(btree::leaf_items(b), at, b.len() - 101, b.len() - 101, 0);
    lemma_ptr_complaints(btree::node_ptrs(b), at, 0);
}

/// Whether the leaf at `leaf` is reached from the block at `at` by following
/// children.
pub open spec fn leads_to(image: Image, geom: GeometryModel, at: u64, leaf: u64, depth: nat) -> bool
    decreases 8 - depth,
{
    depth < 8 && (btree::block_at(image, geom, at) matches Ok(b) && if b[100] == 0 {
        at == leaf
    } else {
        exists|k: int|
            0 <= k < count(b) && leads_to(image, geom, #[trigger] child(b, k), leaf, depth + 1)
    })
}

/// Whether `x` is an item of a leaf reached from the block at `at`.
#[verifier::opaque]
pub open spec fn held_under(
    image: Image,
    geom: GeometryModel,
    at: u64,
    x: ItemModel,
    depth: nat,
) -> bool {
    exists|leaf: u64, i: int|
        #![trigger leads_to(image, geom, at, leaf, depth), entry(
            btree::block_at(image, geom, leaf)->Ok_0,
            i,
        )]
        leads_to(image, geom, at, leaf, depth) && 0 <= i < count(
            btree::block_at(image, geom, leaf)->Ok_0,
        ) && x == entry(btree::block_at(image, geom, leaf)->Ok_0, i)
}

proof fn lemma_held_in_leaf(image: Image, geom: GeometryModel, at: u64, x: ItemModel, depth: nat)
    requires
        depth < 8,
        btree::block_at(image, geom, at) is Ok,
        btree::block_at(image, geom, at)->Ok_0[100] == 0,
    ensures
        held_under(image, geom, at, x, depth) <==> btree::leaf_contents(
            btree::block_at(image, geom, at)->Ok_0,
        ).contains(x),
{
    reveal(held_under);
    let b = btree::block_at(image, geom, at)->Ok_0;
    let items = btree::leaf_contents(b);
    law_a_block_holds_what_it_lists(b);
    if items.contains(x) {
        let i = choose|i: int| 0 <= i < items.len() && items[i] == x;
        assert(leads_to(image, geom, at, at, depth));
        assert(x == entry(b, i));
    }
    if held_under(image, geom, at, x, depth) {
        let (leaf, i) = choose|leaf: u64, i: int|
            #![trigger leads_to(image, geom, at, leaf, depth), entry(
                btree::block_at(image, geom, leaf)->Ok_0,
                i,
            )]
            leads_to(image, geom, at, leaf, depth) && 0 <= i < count(
                btree::block_at(image, geom, leaf)->Ok_0,
            ) && x == entry(btree::block_at(image, geom, leaf)->Ok_0, i);
        assert(leaf == at);
        assert(items[i] == x);
    }
}

proof fn lemma_held_in_node(image: Image, geom: GeometryModel, at: u64, x: ItemModel, depth: nat)
    requires
        depth < 8,
        btree::block_at(image, geom, at) is Ok,
        btree::block_at(image, geom, at)->Ok_0[100] != 0,
    ensures
        held_under(image, geom, at, x, depth) <==> held_from(
            image,
            geom,
            btree::block_at(image, geom, at)->Ok_0,
            0,
            x,
            depth + 1,
        ),
{
    reveal(held_under);
    let b = btree::block_at(image, geom, at)->Ok_0;
    if held_from(image, geom, b, 0, x, depth + 1) {
        let k = choose|k: int|
            0 <= k < count(b) && held_under(image, geom, #[trigger] child(b, k), x, depth + 1);
        let (leaf, i) = choose|leaf: u64, i: int|
            #![trigger leads_to(image, geom, child(b, k), leaf, depth + 1), entry(
                btree::block_at(image, geom, leaf)->Ok_0,
                i,
            )]
            leads_to(image, geom, child(b, k), leaf, depth + 1) && 0 <= i < count(
                btree::block_at(image, geom, leaf)->Ok_0,
            ) && x == entry(btree::block_at(image, geom, leaf)->Ok_0, i);
        assert(leads_to(image, geom, at, leaf, depth));
        assert(x == entry(btree::block_at(image, geom, leaf)->Ok_0, i));
    }
    if held_under(image, geom, at, x, depth) {
        let (leaf, i) = choose|leaf: u64, i: int|
            #![trigger leads_to(image, geom, at, leaf, depth), entry(
                btree::block_at(image, geom, leaf)->Ok_0,
                i,
            )]
            leads_to(image, geom, at, leaf, depth) && 0 <= i < count(
                btree::block_at(image, geom, leaf)->Ok_0,
            ) && x == entry(btree::block_at(image, geom, leaf)->Ok_0, i);
        let k = choose|k: int|
            0 <= k < count(b) && leads_to(image, geom, #[trigger] child(b, k), leaf, depth + 1);
        assert(held_under(image, geom, child(b, k), x, depth + 1));
    }
}

proof fn lemma_walk(image: Image, geom: GeometryModel, at: u64, depth: nat)
    requires
        btree::walk_from(image, geom, at, None, depth).fault is None,
    ensures
        forall|x: ItemModel| #[trigger]
            btree::walk_from(image, geom, at, None, depth).items.contains(x) <==> held_under(
                image,
                geom,
                at,
                x,
                depth,
            ),
    decreases 8 - depth, 1nat, 0int,
{
    let s = btree::walk_from(image, geom, at, None, depth);
    let b = btree::block_at(image, geom, at)->Ok_0;
    law_a_block_holds_what_it_lists(b);
    if b[100] == 0 {
        assert(s.items =~= btree::leaf_contents(b));
        assert forall|x: ItemModel| #[trigger] s.items.contains(x) <==> held_under(
            image,
            geom,
            at,
            x,
            depth,
        ) by {
            lemma_held_in_leaf(image, geom, at, x, depth);
        }
    } else {
        lemma_walk_children(image, geom, b, 0, depth);
        assert forall|x: ItemModel| #[trigger] s.items.contains(x) <==> held_under(
            image,
            geom,
            at,
            x,
            depth,
        ) by {
            lemma_held_in_node(image, geom, at, x, depth);
        }
    }
}

/// Whether `x` is held under a child of `b`, from child `from` on.
spec fn held_from(
    image: Image,
    geom: GeometryModel,
    b: Seq<u8>,
    from: int,
    x: ItemModel,
    depth: nat,
) -> bool {
    exists|k: int|
        from <= k < count(b) && held_under(image, geom, #[trigger] child(b, k), x, depth)
}

proof fn lemma_joined(a: Seq<ItemModel>, b: Seq<ItemModel>, x: ItemModel)
    ensures
        (a + b).contains(x) <==> a.contains(x) || b.contains(x),
{
    if a.contains(x) {
        let i = choose|i: int| 0 <= i < a.len() && a[i] == x;
        assert((a + b)[i] == x);
    }
    if b.contains(x) {
        let i = choose|i: int| 0 <= i < b.len() && b[i] == x;
        assert((a + b)[a.len() + i] == x);
    }
}

proof fn lemma_held_from(
    image: Image,
    geom: GeometryModel,
    b: Seq<u8>,
    from: int,
    x: ItemModel,
    depth: nat,
)
    requires
        from < count(b),
    ensures
        held_from(image, geom, b, from, x, depth) <==> held_under(
            image,
            geom,
            child(b, from),
            x,
            depth,
        ) || held_from(image, geom, b, from + 1, x, depth),
{
    if held_from(image, geom, b, from, x, depth) {
        let k = choose|k: int|
            from <= k < count(b) && held_under(image, geom, #[trigger] child(b, k), x, depth);
        assert(held_under(image, geom, child(b, k), x, depth));
    }
    if held_from(image, geom, b, from + 1, x, depth) {
        let k = choose|k: int|
            from + 1 <= k < count(b) && held_under(image, geom, #[trigger] child(b, k), x, depth);
        assert(held_under(image, geom, child(b, k), x, depth));
    }
}

#[verifier::spinoff_prover]
#[verifier::rlimit(40)]
proof fn lemma_walk_children(image: Image, geom: GeometryModel, b: Seq<u8>, from: int, depth: nat)
    requires
        0 <= from,
        depth < 8,
        btree::walk_children(image, geom, btree::node_ptrs(b), from, None, depth).fault is None,
    ensures
        forall|x: ItemModel| #[trigger]
            btree::walk_children(
                image,
                geom,
                btree::node_ptrs(b),
                from,
                None,
                depth,
            ).items.contains(x) <==> held_from(image, geom, b, from, x, depth + 1),
    decreases 8 - depth, 0nat, count(b) - from,
{
    law_a_block_holds_what_it_lists(b);
    let ptrs = btree::node_ptrs(b);
    let s = btree::walk_children(image, geom, ptrs, from, None, depth);
    if from < count(b) {
        let head = btree::walk_from(image, geom, ptrs[from].blockptr, None, depth + 1);
        let tail = btree::walk_children(image, geom, ptrs, from + 1, None, depth);
        assert(ptrs[from].blockptr == child(b, from));
        lemma_walk(image, geom, child(b, from), depth + 1);
        lemma_walk_children(image, geom, b, from + 1, depth);
        assert(s.items == head.items + tail.items);
        assert forall|x: ItemModel| #[trigger] s.items.contains(x) <==> held_from(
            image,
            geom,
            b,
            from,
            x,
            depth + 1,
        ) by {
            lemma_joined(head.items, tail.items, x);
            lemma_held_from(image, geom, b, from, x, depth + 1);
        }
    } else {
        assert(s.items =~= Seq::empty());
    }
}

/// A walk that meets no fault meets every item of every leaf that following
/// children from the root reaches, and nothing else.
pub proof fn law_a_walk_meets_every_leaf(image: Image, geom: GeometryModel, root: u64, x: ItemModel)
    requires
        btree::walk_from(image, geom, root, None, 0).fault is None,
    ensures
        btree::walk_from(image, geom, root, None, 0).items.contains(x) <==> held_under(
            image,
            geom,
            root,
            x,
            0,
        ),
{
    lemma_walk(image, geom, root, 0);
}

} // verus!
