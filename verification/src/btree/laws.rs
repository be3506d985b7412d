//! What holds of a tree whose nodes divide its keys the way they say.

use vstd::prelude::*;

use crate::btree;
use crate::btree::{GeometryModel, Image, ItemModel, KeyPtr, Stream};
use crate::chunk::DiskKey;
use crate::error::ErrorView;
use crate::leaf_edit;
use crate::superblock::MAX_LEVEL;

verus! {

/// Whether `key` is not below `lo` and is below `hi`, as far as there are
/// such bounds.
pub open spec fn within(key: DiskKey, lo: Option<DiskKey>, hi: Option<DiskKey>) -> bool {
    &&& lo matches Some(l) ==> !btree::key_less(key, l)
    &&& hi matches Some(h) ==> btree::key_less(key, h)
}

/// The key the items under child `k` of a node are not below: the child's
/// own, and for the first child whatever holds of the node.
pub open spec fn child_lo(ptrs: Seq<KeyPtr>, k: int, lo: Option<DiskKey>) -> Option<DiskKey> {
    if k > 0 {
        Some(ptrs[k].key)
    } else {
        lo
    }
}

/// The key the items under child `k` of a node are below: the next child's,
/// and for the last child whatever holds of the node.
pub open spec fn child_hi(ptrs: Seq<KeyPtr>, k: int, hi: Option<DiskKey>) -> Option<DiskKey> {
    if k + 1 < ptrs.len() {
        Some(ptrs[k + 1].key)
    } else {
        hi
    }
}

/// Whether the tree rooted at `at` keeps its keys between `lo` and `hi`, and
/// every node of it divides them among its children by the children's keys.
pub open spec fn divided(
    image: Image,
    geom: GeometryModel,
    at: u64,
    lo: Option<DiskKey>,
    hi: Option<DiskKey>,
    depth: nat,
) -> bool
    decreases MAX_LEVEL - depth,
{
    btree::block_at(image, geom, at) matches Ok(b) ==> if btree::header_of(b).level == 0 {
        forall|i: int|
            0 <= i < btree::leaf_contents(b).len() ==> within(
                (#[trigger] btree::leaf_contents(b)[i]).key,
                lo,
                hi,
            )
    } else {
        depth < MAX_LEVEL ==> forall|k: int|
            #![trigger btree::node_ptrs(b)[k]]
            0 <= k < btree::node_ptrs(b).len() ==> {
                &&& k > 0 ==> within(btree::node_ptrs(b)[k].key, lo, hi)
                &&& divided(
                    image,
                    geom,
                    btree::node_ptrs(b)[k].blockptr,
                    child_lo(btree::node_ptrs(b), k, lo),
                    child_hi(btree::node_ptrs(b), k, hi),
                    depth + 1,
                )
            }
    }
}

/// Whether every item's key lies between `lo` and `hi`.
pub open spec fn all_within(
    items: Seq<ItemModel>,
    lo: Option<DiskKey>,
    hi: Option<DiskKey>,
) -> bool {
    forall|i: int| 0 <= i < items.len() ==> within((#[trigger] items[i]).key, lo, hi)
}

/// What a node of a divided tree says of one of its children.
proof fn lemma_child(
    image: Image,
    geom: GeometryModel,
    at: u64,
    lo: Option<DiskKey>,
    hi: Option<DiskKey>,
    depth: nat,
    b: Seq<u8>,
    k: int,
)
    requires
        divided(image, geom, at, lo, hi, depth),
        depth < MAX_LEVEL,
        btree::block_at(image, geom, at) == Ok::<Seq<u8>, ErrorView>(b),
        btree::header_of(b).level != 0,
        0 <= k < btree::node_ptrs(b).len(),
    ensures
        k > 0 ==> within(btree::node_ptrs(b)[k].key, lo, hi),
        divided(
            image,
            geom,
            btree::node_ptrs(b)[k].blockptr,
            child_lo(btree::node_ptrs(b), k, lo),
            child_hi(btree::node_ptrs(b), k, hi),
            depth + 1,
        ),
{
    let p = btree::node_ptrs(b)[k];
}

/// The children of a node of a divided tree.
spec fn children_divided(
    image: Image,
    geom: GeometryModel,
    ptrs: Seq<KeyPtr>,
    lo: Option<DiskKey>,
    hi: Option<DiskKey>,
    depth: nat,
) -> bool {
    &&& btree::ptrs_ascend(ptrs)
    &&& forall|k: int|
        #![trigger ptrs[k]]
        0 <= k < ptrs.len() ==> {
            &&& k > 0 ==> within(ptrs[k].key, lo, hi)
            &&& divided(
                image,
                geom,
                ptrs[k].blockptr,
                child_lo(ptrs, k, lo),
                child_hi(ptrs, k, hi),
                depth + 1,
            )
        }
}

/// A node of a divided tree has its children in order and divided.
proof fn lemma_node(
    image: Image,
    geom: GeometryModel,
    at: u64,
    lo: Option<DiskKey>,
    hi: Option<DiskKey>,
    depth: nat,
    b: Seq<u8>,
)
    requires
        divided(image, geom, at, lo, hi, depth),
        depth < MAX_LEVEL,
        btree::block_at(image, geom, at) == Ok::<Seq<u8>, ErrorView>(b),
        btree::header_of(b).level != 0,
    ensures
        btree::node_ptrs(b).len() > 0,
        children_divided(image, geom, btree::node_ptrs(b), lo, hi, depth),
{
    btree::law_parsed_block_is_sound(b, at, geom, btree::block_intact(b, geom));
    let ptrs = btree::node_ptrs(b);
    assert forall|k: int|
        #![trigger ptrs[k]]
        0 <= k < ptrs.len() implies {
            &&& k > 0 ==> within(ptrs[k].key, lo, hi)
            &&& divided(
                image,
                geom,
                ptrs[k].blockptr,
                child_lo(ptrs, k, lo),
                child_hi(ptrs, k, hi),
                depth + 1,
            )
        } by {
        lemma_child(image, geom, at, lo, hi, depth, b, k);
    }
}

/// Bounds inside bounds hold what they hold.
proof fn lemma_bounds_nest(
    ptrs: Seq<KeyPtr>,
    k: int,
    lo: Option<DiskKey>,
    hi: Option<DiskKey>,
    key: DiskKey,
)
    requires
        0 <= k < ptrs.len(),
        forall|j: int| 0 < j < ptrs.len() ==> within((#[trigger] ptrs[j]).key, lo, hi),
        within(key, child_lo(ptrs, k, lo), child_hi(ptrs, k, hi)),
    ensures
        within(key, lo, hi),
{
    if k > 0 {
        assert(within(ptrs[k].key, lo, hi));
    }
    if k + 1 < ptrs.len() {
        assert(within(ptrs[k + 1].key, lo, hi));
    }
}

/// Whether a list of items strictly ascends by key.
pub open spec fn ascends(items: Seq<ItemModel>) -> bool {
    leaf_edit::sorted(items)
}

/// A leaf's items ascend.
proof fn lemma_leaf_ascends(b: Seq<u8>, at: u64, geom: GeometryModel)
    requires
        btree::block_error(b, at, geom, btree::block_intact(b, geom)) is None,
        btree::header_of(b).level == 0,
    ensures
        ascends(btree::leaf_contents(b)),
        btree::leaf_contents(b).len() == btree::leaf_items(b).len(),
        forall|i: int|
            0 <= i < btree::leaf_items(b).len() ==> (#[trigger] btree::leaf_contents(b)[i]).key
                == btree::leaf_items(b)[i].key,
{
    btree::law_parsed_block_is_sound(b, at, geom, btree::block_intact(b, geom));
    let items = btree::leaf_contents(b);
    assert forall|i: int, j: int| 0 <= i < j < items.len() implies btree::key_less(
        (#[trigger] items[i]).key,
        (#[trigger] items[j]).key,
    ) by {
        assert(btree::key_less(btree::leaf_items(b)[i].key, btree::leaf_items(b)[j].key));
    }
}

/// A list that ascends below a key and one that ascends from it on make one
/// that ascends.
proof fn lemma_joined(
    a: Seq<ItemModel>,
    b: Seq<ItemModel>,
    lo: Option<DiskKey>,
    middle: DiskKey,
    hi: Option<DiskKey>,
)
    requires
        ascends(a),
        ascends(b),
        all_within(a, lo, Some(middle)),
        all_within(b, Some(middle), hi),
    ensures
        ascends(a + b),
{
    let all = a + b;
    assert forall|i: int, j: int| 0 <= i < j < all.len() implies btree::key_less(
        (#[trigger] all[i]).key,
        (#[trigger] all[j]).key,
    ) by {
        if i < a.len() && j >= a.len() {
            assert(within(a[i].key, lo, Some(middle)));
            assert(within(b[j - a.len()].key, Some(middle), hi));
        } else if i >= a.len() {
            assert(btree::key_less(b[i - a.len()].key, b[j - a.len()].key));
        } else {
            assert(btree::key_less(a[i].key, a[j].key));
        }
    }
}

/// The whole walk of a divided tree stays between its bounds and ascends.
proof fn lemma_walk(
    image: Image,
    geom: GeometryModel,
    at: u64,
    lo: Option<DiskKey>,
    hi: Option<DiskKey>,
    depth: nat,
)
    requires
        divided(image, geom, at, lo, hi, depth),
        btree::walk_from(image, geom, at, None, depth).fault is None,
    ensures
        all_within(btree::walk_from(image, geom, at, None, depth).items, lo, hi),
        ascends(btree::walk_from(image, geom, at, None, depth).items),
    decreases MAX_LEVEL - depth, 1nat, 0int,
{
    let b = btree::block_at(image, geom, at)->Ok_0;
    if btree::header_of(b).level == 0 {
        lemma_leaf_ascends(b, at, geom);
        let items = btree::leaf_contents(b);
        assert(items.skip(0) =~= items);
    } else {
        lemma_node(image, geom, at, lo, hi, depth, b);
        let ptrs = btree::node_ptrs(b);
        lemma_children(image, geom, ptrs, 0, lo, hi, depth);
    }
}

proof fn lemma_children(
    image: Image,
    geom: GeometryModel,
    ptrs: Seq<KeyPtr>,
    from: int,
    lo: Option<DiskKey>,
    hi: Option<DiskKey>,
    depth: nat,
)
    requires
        children_divided(image, geom, ptrs, lo, hi, depth),
        depth < MAX_LEVEL,
        0 <= from <= ptrs.len(),
        btree::walk_children(image, geom, ptrs, from, None, depth).fault is None,
    ensures
        all_within(
            btree::walk_children(image, geom, ptrs, from, None, depth).items,
            child_lo_or(ptrs, from, lo),
            hi,
        ),
        all_within(btree::walk_children(image, geom, ptrs, from, None, depth).items, lo, hi),
        ascends(btree::walk_children(image, geom, ptrs, from, None, depth).items),
    decreases MAX_LEVEL - depth, 0nat, ptrs.len() - from,
{
    if from < ptrs.len() {
        let p = ptrs[from];
        let head = btree::walk_from(image, geom, p.blockptr, None, depth + 1);
        let tail = btree::walk_children(image, geom, ptrs, from + 1, None, depth);
        let l = child_lo(ptrs, from, lo);
        let h = child_hi(ptrs, from, hi);
        lemma_walk(image, geom, p.blockptr, l, h, depth + 1);
        lemma_children(image, geom, ptrs, from + 1, lo, hi, depth);
        let all = head.items + tail.items;
        assert forall|i: int| 0 <= i < all.len() implies within((#[trigger] all[i]).key, l, hi)
            && within(all[i].key, lo, hi) by {
            if i < head.items.len() {
                assert(within(head.items[i].key, l, h));
                lemma_bounds_nest(ptrs, from, lo, hi, head.items[i].key);
            } else {
                let x = tail.items[i - head.items.len()];
                assert(within(x.key, lo, hi));
                if from + 1 < ptrs.len() {
                    assert(within(x.key, Some(ptrs[from + 1].key), hi));
                    assert(btree::key_less(ptrs[from].key, ptrs[from + 1].key));
                }
            }
        }
        if from + 1 < ptrs.len() {
            lemma_joined(head.items, tail.items, l, ptrs[from + 1].key, hi);
        } else {
            assert(all =~= head.items);
        }
    }
}

/// The key the items of the children from `from` on are not below.
spec fn child_lo_or(ptrs: Seq<KeyPtr>, from: int, lo: Option<DiskKey>) -> Option<DiskKey> {
    if from < ptrs.len() {
        child_lo(ptrs, from, lo)
    } else {
        lo
    }
}

/// A walk of a divided tree comes in key order, and no key comes twice.
pub proof fn law_a_walk_comes_in_key_order(image: Image, geom: GeometryModel, root: u64)
    requires
        divided(image, geom, root, None, None, 0),
        btree::walk_from(image, geom, root, None, 0).fault is None,
    ensures
        ascends(btree::walk_from(image, geom, root, None, 0).items),
{
    lemma_walk(image, geom, root, None, None, 0);
}

/// The items whose keys are not below `start`.
pub open spec fn not_below(start: DiskKey) -> spec_fn(ItemModel) -> bool {
    |i: ItemModel| !btree::key_less(i.key, start)
}

/// A filter that accepts everything keeps everything, and one that accepts
/// nothing keeps nothing.
proof fn lemma_filter_all(items: Seq<ItemModel>, keep: spec_fn(ItemModel) -> bool)
    ensures
        (forall|i: int| 0 <= i < items.len() ==> keep(#[trigger] items[i])) ==> items.filter(keep)
            == items,
        (forall|i: int| 0 <= i < items.len() ==> !keep(#[trigger] items[i])) ==> items.filter(keep)
            == Seq::<ItemModel>::empty(),
    decreases items.len(),
{
    reveal(Seq::filter);
    if items.len() > 0 {
        let front = items.drop_last();
        lemma_filter_all(front, keep);
        assert(forall|i: int| 0 <= i < front.len() ==> #[trigger] front[i] == items[i]);
        if forall|i: int| 0 <= i < items.len() ==> keep(#[trigger] items[i]) {
            assert(forall|i: int| 0 <= i < front.len() ==> keep(#[trigger] front[i]));
            assert(keep(items[items.len() - 1]));
            assert(front.push(items.last()) =~= items);
        }
        if forall|i: int| 0 <= i < items.len() ==> !keep(#[trigger] items[i]) {
            assert(forall|i: int| 0 <= i < front.len() ==> !keep(#[trigger] front[i]));
            assert(!keep(items[items.len() - 1]));
        }
    } else {
        assert(items.filter(keep) =~= items);
        assert(items =~= Seq::<ItemModel>::empty());
    }
}

/// Where a key belongs among keys: all before that place are below it.
proof fn lemma_before_rank(keys: Seq<DiskKey>, key: DiskKey, i: int)
    requires
        0 <= i < btree::rank(keys, key),
        forall|a: int, b: int|
            0 <= a < b < keys.len() ==> btree::key_less(#[trigger] keys[a], #[trigger] keys[b]),
    ensures
        i < keys.len(),
        btree::key_less(keys[i], key),
{
    btree::lemma_rank(keys, key);
    let last = btree::rank(keys, key) - 1;
    if i < last {
        assert(btree::key_less(keys[i], keys[last]));
    }
}

/// Skipping to where `start` belongs in a leaf leaves out what is below it.
proof fn lemma_leaf_from(b: Seq<u8>, at: u64, geom: GeometryModel, start: DiskKey)
    requires
        btree::block_error(b, at, geom, btree::block_intact(b, geom)) is None,
        btree::header_of(b).level == 0,
    ensures
        btree::leaf_contents(b).skip(btree::slot_in_leaf(btree::leaf_items(b), start))
            == btree::leaf_contents(b).filter(not_below(start)),
        0 <= btree::slot_in_leaf(btree::leaf_items(b), start) <= btree::leaf_contents(b).len(),
{
    lemma_leaf_ascends(b, at, geom);
    let items = btree::leaf_contents(b);
    let keys = btree::item_keys(btree::leaf_items(b));
    let r = btree::rank(keys, start);
    let keep = not_below(start);
    btree::lemma_rank(keys, start);
    let front = items.take(r);
    let back = items.skip(r);
    assert forall|a: int, c: int| 0 <= a < c < keys.len() implies btree::key_less(
        #[trigger] keys[a],
        #[trigger] keys[c],
    ) by {
        assert(btree::key_less(items[a].key, items[c].key));
    }
    assert forall|i: int| 0 <= i < front.len() implies !keep(#[trigger] front[i]) by {
        lemma_before_rank(keys, start, i);
        assert(items[i].key == keys[i]);
    }
    assert forall|i: int| 0 <= i < back.len() implies keep(#[trigger] back[i]) by {
        assert(items[r + i].key == keys[r + i]);
    }
    lemma_filter_all(front, keep);
    lemma_filter_all(back, keep);
    assert(items =~= front + back);
    Seq::filter_distributes_over_add(front, back, keep);
    assert(front.filter(keep) + back.filter(keep) =~= back);
}

proof fn lemma_rank_through(keys: Seq<DiskKey>, key: DiskKey)
    ensures
        0 <= btree::rank_through(keys, key) <= keys.len(),
        btree::rank_through(keys, key) > 0 ==> !btree::key_less(
            key,
            keys[btree::rank_through(keys, key) - 1],
        ),
        forall|i: int|
            btree::rank_through(keys, key) <= i < keys.len() ==> btree::key_less(
                key,
                #[trigger] keys[i],
            ),
    decreases keys.len(),
{
    if keys.len() > 0 && btree::key_less(key, keys.last()) {
        lemma_rank_through(keys.drop_last(), key);
        assert forall|i: int|
            btree::rank_through(keys, key) <= i < keys.len() implies btree::key_less(
            key,
            #[trigger] keys[i],
        ) by {
            if i < keys.len() - 1 {
                assert(keys[i] == keys.drop_last()[i]);
            }
        }
    }
}

/// The child a key leads to: it is not past the key unless it is the first,
/// and every later child is.
proof fn lemma_slot(ptrs: Seq<KeyPtr>, key: DiskKey)
    requires
        ptrs.len() > 0,
    ensures
        0 <= btree::slot_in_node(ptrs, key) < ptrs.len(),
        btree::slot_in_node(ptrs, key) > 0 ==> !btree::key_less(
            key,
            ptrs[btree::slot_in_node(ptrs, key)].key,
        ),
        forall|i: int|
            btree::slot_in_node(ptrs, key) < i < ptrs.len() ==> btree::key_less(
                key,
                (#[trigger] ptrs[i]).key,
            ),
{
    let keys = btree::ptr_keys(ptrs);
    lemma_rank_through(keys, key);
    assert forall|i: int|
        btree::slot_in_node(ptrs, key) < i < ptrs.len() implies btree::key_less(
        key,
        (#[trigger] ptrs[i]).key,
    ) by {
        assert(keys[i] == ptrs[i].key);
    }
}

/// A walk of a divided tree from a key on is the whole walk without what is
/// below the key.
proof fn lemma_walk_from(
    image: Image,
    geom: GeometryModel,
    at: u64,
    lo: Option<DiskKey>,
    hi: Option<DiskKey>,
    start: DiskKey,
    depth: nat,
)
    requires
        divided(image, geom, at, lo, hi, depth),
        btree::walk_from(image, geom, at, None, depth).fault is None,
    ensures
        btree::walk_from(image, geom, at, Some(start), depth) == (Stream {
            items: btree::walk_from(image, geom, at, None, depth).items.filter(not_below(start)),
            fault: None,
        }),
    decreases MAX_LEVEL - depth, 1nat, 0int,
{
    let b = btree::block_at(image, geom, at)->Ok_0;
    if btree::header_of(b).level == 0 {
        lemma_leaf_from(b, at, geom, start);
        assert(btree::leaf_contents(b).skip(0) =~= btree::leaf_contents(b));
    } else {
        lemma_node(image, geom, at, lo, hi, depth, b);
        let ptrs = btree::node_ptrs(b);
        lemma_slot(ptrs, start);
        lemma_children_from(image, geom, ptrs, 0, lo, hi, start, depth);
    }
}

/// The walk of the children from `from` on, without what is below `start`, is
/// the walk from the child `start` leads to.
proof fn lemma_children_from(
    image: Image,
    geom: GeometryModel,
    ptrs: Seq<KeyPtr>,
    from: int,
    lo: Option<DiskKey>,
    hi: Option<DiskKey>,
    start: DiskKey,
    depth: nat,
)
    requires
        children_divided(image, geom, ptrs, lo, hi, depth),
        depth < MAX_LEVEL,
        0 <= from <= btree::slot_in_node(ptrs, start) < ptrs.len(),
        btree::slot_in_node(ptrs, start) > 0 ==> !btree::key_less(
            start,
            ptrs[btree::slot_in_node(ptrs, start)].key,
        ),
        forall|i: int|
            btree::slot_in_node(ptrs, start) < i < ptrs.len() ==> btree::key_less(
                start,
                (#[trigger] ptrs[i]).key,
            ),
        btree::walk_children(image, geom, ptrs, from, None, depth).fault is None,
    ensures
        btree::walk_children(
            image,
            geom,
            ptrs,
            btree::slot_in_node(ptrs, start),
            Some(start),
            depth,
        ) == (Stream {
            items: btree::walk_children(image, geom, ptrs, from, None, depth).items.filter(
                not_below(start),
            ),
            fault: None,
        }),
    decreases MAX_LEVEL - depth, 0nat, ptrs.len() - from,
{
    let slot = btree::slot_in_node(ptrs, start);
    let keep = not_below(start);
    let p = ptrs[from];
    let head = btree::walk_from(image, geom, p.blockptr, None, depth + 1);
    let tail = btree::walk_children(image, geom, ptrs, from + 1, None, depth);
    let l = child_lo(ptrs, from, lo);
    let h = child_hi(ptrs, from, hi);
    Seq::filter_distributes_over_add(head.items, tail.items, keep);
    lemma_walk(image, geom, p.blockptr, l, h, depth + 1);
    if from < slot {
        assert forall|i: int| 0 <= i < head.items.len() implies !keep(#[trigger] head.items[i]) by {
            assert(within(head.items[i].key, l, h));
            if from + 1 < slot {
                assert(btree::key_less(ptrs[from + 1].key, ptrs[slot].key));
            }
        }
        lemma_filter_all(head.items, keep);
        lemma_children_from(image, geom, ptrs, from + 1, lo, hi, start, depth);
        assert(Seq::<ItemModel>::empty() + tail.items.filter(keep) =~= tail.items.filter(keep));
    } else {
        lemma_walk_from(image, geom, p.blockptr, l, h, start, depth + 1);
        lemma_children(image, geom, ptrs, from + 1, lo, hi, depth);
        assert forall|i: int| 0 <= i < tail.items.len() implies keep(#[trigger] tail.items[i]) by {
            if from + 1 < ptrs.len() {
                assert(within(tail.items[i].key, Some(ptrs[from + 1].key), hi));
                assert(btree::key_less(start, ptrs[from + 1].key));
            }
        }
        lemma_filter_all(tail.items, keep);
    }
}

/// Walking a divided tree from a key on leaves out exactly what is below the
/// key.
pub proof fn law_a_walk_from_a_key_leaves_out_what_is_below(
    image: Image,
    geom: GeometryModel,
    root: u64,
    start: DiskKey,
)
    requires
        divided(image, geom, root, None, None, 0),
        btree::walk_from(image, geom, root, None, 0).fault is None,
    ensures
        btree::walk_from(image, geom, root, Some(start), 0) == (Stream {
            items: btree::walk_from(image, geom, root, None, 0).items.filter(not_below(start)),
            fault: None,
        }),
{
    lemma_walk_from(image, geom, root, None, None, start, 0);
}

/// In a list that ascends, what comes behind something past a kind is past it
/// too.
proof fn lemma_run_of_kind(
    items: Seq<ItemModel>,
    objectid: u64,
    key_type: u8,
    keep: spec_fn(ItemModel) -> bool,
)
    requires
        ascends(items),
        keep == (|i: ItemModel| i.key.objectid == objectid && i.key.key_type == key_type),
        forall|i: int|
            0 <= i < items.len() ==> !btree::key_less(
                (#[trigger] items[i]).key,
                DiskKey { objectid, key_type, offset: 0 },
            ),
    ensures
        btree::run(items, keep) == items.filter(keep),
    decreases items.len(),
{
    if items.len() == 0 {
        lemma_filter_all(items, keep);
    } else if !keep(items[0]) {
        assert forall|i: int| 0 <= i < items.len() implies !keep(#[trigger] items[i]) by {
            if i > 0 {
                assert(btree::key_less(items[0].key, items[i].key));
            }
        }
        lemma_filter_all(items, keep);
    } else {
        let rest = items.drop_first();
        assert forall|i: int, j: int| 0 <= i < j < rest.len() implies btree::key_less(
            (#[trigger] rest[i]).key,
            (#[trigger] rest[j]).key,
        ) by {
            assert(btree::key_less(items[i + 1].key, items[j + 1].key));
        }
        assert forall|i: int| 0 <= i < rest.len() implies !btree::key_less(
            (#[trigger] rest[i]).key,
            DiskKey { objectid, key_type, offset: 0 },
        ) by {
            assert(rest[i] == items[i + 1]);
        }
        lemma_run_of_kind(rest, objectid, key_type, keep);
        let one = seq![items[0]];
        assert(items =~= one + rest);
        Seq::filter_distributes_over_add(one, rest, keep);
        assert(keep(one[0]));
        lemma_filter_all(one, keep);
    }
}

/// Filtering twice is filtering by both.
proof fn lemma_filter_twice(
    items: Seq<ItemModel>,
    outer: spec_fn(ItemModel) -> bool,
    inner: spec_fn(ItemModel) -> bool,
)
    requires
        forall|i: ItemModel| #[trigger] inner(i) ==> outer(i),
    ensures
        items.filter(outer).filter(inner) == items.filter(inner),
    decreases items.len(),
{
    reveal(Seq::filter);
    if items.len() > 0 {
        let front = items.drop_last();
        lemma_filter_twice(front, outer, inner);
        if outer(items.last()) {
            let kept = front.filter(outer).push(items.last());
            assert(kept.drop_last() =~= front.filter(outer));
            assert(kept.last() == items.last());
        }
    }
}

/// A filtered list still ascends.
pub(crate) proof fn lemma_filter_ascends(items: Seq<ItemModel>, keep: spec_fn(ItemModel) -> bool)
    requires
        ascends(items),
    ensures
        ascends(items.filter(keep)),
        forall|i: int|
            0 <= i < items.filter(keep).len() ==> items.contains(#[trigger] items.filter(keep)[i])
                && keep(items.filter(keep)[i]),
    decreases items.len(),
{
    reveal(Seq::filter);
    if items.len() > 0 {
        let front = items.drop_last();
        let last = items.len() - 1;
        assert forall|i: int, j: int| 0 <= i < j < front.len() implies btree::key_less(
            (#[trigger] front[i]).key,
            (#[trigger] front[j]).key,
        ) by {
            assert(btree::key_less(items[i].key, items[j].key));
        }
        lemma_filter_ascends(front, keep);
        let some = front.filter(keep);
        let all = items.filter(keep);
        assert forall|i: int| 0 <= i < all.len() implies items.contains(#[trigger] all[i]) && keep(
            all[i],
        ) by {
            if i < some.len() {
                assert(all[i] == some[i]);
                let k = choose|k: int| 0 <= k < front.len() && front[k] == some[i];
                assert(items[k] == all[i]);
            } else {
                assert(items[last] == all[i]);
            }
        }
        assert forall|i: int, j: int| 0 <= i < j < all.len() implies btree::key_less(
            (#[trigger] all[i]).key,
            (#[trigger] all[j]).key,
        ) by {
            assert(all[i] == some[i]);
            if j < some.len() {
                assert(all[j] == some[j]);
                assert(btree::key_less(some[i].key, some[j].key));
            } else {
                let k = choose|k: int| 0 <= k < front.len() && front[k] == some[i];
                assert(btree::key_less(items[k].key, items[last].key));
            }
        }
    }
}

/// Collecting the items of one kind from a divided tree gives all of them, in
/// key order, and nothing else.
pub proof fn law_all_of_a_kind_are_found(
    image: Image,
    geom: GeometryModel,
    root: u64,
    objectid: u64,
    key_type: u8,
)
    requires
        divided(image, geom, root, None, None, 0),
        btree::walk_from(image, geom, root, None, 0).fault is None,
    ensures
        ({
            let start = DiskKey { objectid, key_type, offset: 0 };
            let same = |i: ItemModel| i.key.objectid == objectid && i.key.key_type == key_type;
            let s = btree::walk_from(image, geom, root, Some(start), 0);
            &&& btree::visited(s, same) is Ok
            &&& btree::run(s.items, same) == btree::walk_from(
                image,
                geom,
                root,
                None,
                0,
            ).items.filter(same)
        }),
{
    let start = DiskKey { objectid, key_type, offset: 0 };
    let same = |i: ItemModel| i.key.objectid == objectid && i.key.key_type == key_type;
    let all = btree::walk_from(image, geom, root, None, 0).items;
    lemma_walk(image, geom, root, None, None, 0);
    lemma_walk_from(image, geom, root, None, None, start, 0);
    let s = btree::walk_from(image, geom, root, Some(start), 0);
    lemma_filter_ascends(all, not_below(start));
    lemma_run_of_kind(s.items, objectid, key_type, same);
    lemma_filter_twice(all, not_below(start), same);
}

/// An item the walk of a node's children comes across is come across under
/// one of them, and whatever is come across under one is come across.
proof fn lemma_under_child(
    image: Image,
    geom: GeometryModel,
    ptrs: Seq<KeyPtr>,
    from: int,
    depth: nat,
    item: ItemModel,
) -> (k: int)
    requires
        0 <= from <= ptrs.len(),
        depth < MAX_LEVEL,
        btree::walk_children(image, geom, ptrs, from, None, depth).fault is None,
        btree::walk_children(image, geom, ptrs, from, None, depth).items.contains(item),
    ensures
        from <= k < ptrs.len(),
        btree::walk_from(image, geom, ptrs[k].blockptr, None, depth + 1).items.contains(item),
    decreases ptrs.len() - from,
{
    let head = btree::walk_from(image, geom, ptrs[from].blockptr, None, depth + 1);
    let tail = btree::walk_children(image, geom, ptrs, from + 1, None, depth);
    let all = head.items + tail.items;
    let i = choose|i: int| 0 <= i < all.len() && all[i] == item;
    if i < head.items.len() {
        assert(head.items[i] == item);
        from
    } else {
        assert(tail.items[i - head.items.len()] == item);
        lemma_under_child(image, geom, ptrs, from + 1, depth, item)
    }
}

proof fn lemma_child_is_walked(
    image: Image,
    geom: GeometryModel,
    ptrs: Seq<KeyPtr>,
    from: int,
    depth: nat,
    k: int,
)
    requires
        0 <= from <= k < ptrs.len(),
        depth < MAX_LEVEL,
        btree::walk_children(image, geom, ptrs, from, None, depth).fault is None,
    ensures
        btree::walk_from(image, geom, ptrs[k].blockptr, None, depth + 1).fault is None,
        forall|x: ItemModel| #[trigger]
            btree::walk_from(image, geom, ptrs[k].blockptr, None, depth + 1).items.contains(x)
                ==> btree::walk_children(image, geom, ptrs, from, None, depth).items.contains(x),
    decreases k - from,
{
    let head = btree::walk_from(image, geom, ptrs[from].blockptr, None, depth + 1);
    let tail = btree::walk_children(image, geom, ptrs, from + 1, None, depth);
    let all = head.items + tail.items;
    if from < k {
        lemma_child_is_walked(image, geom, ptrs, from + 1, depth, k);
    }
    assert forall|x: ItemModel| #[trigger]
        btree::walk_from(image, geom, ptrs[k].blockptr, None, depth + 1).items.contains(
            x,
        ) implies all.contains(x) by {
        if from < k {
            let i = choose|i: int| 0 <= i < tail.items.len() && tail.items[i] == x;
            assert(all[head.items.len() + i] == x);
        } else {
            let i = choose|i: int| 0 <= i < head.items.len() && head.items[i] == x;
            assert(all[i] == x);
        }
    }
}

/// The leaf a descent reaches holds every item under the key that the walk
/// comes across, and the walk comes across every item of that leaf.
proof fn lemma_descent(
    image: Image,
    geom: GeometryModel,
    root: u64,
    at: u64,
    expected: Option<u8>,
    key: DiskKey,
    steps: nat,
    lo: Option<DiskKey>,
    hi: Option<DiskKey>,
    depth: nat,
)
    requires
        divided(image, geom, at, lo, hi, depth),
        btree::walk_from(image, geom, at, None, depth).fault is None,
        btree::leaf_for(image, geom, root, at, expected, key, steps) is Ok,
    ensures
        ({
            let b = btree::leaf_for(image, geom, root, at, expected, key, steps)->Ok_0;
            let items = btree::walk_from(image, geom, at, None, depth).items;
            &&& btree::header_of(b).level == 0
            &&& exists|a: u64| #[trigger] btree::block_at(image, geom, a) == Ok::<
                Seq<u8>,
                ErrorView,
            >(b)
            &&& forall|x: ItemModel| #[trigger]
                items.contains(x) && x.key == key ==> btree::leaf_contents(b).contains(x)
            &&& forall|x: ItemModel| #[trigger]
                btree::leaf_contents(b).contains(x) ==> items.contains(x)
        }),
    decreases steps,
{
    let c = btree::block_at(image, geom, at)->Ok_0;
    let items = btree::walk_from(image, geom, at, None, depth).items;
    if btree::header_of(c).level == 0 {
        assert(btree::leaf_contents(c).skip(0) =~= btree::leaf_contents(c));
        assert(btree::block_at(image, geom, at) == Ok::<Seq<u8>, ErrorView>(c));
    } else {
        lemma_node(image, geom, at, lo, hi, depth, c);
        let ptrs = btree::node_ptrs(c);
        let slot = btree::slot_in_node(ptrs, key);
        lemma_slot(ptrs, key);
        let p = ptrs[slot];
        let under = btree::walk_from(image, geom, p.blockptr, None, depth + 1).items;
        lemma_child_is_walked(image, geom, ptrs, 0, depth, slot);
        lemma_descent(
            image,
            geom,
            root,
            p.blockptr,
            Some((btree::header_of(c).level - 1) as u8),
            key,
            (steps - 1) as nat,
            child_lo(ptrs, slot, lo),
            child_hi(ptrs, slot, hi),
            depth + 1,
        );
        let b = btree::leaf_for(image, geom, root, at, expected, key, steps)->Ok_0;
        assert forall|x: ItemModel| #[trigger]
            items.contains(x) && x.key == key implies btree::leaf_contents(b).contains(x) by {
            let k = lemma_under_child(image, geom, ptrs, 0, depth, x);
            lemma_only_slot(image, geom, ptrs, lo, hi, depth, key, k, x);
            assert(under.contains(x));
        }
    }
}

/// An item under `key` is found under no child but the one the key leads to.
proof fn lemma_only_slot(
    image: Image,
    geom: GeometryModel,
    ptrs: Seq<KeyPtr>,
    lo: Option<DiskKey>,
    hi: Option<DiskKey>,
    depth: nat,
    key: DiskKey,
    k: int,
    item: ItemModel,
)
    requires
        children_divided(image, geom, ptrs, lo, hi, depth),
        depth < MAX_LEVEL,
        0 <= k < ptrs.len(),
        btree::walk_children(image, geom, ptrs, 0, None, depth).fault is None,
        btree::walk_from(image, geom, ptrs[k].blockptr, None, depth + 1).items.contains(item),
        item.key == key,
    ensures
        k == btree::slot_in_node(ptrs, key),
{
    let slot = btree::slot_in_node(ptrs, key);
    lemma_slot(ptrs, key);
    let p = ptrs[k];
    let l = child_lo(ptrs, k, lo);
    let h = child_hi(ptrs, k, hi);
    lemma_child_is_walked(image, geom, ptrs, 0, depth, k);
    lemma_walk(image, geom, p.blockptr, l, h, depth + 1);
    let items = btree::walk_from(image, geom, p.blockptr, None, depth + 1).items;
    let i = choose|i: int| 0 <= i < items.len() && items[i] == item;
    assert(within(items[i].key, l, h));
    if k < slot {
        if k + 1 < slot {
            assert(btree::key_less(ptrs[k + 1].key, ptrs[slot].key));
        }
    } else if k > slot {
        assert(btree::key_less(key, ptrs[k].key));
    }
}

/// Whether the children of every node of the tree rooted at `at` stand exactly
/// one level below it.
pub open spec fn levelled(image: Image, geom: GeometryModel, at: u64, depth: nat) -> bool
    decreases MAX_LEVEL - depth,
{
    btree::block_at(image, geom, at) matches Ok(b) ==> btree::header_of(b).level != 0 && depth
        < MAX_LEVEL ==> forall|k: int|
        #![trigger btree::node_ptrs(b)[k]]
        0 <= k < btree::node_ptrs(b).len() ==> {
            let child = btree::node_ptrs(b)[k].blockptr;
            &&& btree::block_at(image, geom, child) matches Ok(c) ==> btree::header_of(c).level
                == btree::header_of(b).level - 1
            &&& levelled(image, geom, child, depth + 1)
        }
}

/// A descent reaches a leaf wherever the walk meets no fault and levels fall
/// by one.
proof fn lemma_descent_arrives(
    image: Image,
    geom: GeometryModel,
    root: u64,
    at: u64,
    expected: Option<u8>,
    key: DiskKey,
    depth: nat,
)
    requires
        levelled(image, geom, at, depth),
        btree::walk_from(image, geom, at, None, depth).fault is None,
        btree::block_at(image, geom, at) matches Ok(b) ==> (expected matches Some(want)
            ==> btree::header_of(b).level == want),
    ensures
        btree::leaf_for(image, geom, root, at, expected, key, (MAX_LEVEL - depth) as nat) is Ok,
    decreases MAX_LEVEL - depth,
{
    let b = btree::block_at(image, geom, at)->Ok_0;
    if btree::header_of(b).level != 0 {
        btree::law_parsed_block_is_sound(b, at, geom, btree::block_intact(b, geom));
        let ptrs = btree::node_ptrs(b);
        let slot = btree::slot_in_node(ptrs, key);
        lemma_slot(ptrs, key);
        lemma_child_is_walked(image, geom, ptrs, 0, depth, slot);
        lemma_descent_arrives(
            image,
            geom,
            root,
            ptrs[slot].blockptr,
            Some((btree::header_of(b).level - 1) as u8),
            key,
            depth + 1,
        );
    }
}

/// A search of a divided tree whose levels fall by one and whose walk meets no
/// fault reaches a leaf, finds there the item under exactly its key that the
/// walk comes across, and finds none where the walk comes across none.
pub proof fn law_a_search_finds_what_the_walk_finds(
    image: Image,
    geom: GeometryModel,
    root: u64,
    key: DiskKey,
)
    requires
        divided(image, geom, root, None, None, 0),
        levelled(image, geom, root, 0),
        btree::walk_from(image, geom, root, None, 0).fault is None,
    ensures
        match btree::leaf_for(image, geom, root, root, None, key, MAX_LEVEL as nat) {
            Err(_) => false,
            Ok(leaf) => match btree::found_in_leaf(leaf, key) {
                Some(item) => item.key == key && btree::walk_from(
                    image,
                    geom,
                    root,
                    None,
                    0,
                ).items.contains(item),
                None => forall|i: int|
                    0 <= i < btree::walk_from(image, geom, root, None, 0).items.len() ==> (
                    #[trigger] btree::walk_from(image, geom, root, None, 0).items[i]).key != key,
            },
        },
{
    lemma_descent_arrives(image, geom, root, root, None, key, 0);
    let leaf = btree::leaf_for(image, geom, root, root, None, key, MAX_LEVEL as nat)->Ok_0;
    lemma_descent(image, geom, root, root, None, key, MAX_LEVEL as nat, None, None, 0);
    let all = btree::walk_from(image, geom, root, None, 0).items;
    let a = choose|a: u64| #[trigger] btree::block_at(image, geom, a) == Ok::<Seq<u8>, ErrorView>(
        leaf,
    );
    lemma_leaf_ascends(leaf, a, geom);
    let items = btree::leaf_contents(leaf);
    let keys = btree::item_keys(btree::leaf_items(leaf));
    let r = btree::rank(keys, key);
    btree::lemma_rank(keys, key);
    match btree::found_in_leaf(leaf, key) {
        Some(item) => {
            assert(items[r] == item);
            assert(items.contains(item));
        },
        None => {
            assert forall|i: int| 0 <= i < all.len() implies (#[trigger] all[i]).key != key by {
                if all[i].key == key {
                    assert(all.contains(all[i]));
                    let j = choose|j: int| 0 <= j < items.len() && items[j] == all[i];
                    assert(keys[j] == key);
                    assert forall|x: int, y: int| 0 <= x < y < keys.len() implies btree::key_less(
                        #[trigger] keys[x],
                        #[trigger] keys[y],
                    ) by {
                        assert(btree::key_less(items[x].key, items[y].key));
                    }
                    if j < r {
                        lemma_before_rank(keys, key, j);
                    } else if j > r {
                        assert(btree::key_less(keys[r], keys[j]));
                    }
                }
            }
        },
    }
}

} // verus!
