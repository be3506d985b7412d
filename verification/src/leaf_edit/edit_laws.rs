//! What editing a leaf's items does to them.

use vstd::prelude::*;

use crate::btree::ItemModel;
use crate::chunk::DiskKey;
use crate::leaf_edit;
use crate::tree_write;

verus! {

/// The bytes a leaf of `s` takes: its header, then an entry and its data for
/// each item.
pub open spec fn need(s: Seq<ItemModel>) -> int
    decreases s.len(),
{
    if s.len() == 0 {
        101
    } else {
        need(s.drop_last()) + 25 + s.last().data.len()
    }
}

proof fn lemma_data_front(s: Seq<ItemModel>, n: int)
    requires
        0 <= n < s.len(),
    ensures
        tree_write::data_before(s.drop_last(), n) == tree_write::data_before(s, n),
    decreases n,
{
    if n > 0 {
        lemma_data_front(s, n - 1);
    }
}

pub(crate) proof fn lemma_need(s: Seq<ItemModel>)
    ensures
        need(s) == tree_write::space(s),
    decreases s.len(),
{
    if s.len() > 0 {
        lemma_need(s.drop_last());
        lemma_data_front(s, s.len() - 1);
    }
}

/// An item goes into a leaf exactly where no item of the leaf has its key and
/// the leaf has room for its entry and its data. The leaf then holds what it
/// held and the item, in key order.
pub proof fn law_an_item_goes_in_where_there_is_room(
    nodesize: u32,
    s: Seq<ItemModel>,
    item: ItemModel,
)
    requires
        leaf_edit::sorted(s),
    ensures
        leaf_edit::insert_outcome(nodesize, s, item) is Ok <==> (forall|i: int|
            0 <= i < s.len() ==> (#[trigger] s[i]).key != item.key) && need(s) + 25
            + item.data.len() <= nodesize,
        leaf_edit::insert_outcome(nodesize, s, item) matches Ok(out) ==> {
            &&& leaf_edit::sorted(out)
            &&& out.len() == s.len() + 1
            &&& forall|x: ItemModel| #[trigger] out.contains(x) <==> s.contains(x) || x == item
        },
{
    leaf_edit::law_what_fits_inserts(nodesize, s, item);
    leaf_edit::law_present_means_held(s, item.key);
    leaf_edit::law_insert_keeps_order(nodesize, s, item);
    leaf_edit::lemma_position(s, item.key);
    lemma_need(s.push(item));
    assert(s.push(item).drop_last() =~= s);
    if let Ok(out) = leaf_edit::insert_outcome(nodesize, s, item) {
        let at = leaf_edit::position(s, item.key);
        assert forall|x: ItemModel| #[trigger] out.contains(x) <==> s.contains(x) || x
            == item by {
            if out.contains(x) {
                let i = choose|i: int| 0 <= i < out.len() && out[i] == x;
                if i < at {
                    assert(s[i] == x);
                } else if i > at {
                    assert(s[i - 1] == x);
                }
            }
            if s.contains(x) {
                let i = choose|i: int| 0 <= i < s.len() && s[i] == x;
                if i < at {
                    assert(out[i] == x);
                } else {
                    assert(out[i + 1] == x);
                }
            }
            assert(out[at] == item);
        }
    }
}

/// An item is taken out of a leaf exactly where one has the key, and the leaf
/// then holds every other item, in key order.
pub proof fn law_an_item_is_taken_out_by_its_key(s: Seq<ItemModel>, key: DiskKey)
    requires
        leaf_edit::sorted(s),
    ensures
        leaf_edit::delete_outcome(s, key) is Ok <==> exists|i: int|
            0 <= i < s.len() && (#[trigger] s[i]).key == key,
        leaf_edit::delete_outcome(s, key) matches Ok(out) ==> {
            &&& leaf_edit::sorted(out)
            &&& out.len() == s.len() - 1
            &&& forall|x: ItemModel| #[trigger]
                out.contains(x) <==> s.contains(x) && x.key != key
        },
{
    leaf_edit::law_present_means_held(s, key);
    leaf_edit::law_delete_keeps_order(s, key);
    leaf_edit::lemma_position(s, key);
    if let Ok(out) = leaf_edit::delete_outcome(s, key) {
        let at = leaf_edit::position(s, key);
        assert forall|x: ItemModel| #[trigger] out.contains(x) <==> s.contains(x) && x.key
            != key by {
            if out.contains(x) {
                let i = choose|i: int| 0 <= i < out.len() && out[i] == x;
                if i < at {
                    assert(s[i] == x);
                } else {
                    assert(s[i + 1] == x);
                }
            }
            if s.contains(x) && x.key != key {
                let i = choose|i: int| 0 <= i < s.len() && s[i] == x;
                if i < at {
                    assert(out[i] == x);
                } else {
                    assert(out[i - 1] == x);
                }
            }
        }
    }
}

/// A leaf of two items or more splits into two that are the leaf end to end,
/// as long as each other, the left one longer by one where they cannot be.
pub proof fn law_a_leaf_splits_in_the_middle(s: Seq<ItemModel>)
    ensures
        leaf_edit::split_outcome(s) is Ok <==> s.len() >= 2,
        leaf_edit::split_outcome(s) matches Ok(halves) ==> {
            &&& halves.0 + halves.1 == s
            &&& halves.0.len() - halves.1.len() == s.len() % 2
        },
{
    leaf_edit::law_split_divides(s);
}

/// Whether the first `at` items make a leaf that fits in a block, and the rest
/// another.
pub open spec fn cuts(nodesize: u32, s: Seq<ItemModel>, at: int) -> bool {
    0 < at < s.len() && need(s.take(at)) <= nodesize && need(s.skip(at)) <= nodesize
}

proof fn lemma_cuts(nodesize: u32, s: Seq<ItemModel>, at: int)
    requires
        0 < at < s.len(),
    ensures
        cuts(nodesize, s, at) <==> leaf_edit::cut_fits(nodesize, s, at),
{
    lemma_need(s.take(at));
    lemma_need(s.skip(at));
}

proof fn lemma_first_cut(nodesize: u32, s: Seq<ItemModel>, from: int)
    requires
        0 < from <= s.len(),
    ensures
        from <= leaf_edit::first_cut(nodesize, s, from) <= s.len(),
        forall|at: int|
            from <= at < leaf_edit::first_cut(nodesize, s, from) ==> !#[trigger] cuts(
                nodesize,
                s,
                at,
            ),
    decreases s.len() - from,
{
    if from < s.len() {
        lemma_cuts(nodesize, s, from);
        if !leaf_edit::cut_fits(nodesize, s, from) {
            lemma_first_cut(nodesize, s, from + 1);
        }
    }
}

/// Where two leaves come of putting an item in, they are the leaf with the
/// item in it end to end. They hold the same number of items, the left one
/// one more of an odd number, where that makes both fit; otherwise nothing
/// shorter on the left would make both fit.
pub proof fn law_a_full_leaf_is_cut_in_the_middle_where_it_can_be(
    nodesize: u32,
    s: Seq<ItemModel>,
    item: ItemModel,
)
    ensures
        leaf_edit::insert_or_split_outcome(nodesize, s, item) matches Ok(lists) ==> (lists.len() == 2
            ==> {
            let all = lists[0] + lists[1];
            let half = (all.len() + 1) / 2;
            &&& all == s.insert(leaf_edit::position(s, item.key), item)
            &&& need(all) > nodesize
            &&& cuts(nodesize, all, lists[0].len() as int)
            &&& cuts(nodesize, all, half as int) ==> lists[0].len() == half
            &&& !cuts(nodesize, all, half as int) ==> forall|at: int|
                0 < at < lists[0].len() ==> !#[trigger] cuts(nodesize, all, at)
        }),
{
    leaf_edit::law_a_split_makes_room(nodesize, s, item);
    leaf_edit::lemma_position(s, item.key);
    let all = s.insert(leaf_edit::position(s, item.key), item);
    lemma_need(all);
    if let Ok(lists) = leaf_edit::insert_or_split_outcome(nodesize, s, item) {
        if lists.len() == 2 {
            assert(lists[0] + lists[1] == all);
            let at: int = lists[0].len() as int;
            assert(all.take(at) =~= lists[0]);
            assert(all.skip(at) =~= lists[1]);
            assert(tree_write::space(lists[0]) <= nodesize);
            assert(tree_write::space(lists[1]) <= nodesize);
            lemma_cuts(nodesize, all, at);
            lemma_cuts(nodesize, all, (all.len() as int + 1) / 2);
            lemma_first_cut(nodesize, all, 1);
        }
    }
}

} // verus!
