//! The items of a tree, held in key order.
//!
//! Btrfs answers even a single `stat` by descending from a tree's root, so a
//! mount loads the items of the tree it reads once and looks them up here.

use vstd::prelude::*;

use crate::btree;
use crate::btree::{key_before, ItemModel, LeafItem};
use crate::chunk::DiskKey;
use crate::leaf_edit;

pub mod filing_laws;

verus! {

/// Items in key order, no two under one key.
#[derive(Debug)]
pub struct ItemMap {
    items: Vec<LeafItem>,
}

impl View for ItemMap {
    type V = Seq<ItemModel>;

    closed spec fn view(&self) -> Seq<ItemModel> {
        btree::models(self.items@)
    }
}

/// `s` with `item` filed under its key, in place of what was there.
pub open spec fn filed(s: Seq<ItemModel>, item: ItemModel) -> Seq<ItemModel> {
    let at = leaf_edit::position(s, item.key);
    if leaf_edit::present(s, item.key) {
        s.update(at, item)
    } else {
        s.insert(at, item)
    }
}

/// The items of `s`, each filed in turn: the last one under a key stays.
pub open spec fn loaded(s: Seq<ItemModel>) -> Seq<ItemModel>
    decreases s.len(),
{
    if s.len() == 0 {
        s
    } else {
        filed(loaded(s.drop_last()), s.last())
    }
}

/// The data filed under `key`.
pub open spec fn data_under(s: Seq<ItemModel>, key: DiskKey) -> Option<Seq<u8>> {
    if leaf_edit::present(s, key) {
        Some(s[leaf_edit::position(s, key)].data)
    } else {
        None
    }
}

/// Whether an item belongs to `objectid` and is of type `key_type`.
pub open spec fn is_kind(objectid: u64, key_type: u8) -> spec_fn(ItemModel) -> bool {
    |i: ItemModel| i.key.objectid == objectid && i.key.key_type == key_type
}

/// The items of type `key_type` that belong to `objectid`, in key order.
pub open spec fn of_kind(s: Seq<ItemModel>, objectid: u64, key_type: u8) -> Seq<ItemModel> {
    s.filter(is_kind(objectid, key_type))
}

/// Filing an item keeps the order.
pub proof fn law_filing_keeps_order(s: Seq<ItemModel>, item: ItemModel)
    requires
        leaf_edit::sorted(s),
    ensures
        leaf_edit::sorted(filed(s, item)),
        data_under(filed(s, item), item.key) == Some(item.data),
{
    let at = leaf_edit::position(s, item.key);
    btree::lemma_rank(leaf_edit::keys(s), item.key);
    let t = filed(s, item);
    assert forall|i: int| 0 <= i < at implies btree::key_less((#[trigger] s[i]).key, item.key) by {
        if i < at - 1 {
            assert(btree::key_less(s[i].key, s[at - 1].key));
        }
        assert(leaf_edit::keys(s)[at - 1] == s[at - 1].key);
    }
    assert forall|i: int| at <= i < s.len() implies !btree::key_less(
        (#[trigger] s[i]).key,
        item.key,
    ) by {
        assert(leaf_edit::keys(s)[i] == s[i].key);
    }
    assert forall|i: int, j: int| 0 <= i < j < t.len() implies btree::key_less(
        (#[trigger] t[i]).key,
        (#[trigger] t[j]).key,
    ) by {
        if leaf_edit::present(s, item.key) {
            if i == at {
                assert(btree::key_less(s[at].key, s[j].key));
            }
        } else {
            if i < at && j > at {
                assert(btree::key_less(s[i].key, s[j - 1].key));
            } else if i == at {
                assert(!btree::key_less(s[j - 1].key, item.key));
                if j - 1 > at {
                    assert(btree::key_less(s[at].key, s[j - 1].key));
                }
                assert(s[j - 1].key != item.key);
            }
        }
    }
    lemma_position(t, item.key, at);
}

/// Items that already stand in key order are held as they are.
pub proof fn law_ordered_items_are_held_as_they_are(s: Seq<ItemModel>)
    requires
        leaf_edit::sorted(s),
    ensures
        loaded(s) == s,
    decreases s.len(),
{
    if s.len() > 0 {
        let front = s.drop_last();
        assert forall|i: int, j: int| 0 <= i < j < front.len() implies btree::key_less(
            (#[trigger] front[i]).key,
            (#[trigger] front[j]).key,
        ) by {
            assert(front[i] == s[i] && front[j] == s[j]);
        }
        law_ordered_items_are_held_as_they_are(front);
        let last = s.last();
        if front.len() > 0 {
            assert(btree::key_less(s[front.len() - 1].key, s[s.len() - 1].key));
            assert(leaf_edit::keys(front).last() == s[front.len() - 1].key);
        }
        assert(leaf_edit::position(front, last.key) == front.len());
        assert(front.insert(front.len() as int, last) =~= s);
    }
}

/// In items that stand in key order, `at` is where `key` belongs when all
/// before it are smaller and none from it on is.
proof fn lemma_position(s: Seq<ItemModel>, key: DiskKey, at: int)
    requires
        0 <= at <= s.len(),
        forall|i: int| 0 <= i < at ==> btree::key_less((#[trigger] s[i]).key, key),
        forall|i: int| at <= i < s.len() ==> !btree::key_less((#[trigger] s[i]).key, key),
    ensures
        leaf_edit::position(s, key) == at,
{
    let keys = leaf_edit::keys(s);
    btree::lemma_rank(keys, key);
    let r = btree::rank(keys, key);
    if r > at {
        assert(keys[r - 1] == s[r - 1].key);
    }
    if r < at {
        assert(keys[r] == s[r].key);
    }
}

proof fn lemma_filter_run(s: Seq<ItemModel>, keep: spec_fn(ItemModel) -> bool, lo: int, hi: int)
    requires
        0 <= lo <= hi <= s.len(),
        forall|i: int| 0 <= i < s.len() ==> keep(#[trigger] s[i]) == (lo <= i < hi),
    ensures
        s.filter(keep) == s.subrange(lo, hi),
    decreases s.len(),
{
    reveal(Seq::filter);
    if s.len() > 0 {
        let front = s.drop_last();
        let n: int = s.len() - 1;
        assert forall|i: int| 0 <= i < front.len() implies keep(#[trigger] front[i]) == (lo <= i
            < hi) by {
            assert(front[i] == s[i]);
        }
        assert(keep(s[n]) == (lo <= n < hi));
        if hi == s.len() && lo < hi {
            lemma_filter_run(front, keep, lo, hi - 1);
            assert(s.subrange(lo, hi) =~= front.subrange(lo, hi - 1).push(s.last()));
        } else if hi == s.len() {
            lemma_filter_run(front, keep, lo - 1, hi - 1);
            assert(s.subrange(lo, hi) =~= front.subrange(lo - 1, hi - 1));
        } else {
            lemma_filter_run(front, keep, lo, hi);
            assert(s.subrange(lo, hi) =~= front.subrange(lo, hi));
        }
    } else {
        assert(s.filter(keep) =~= s.subrange(lo, hi));
    }
}

impl ItemMap {
    /// Whether the items stand in key order.
    pub open spec fn ordered(&self) -> bool {
        leaf_edit::sorted(self@)
    }

    /// A map that holds nothing.
    pub fn new() -> (map: Self)
        ensures
            map@ == Seq::<ItemModel>::empty(),
            map.ordered(),
    {
        let map = ItemMap { items: Vec::new() };
        assert(map@ =~= Seq::<ItemModel>::empty());
        map
    }

    /// A map of `items`, the last one under each key.
    pub fn load(items: Vec<LeafItem>) -> (map: Self)
        ensures
            map@ == loaded(btree::models(items@)),
            map.ordered(),
    {
        let ghost all = btree::models(items@);
        let mut map = ItemMap::new();
        let mut rest = items;
        // The items are taken from the front, so they are turned round first
        // and then popped.
        let mut turned: Vec<LeafItem> = Vec::new();
        let n: usize = rest.len();
        while rest.len() > 0
            invariant
                rest@.len() + turned@.len() == n,
                n == all.len(),
                forall|i: int| 0 <= i < rest@.len() ==> (#[trigger] rest@[i])@ == all[i],
                forall|i: int|
                    0 <= i < turned@.len() ==> (#[trigger] turned@[i])@ == all[n - 1 - i],
            decreases rest@.len(),
        {
            if let Some(item) = rest.pop() {
                turned.push(item);
            }
        }
        assert(all.take(0) =~= Seq::<ItemModel>::empty());
        while turned.len() > 0
            invariant
                turned@.len() <= n,
                n == all.len(),
                forall|i: int|
                    0 <= i < turned@.len() ==> (#[trigger] turned@[i])@ == all[n - 1 - i],
                map.ordered(),
                map@ == loaded(all.take(n - turned@.len())),
            decreases turned@.len(),
        {
            if let Some(item) = turned.pop() {
                let ghost done: int = n - turned@.len() - 1;
                assert(item@ == all[done]);
                assert(all.take(done + 1).drop_last() =~= all.take(done));
                assert(all.take(done + 1).last() == all[done]);
                map.put(item);
            }
        }
        assert(all.take(n as int) =~= all);
        map
    }

    /// Where an item under `key` stands, or would.
    fn slot(&self, key: &DiskKey) -> (at: usize)
        requires
            self.ordered(),
        ensures
            at == leaf_edit::position(self@, *key),
            at <= self@.len(),
            self@.len() == self.items@.len(),
            forall|i: int| 0 <= i < at ==> btree::key_less((#[trigger] self@[i]).key, *key),
            forall|i: int| at <= i < self@.len() ==> !btree::key_less((#[trigger] self@[i]).key, *key),
    {
        let mut lo: usize = 0;
        let mut hi: usize = self.items.len();
        while lo < hi
            invariant
                self.ordered(),
                self@.len() == self.items@.len(),
                lo <= hi <= self@.len(),
                forall|i: int| 0 <= i < lo ==> btree::key_less((#[trigger] self@[i]).key, *key),
                forall|i: int|
                    hi <= i < self@.len() ==> !btree::key_less((#[trigger] self@[i]).key, *key),
            decreases hi - lo,
        {
            let mid: usize = lo + (hi - lo) / 2;
            assert(self@[mid as int] == self.items@[mid as int]@);
            if key_before(&self.items[mid].key, key) {
                assert forall|i: int| 0 <= i < mid + 1 implies btree::key_less(
                    (#[trigger] self@[i]).key,
                    *key,
                ) by {
                    if i < mid {
                        assert(btree::key_less(self@[i].key, self@[mid as int].key));
                    }
                }
                lo = mid + 1;
            } else {
                assert forall|i: int| mid <= i < self@.len() implies !btree::key_less(
                    (#[trigger] self@[i]).key,
                    *key,
                ) by {
                    if i > mid {
                        assert(btree::key_less(self@[mid as int].key, self@[i].key));
                    }
                }
                hi = mid;
            }
        }
        proof {
            lemma_position(self@, *key, lo as int);
        }
        lo
    }

    /// File `item` under its key, in place of what was there.
    pub fn put(&mut self, item: LeafItem)
        requires
            old(self).ordered(),
        ensures
            final(self)@ == filed(old(self)@, item@),
            final(self).ordered(),
    {
        let at: usize = self.slot(&item.key);
        proof {
            law_filing_keeps_order(self@, item@);
        }
        if at < self.items.len() && self.items[at].key == item.key {
            assert(self@[at as int] == self.items@[at as int]@);
            self.items.set(at, item);
            assert(self@ =~= old(self)@.update(at as int, item@));
        } else {
            if at < self.items.len() {
                assert(self@[at as int] == self.items@[at as int]@);
            }
            self.items.insert(at, item);
            assert(self@ =~= old(self)@.insert(at as int, item@));
        }
    }

    /// The data filed under `key`.
    pub fn get(&self, key: &DiskKey) -> (r: Option<&[u8]>)
        requires
            self.ordered(),
        ensures
            match r {
                Some(data) => data_under(self@, *key) == Some(data@),
                None => data_under(self@, *key) is None,
            },
    {
        let at: usize = self.slot(key);
        if at < self.items.len() {
            assert(self@[at as int] == self.items@[at as int]@);
            if self.items[at].key == *key {
                return Some(self.items[at].data.as_slice());
            }
        }
        None
    }

    /// The items of type `key_type` that belong to `objectid`, in key order.
    pub fn range(&self, objectid: u64, key_type: u8) -> (out: &[LeafItem])
        requires
            self.ordered(),
        ensures
            btree::models(out@) == of_kind(self@, objectid, key_type),
            forall|i: int|
                0 <= i < out@.len() ==> (#[trigger] out@[i]).key.objectid == objectid
                    && out@[i].key.key_type == key_type,
    {
        let first = DiskKey { objectid, key_type, offset: 0 };
        let lo: usize = self.slot(&first);
        let mut hi: usize = lo;
        let ghost keep = is_kind(objectid, key_type);
        while hi < self.items.len() && self.items[hi].key.objectid == objectid
            && self.items[hi].key.key_type == key_type
            invariant
                self@.len() == self.items@.len(),
                lo <= hi <= self@.len(),
                keep == is_kind(objectid, key_type),
                forall|i: int| lo <= i < hi ==> keep(#[trigger] self@[i]),
            decreases self@.len() - hi,
        {
            assert(self@[hi as int] == self.items@[hi as int]@);
            hi = hi + 1;
        }
        let out = vstd::slice::slice_subrange(self.items.as_slice(), lo, hi);
        proof {
            assert forall|i: int| 0 <= i < self@.len() implies keep(#[trigger] self@[i]) == (lo <= i
                < hi) by {
                if i < lo {
                    assert(btree::key_less(self@[i].key, first));
                } else if i >= hi {
                    assert(self@[hi as int] == self.items@[hi as int]@);
                    assert(!keep(self@[hi as int]));
                    assert(!btree::key_less(self@[hi as int].key, first));
                    if i > hi {
                        assert(btree::key_less(self@[hi as int].key, self@[i].key));
                    }
                }
            }
            lemma_filter_run(self@, keep, lo as int, hi as int);
            assert(btree::models(out@) =~= self@.subrange(lo as int, hi as int));
            assert forall|i: int| 0 <= i < out@.len() implies (#[trigger] out@[i]).key.objectid
                == objectid && out@[i].key.key_type == key_type by {
                assert(keep(self@[lo + i]));
                assert(self@[lo + i] == self.items@[lo + i]@);
            }
        }
        out
    }
}

} // verus!
