//! Adding an item to a leaf, and taking one out.
//!
//! Recording an allocation means putting a `METADATA_ITEM` into the extent
//! tree, and releasing one means taking it out. Both are edits to a leaf's
//! item list, and both keep the list sorted: a search bisects on that order,
//! so an unsorted leaf finds some items and silently misses others.
//!
//! [`crate::tree_write::build_leaf`] turns a list into bytes. This produces
//! the list.
//!
//! When an item will not fit, the leaf divides in two. The boundary is not
//! part of the on-disk contract: any split that leaves both halves ordered,
//! non-empty and inside a block reads back correctly. This halves the item
//! count, and where half the items are too many for a block it takes the first
//! boundary that leaves both sides inside one.

use vstd::prelude::*;
use vstd::slice::slice_subrange;

use crate::btree;
use crate::btree::{key_before, ItemModel};
use crate::bytes::copy_range;
use crate::chunk::DiskKey;
use crate::error::{Error, ErrorView, Result};
use crate::text;
use crate::text::Part::{Dec, Lit};
use crate::text::{cat3, cat5, cat7};
use crate::tree_write;
use crate::tree_write::{space_total, LeafItem};

pub mod edit_laws;

verus! {

/// An item to place, owning its bytes.
#[derive(Debug, Clone, PartialEq, Eq)]
pub struct OwnedItem {
    pub key: DiskKey,
    pub data: Vec<u8>,
}

impl View for OwnedItem {
    type V = ItemModel;

    open spec fn view(&self) -> ItemModel {
        ItemModel { key: self.key, data: self.data@ }
    }
}

/// What a list of items holds.
pub open spec fn owned_models(items: Seq<OwnedItem>) -> Seq<ItemModel> {
    Seq::new(items.len(), |i: int| items[i]@)
}

/// The keys of a list of items.
pub open spec fn keys(s: Seq<ItemModel>) -> Seq<DiskKey> {
    Seq::new(s.len(), |i: int| s[i].key)
}

/// Whether keys strictly ascend.
pub open spec fn sorted(s: Seq<ItemModel>) -> bool {
    forall|i: int, j: int| 0 <= i < j < s.len() ==> btree::key_less(
        (#[trigger] s[i]).key,
        (#[trigger] s[j]).key,
    )
}

/// Where an item under `key` stands in `s`, or would.
pub open spec fn position(s: Seq<ItemModel>, key: DiskKey) -> int {
    btree::rank(keys(s), key)
}

/// Whether an item under `key` stands where one would.
pub open spec fn present(s: Seq<ItemModel>, key: DiskKey) -> bool {
    position(s, key) < s.len() && s[position(s, key)].key == key
}

pub open spec fn already_there(key: DiskKey) -> ErrorView {
    ErrorView::UnsupportedFeature(
        "the leaf already holds an item under "@ + key.shown()
            + "; replacing it is a different operation from inserting"@,
    )
}

/// What putting `item` into `s` gives.
pub open spec fn insert_outcome(nodesize: u32, s: Seq<ItemModel>, item: ItemModel) -> std::result::Result<
    Seq<ItemModel>,
    ErrorView,
> {
    let out = s.insert(position(s, item.key), item);
    if present(s, item.key) {
        Err(already_there(item.key))
    } else if tree_write::space(out) > nodesize {
        Err(
            ErrorView::UnsupportedFeature(
                "the item does not fit: "@ + text::dec(out.len()) + " items need "@ + text::dec(
                    tree_write::held(tree_write::space(out)) as nat,
                ) + " bytes and a leaf holds "@ + text::dec(nodesize as nat)
                    + ". `insert` produces one leaf by definition — use `insert_or_split`, which returns two when the contents no longer fit in one, and add the second to the parent."@,
            ),
        )
    } else {
        Ok(out)
    }
}

/// What taking the item under `key` out of `s` gives.
pub open spec fn delete_outcome(s: Seq<ItemModel>, key: DiskKey) -> std::result::Result<
    Seq<ItemModel>,
    ErrorView,
> {
    if present(s, key) {
        Ok(s.remove(position(s, key)))
    } else {
        Err(
            ErrorView::UnsupportedFeature(
                "the leaf holds no item under "@ + key.shown()
                    + ", so there is nothing to remove and the caller's picture of the tree is wrong"@,
            ),
        )
    }
}

/// What splitting `s` gives: half the items on the left, the odd one with
/// them.
pub open spec fn split_outcome(s: Seq<ItemModel>) -> std::result::Result<
    (Seq<ItemModel>, Seq<ItemModel>),
    ErrorView,
> {
    let mid: int = (s.len() as int + 1) / 2;
    if s.len() < 2 {
        Err(
            ErrorView::UnsupportedFeature(
                "a leaf of "@ + text::dec(s.len())
                    + " item(s) cannot be split into two that both hold something"@,
            ),
        )
    } else {
        Ok((s.take(mid), s.skip(mid)))
    }
}

/// Whether cutting `s` at `at` leaves two leaves that hold something and fit
/// in a block.
pub open spec fn cut_fits(nodesize: u32, s: Seq<ItemModel>, at: int) -> bool {
    &&& 0 < at < s.len()
    &&& tree_write::space(s.take(at)) <= nodesize
    &&& tree_write::space(s.skip(at)) <= nodesize
}

/// Whether some cut of `s` leaves two leaves that fit in a block.
pub open spec fn divisible(nodesize: u32, s: Seq<ItemModel>) -> bool {
    exists|at: int| cut_fits(nodesize, s, at)
}

/// The first cut from `from` on that leaves two leaves that fit in a block;
/// the length of `s` where there is none.
pub open spec fn first_cut(nodesize: u32, s: Seq<ItemModel>, from: int) -> int
    decreases s.len() - from,
{
    if from >= s.len() {
        s.len() as int
    } else if cut_fits(nodesize, s, from) {
        from
    } else {
        first_cut(nodesize, s, from + 1)
    }
}

/// What dividing `s` into two leaves that fit in a block gives: at half the
/// item count where that will do, else at the first cut that does.
pub open spec fn division_outcome(nodesize: u32, s: Seq<ItemModel>) -> std::result::Result<
    (Seq<ItemModel>, Seq<ItemModel>),
    ErrorView,
> {
    let half: int = (s.len() as int + 1) / 2;
    let first: int = first_cut(nodesize, s, 1);
    if s.len() < 2 || cut_fits(nodesize, s, half) {
        split_outcome(s)
    } else if first < s.len() {
        Ok((s.take(first), s.skip(first)))
    } else {
        Err(
            ErrorView::UnsupportedFeature(
                "no boundary divides "@ + text::dec(s.len())
                    + " items into two leaves that each fit in a block of "@ + text::dec(
                    nodesize as nat,
                ) + " bytes"@,
            ),
        )
    }
}

/// What putting `item` into `s` gives when two leaves may come of it.
pub open spec fn insert_or_split_outcome(
    nodesize: u32,
    s: Seq<ItemModel>,
    item: ItemModel,
) -> std::result::Result<Seq<Seq<ItemModel>>, ErrorView> {
    if tree_write::space(s.push(item)) <= nodesize {
        match insert_outcome(nodesize, s, item) {
            Ok(out) => Ok(seq![out]),
            Err(e) => Err(e),
        }
    } else if present(s, item.key) {
        Err(already_there(item.key))
    } else {
        match division_outcome(nodesize, s.insert(position(s, item.key), item)) {
            Ok((left, right)) => Ok(seq![left, right]),
            Err(e) => Err(e),
        }
    }
}

/// Whether `lists` are leaves that hold something, fit in a block each, and
/// together are `all`.
pub open spec fn laid_out(nodesize: u32, all: Seq<ItemModel>, lists: Seq<Seq<ItemModel>>) -> bool {
    &&& lists.len() == 1 || lists.len() == 2
    &&& lists.len() == 1 ==> lists[0] == all
    &&& lists.len() == 2 ==> lists[0] + lists[1] == all
    &&& forall|i: int|
        0 <= i < lists.len() ==> (#[trigger] lists[i]).len() > 0 && tree_write::space(lists[i])
            <= nodesize
}

impl OwnedItem {
    /// Borrow as a [`LeafItem`] for encoding.
    pub fn as_leaf_item(&self) -> (item: LeafItem<'_>)
        ensures
            item@ == self@,
    {
        LeafItem { key: self.key, data: self.data.as_slice() }
    }

    /// An item that holds the same.
    pub fn duplicate(&self) -> (copy: Self)
        ensures
            copy@ == self@,
    {
        let data = copy_range(self.data.as_slice(), 0, self.data.len());
        assert(data@ =~= self.data@);
        OwnedItem { key: self.key, data }
    }
}

/// Borrow a whole list for encoding.
pub(crate) fn borrow_all(items: &[OwnedItem]) -> (out: Vec<LeafItem<'_>>)
    ensures
        tree_write::placed_models(out@) == owned_models(items@),
{
    let mut out: Vec<LeafItem<'_>> = Vec::new();
    let mut i: usize = 0;
    while i < items.len()
        invariant
            i <= items@.len(),
            out@.len() == i,
            forall|k: int| 0 <= k < i ==> (#[trigger] out@[k])@ == items@[k]@,
        decreases items@.len() - i,
    {
        out.push(items[i].as_leaf_item());
        i = i + 1;
    }
    assert(tree_write::placed_models(out@) =~= owned_models(items@));
    out
}

/// Copy the items `from .. to` behind those in `out`.
fn copy_items(out: &mut Vec<OwnedItem>, items: &[OwnedItem], from: usize, to: usize)
    requires
        from <= to <= items@.len(),
    ensures
        owned_models(final(out)@) == owned_models(old(out)@) + owned_models(items@).subrange(
            from as int,
            to as int,
        ),
{
    let ghost before = owned_models(out@);
    let mut i: usize = from;
    assert(owned_models(out@) =~= before + owned_models(items@).subrange(from as int, from as int));
    while i < to
        invariant
            from <= i <= to <= items@.len(),
            owned_models(out@) == before + owned_models(items@).subrange(from as int, i as int),
        decreases to - i,
    {
        let ghost so_far = out@;
        out.push(items[i].duplicate());
        i = i + 1;
        assert(owned_models(out@) =~= owned_models(so_far).push(items@[i - 1]@));
        assert(owned_models(out@) =~= before + owned_models(items@).subrange(
            from as int,
            i as int,
        ));
    }
}

/// Where an item under `key` stands, or would, and whether one does.
fn find(items: &[OwnedItem], key: &DiskKey) -> (r: (usize, bool))
    ensures
        r.0 == position(owned_models(items@), *key),
        r.0 <= items@.len(),
        r.1 == present(owned_models(items@), *key),
{
    let ghost all = keys(owned_models(items@));
    let mut at: usize = items.len();
    assert(all.take(at as int) =~= all);
    while at > 0 && !key_before(&items[at - 1].key, key)
        invariant
            at <= items@.len(),
            all == keys(owned_models(items@)),
            btree::rank(all, *key) == btree::rank(all.take(at as int), *key),
        decreases at,
    {
        at = at - 1;
        assert(all.take(at + 1).drop_last() =~= all.take(at as int));
    }
    let there = at < items.len() && items[at].key == *key;
    (at, there)
}

/// The list with `item` put in at position `at`.
fn with_item(items: &[OwnedItem], at: usize, item: OwnedItem) -> (out: Vec<OwnedItem>)
    requires
        at <= items@.len(),
    ensures
        owned_models(out@) == owned_models(items@).insert(at as int, item@),
{
    let mut out: Vec<OwnedItem> = Vec::new();
    assert(owned_models(out@) =~= Seq::<ItemModel>::empty());
    copy_items(&mut out, items, 0, at);
    let ghost so_far = out@;
    out.push(item);
    assert(owned_models(out@) =~= owned_models(so_far).push(item@));
    copy_items(&mut out, items, at, items.len());
    assert(owned_models(out@) =~= owned_models(items@).insert(at as int, item@));
    out
}

/// Put `item` into `items`, keeping the order.
///
/// `nodesize` is the block size the result must fit in. An item with the same
/// key is not replaced.
pub fn insert(nodesize: u32, items: &[OwnedItem], item: OwnedItem) -> (r: Result<Vec<OwnedItem>>)
    ensures
        match r {
            Ok(out) => insert_outcome(nodesize, owned_models(items@), item@) == Ok::<
                Seq<ItemModel>,
                ErrorView,
            >(owned_models(out@)),
            Err(e) => insert_outcome(nodesize, owned_models(items@), item@) == Err::<
                Seq<ItemModel>,
                ErrorView,
            >(e@),
        },
{
    let (at, there) = find(items, &item.key);
    if there {
        return Err(refuse_duplicate(&item.key));
    }
    let out = with_item(items, at, item);
    let borrowed = borrow_all(out.as_slice());
    let needed: u64 = space_total(borrowed.as_slice());
    if needed > nodesize as u64 {
        return Err(
            Error::UnsupportedFeature(
                cat7(
                    Lit("the item does not fit: "),
                    Dec(out.len() as u64),
                    Lit(" items need "),
                    Dec(needed),
                    Lit(" bytes and a leaf holds "),
                    Dec(nodesize as u64),
                    Lit(
                        ". `insert` produces one leaf by definition — use `insert_or_split`, which returns two when the contents no longer fit in one, and add the second to the parent.",
                    ),
                ),
            ),
        );
    }
    Ok(out)
}

fn refuse_duplicate(key: &DiskKey) -> (e: Error)
    ensures
        e@ == already_there(*key),
{
    let shown = key.show();
    Error::UnsupportedFeature(
        cat3(
            Lit("the leaf already holds an item under "),
            Lit(shown.as_str()),
            Lit("; replacing it is a different operation from inserting"),
        ),
    )
}

/// Take the item under `key` out. Removing something that is not there is not
/// a no-op.
pub fn delete(items: &[OwnedItem], key: &DiskKey) -> (r: Result<Vec<OwnedItem>>)
    ensures
        match r {
            Ok(out) => delete_outcome(owned_models(items@), *key) == Ok::<
                Seq<ItemModel>,
                ErrorView,
            >(owned_models(out@)),
            Err(e) => delete_outcome(owned_models(items@), *key) == Err::<
                Seq<ItemModel>,
                ErrorView,
            >(e@),
        },
{
    let (at, there) = find(items, key);
    if !there {
        let shown = key.show();
        return Err(
            Error::UnsupportedFeature(
                cat3(
                    Lit("the leaf holds no item under "),
                    Lit(shown.as_str()),
                    Lit(
                        ", so there is nothing to remove and the caller's picture of the tree is wrong",
                    ),
                ),
            ),
        );
    }
    let mut out: Vec<OwnedItem> = Vec::new();
    assert(owned_models(out@) =~= Seq::<ItemModel>::empty());
    copy_items(&mut out, items, 0, at);
    assert(at < items.len());
    copy_items(&mut out, items, at + 1, items.len());
    assert(owned_models(out@) =~= owned_models(items@).remove(at as int));
    Ok(out)
}

/// Split a list of items in two, at half the item count, rounded up.
///
/// It does not check that each half fits in a block.
pub fn split(items: &[OwnedItem]) -> (r: Result<(Vec<OwnedItem>, Vec<OwnedItem>)>)
    ensures
        match r {
            Ok((left, right)) => split_outcome(owned_models(items@)) == Ok::<
                (Seq<ItemModel>, Seq<ItemModel>),
                ErrorView,
            >((owned_models(left@), owned_models(right@))),
            Err(e) => split_outcome(owned_models(items@)) == Err::<
                (Seq<ItemModel>, Seq<ItemModel>),
                ErrorView,
            >(e@),
        },
{
    if items.len() < 2 {
        return Err(
            Error::UnsupportedFeature(
                cat3(
                    Lit("a leaf of "),
                    Dec(items.len() as u64),
                    Lit(" item(s) cannot be split into two that both hold something"),
                ),
            ),
        );
    }
    let mid: usize = items.len() / 2 + items.len() % 2;
    let mut left: Vec<OwnedItem> = Vec::new();
    let mut right: Vec<OwnedItem> = Vec::new();
    assert(owned_models(left@) =~= Seq::<ItemModel>::empty());
    assert(owned_models(right@) =~= Seq::<ItemModel>::empty());
    copy_items(&mut left, items, 0, mid);
    copy_items(&mut right, items, mid, items.len());
    assert(owned_models(left@) =~= owned_models(items@).take(mid as int));
    assert(owned_models(right@) =~= owned_models(items@).skip(mid as int));
    Ok((left, right))
}

/// What a list of lists of items holds.
pub open spec fn leaves(lists: Seq<Vec<OwnedItem>>) -> Seq<Seq<ItemModel>> {
    Seq::new(lists.len(), |i: int| owned_models(lists[i]@))
}

/// Whether cutting `items` at `at` leaves two leaves that fit in a block.
fn cut_is_sound(nodesize: u32, items: &[OwnedItem], at: usize) -> (yes: bool)
    requires
        0 < at < items@.len(),
    ensures
        yes == cut_fits(nodesize, owned_models(items@), at as int),
{
    let left = borrow_all(slice_subrange(items, 0, at));
    let right = borrow_all(slice_subrange(items, at, items.len()));
    assert(tree_write::placed_models(left@) =~= owned_models(items@).take(at as int));
    assert(tree_write::placed_models(right@) =~= owned_models(items@).skip(at as int));
    space_total(left.as_slice()) <= nodesize as u64 && space_total(right.as_slice())
        <= nodesize as u64
}

/// Divide a list of items into two that each fit in a block: at half the item
/// count where that will do, else at the first boundary that does.
fn divide(nodesize: u32, items: &[OwnedItem]) -> (r: Result<(Vec<OwnedItem>, Vec<OwnedItem>)>)
    ensures
        match r {
            Ok((left, right)) => division_outcome(nodesize, owned_models(items@)) == Ok::<
                (Seq<ItemModel>, Seq<ItemModel>),
                ErrorView,
            >((owned_models(left@), owned_models(right@))),
            Err(e) => division_outcome(nodesize, owned_models(items@)) == Err::<
                (Seq<ItemModel>, Seq<ItemModel>),
                ErrorView,
            >(e@),
        },
{
    let ghost all = owned_models(items@);
    if items.len() < 2 {
        return split(items);
    }
    let half: usize = items.len() / 2 + items.len() % 2;
    if cut_is_sound(nodesize, items, half) {
        return split(items);
    }
    let mut at: usize = 1;
    while at < items.len() && !cut_is_sound(nodesize, items, at)
        invariant
            1 <= at <= items@.len(),
            all == owned_models(items@),
            first_cut(nodesize, all, 1) == first_cut(nodesize, all, at as int),
        decreases items@.len() - at,
    {
        at = at + 1;
    }
    if at == items.len() {
        return Err(
            Error::UnsupportedFeature(
                cat5(
                    Lit("no boundary divides "),
                    Dec(items.len() as u64),
                    Lit(" items into two leaves that each fit in a block of "),
                    Dec(nodesize as u64),
                    Lit(" bytes"),
                ),
            ),
        );
    }
    let mut left: Vec<OwnedItem> = Vec::new();
    let mut right: Vec<OwnedItem> = Vec::new();
    assert(owned_models(left@) =~= Seq::<ItemModel>::empty());
    assert(owned_models(right@) =~= Seq::<ItemModel>::empty());
    copy_items(&mut left, items, 0, at);
    copy_items(&mut right, items, at, items.len());
    assert(owned_models(left@) =~= all.take(at as int));
    assert(owned_models(right@) =~= all.skip(at as int));
    Ok((left, right))
}

/// Put `item` in, splitting if it will not fit.
///
/// Returns one list when it fitted and two when the leaf had to split. Each
/// fits in a block. Not fitting is an error only where no boundary leaves two
/// leaves that do.
pub fn insert_or_split(nodesize: u32, items: &[OwnedItem], item: OwnedItem) -> (r: Result<
    Vec<Vec<OwnedItem>>,
>)
    ensures
        match r {
            Ok(lists) => insert_or_split_outcome(nodesize, owned_models(items@), item@) == Ok::<
                Seq<Seq<ItemModel>>,
                ErrorView,
            >(leaves(lists@)),
            Err(e) => insert_or_split_outcome(nodesize, owned_models(items@), item@) == Err::<
                Seq<Seq<ItemModel>>,
                ErrorView,
            >(e@),
        },
        ({
            let s = owned_models(items@);
            let all = s.insert(position(s, item@.key), item@);
            &&& r matches Ok(lists) ==> laid_out(nodesize, all, leaves(lists@))
            &&& r is Ok <==> !present(s, item@.key) && (tree_write::space(all) <= nodesize
                || divisible(nodesize, all))
        }),
{
    let ghost s = owned_models(items@);
    proof {
        law_a_split_makes_room(nodesize, s, item@);
    }
    let mut out: Vec<Vec<OwnedItem>> = Vec::new();
    if fits(nodesize, items, &item) {
        let one = match insert(nodesize, items, item) {
            Ok(one) => one,
            Err(e) => return Err(e),
        };
        let ghost held = owned_models(one@);
        out.push(one);
        assert(leaves(out@) =~= seq![held]);
        return Ok(out);
    }
    // Ordered first, then divided: the boundary is a position in the final
    // list, not in the one before the insert.
    let (at, there) = find(items, &item.key);
    if there {
        return Err(refuse_duplicate(&item.key));
    }
    let all = with_item(items, at, item);
    match divide(nodesize, all.as_slice()) {
        Ok((left, right)) => {
            let ghost both = seq![owned_models(left@), owned_models(right@)];
            out.push(left);
            out.push(right);
            assert(leaves(out@) =~= both);
            Ok(out)
        },
        Err(e) => Err(e),
    }
}

/// Whether `item` would fit alongside `items`.
pub fn fits(nodesize: u32, items: &[OwnedItem], item: &OwnedItem) -> (yes: bool)
    ensures
        yes == (tree_write::space(owned_models(items@).push(item@)) <= nodesize),
{
    let mut borrowed = borrow_all(items);
    let ghost so_far = borrowed@;
    borrowed.push(item.as_leaf_item());
    assert(tree_write::placed_models(borrowed@) =~= tree_write::placed_models(so_far).push(item@));
    space_total(borrowed.as_slice()) <= nodesize as u64
}

pub(crate) proof fn lemma_position(s: Seq<ItemModel>, key: DiskKey)
    ensures
        0 <= position(s, key) <= s.len(),
        sorted(s) ==> forall|i: int|
            0 <= i < position(s, key) ==> btree::key_less((#[trigger] s[i]).key, key),
        forall|i: int| position(s, key) <= i < s.len() ==> !btree::key_less(
            (#[trigger] s[i]).key,
            key,
        ),
{
    let at: int = position(s, key);
    btree::lemma_rank(keys(s), key);
    if sorted(s) {
        assert forall|i: int| 0 <= i < at implies btree::key_less((#[trigger] s[i]).key, key) by {
            assert(keys(s)[at - 1] == s[at - 1].key);
            if i < at - 1 {
                assert(btree::key_less(s[i].key, s[at - 1].key));
            }
        }
    }
    assert forall|i: int| at <= i < s.len() implies !btree::key_less(
        (#[trigger] s[i]).key,
        key,
    ) by {
        assert(keys(s)[i] == s[i].key);
    }
}

/// In a sorted list an item stands where one would exactly when the list holds
/// one under that key.
pub proof fn law_present_means_held(s: Seq<ItemModel>, key: DiskKey)
    requires
        sorted(s),
    ensures
        present(s, key) <==> exists|i: int| 0 <= i < s.len() && (#[trigger] s[i]).key == key,
{
    lemma_position(s, key);
    let at: int = position(s, key);
    if exists|i: int| 0 <= i < s.len() && (#[trigger] s[i]).key == key {
        let i = choose|i: int| 0 <= i < s.len() && (#[trigger] s[i]).key == key;
        assert(i >= at);
        if i > at {
            assert(btree::key_less(s[at].key, s[i].key));
        }
    }
}

proof fn lemma_sorted_insert(s: Seq<ItemModel>, item: ItemModel)
    requires
        sorted(s),
        !present(s, item.key),
    ensures
        sorted(s.insert(position(s, item.key), item)),
{
    lemma_position(s, item.key);
    let at: int = position(s, item.key);
    let out = s.insert(at, item);
    assert forall|i: int, j: int| 0 <= i < j < out.len() implies btree::key_less(
        (#[trigger] out[i]).key,
        (#[trigger] out[j]).key,
    ) by {
        if i == at {
            assert(!btree::key_less(s[j - 1].key, item.key));
            if j - 1 > at {
                assert(btree::key_less(s[at].key, s[j - 1].key));
            }
        }
    }
}

/// Inserting keeps a sorted list sorted, and the item is then held.
pub proof fn law_insert_keeps_order(nodesize: u32, s: Seq<ItemModel>, item: ItemModel)
    requires
        sorted(s),
    ensures
        insert_outcome(nodesize, s, item) matches Ok(out) ==> {
            &&& sorted(out)
            &&& present(out, item.key)
            &&& out[position(out, item.key)] == item
            &&& out.len() == s.len() + 1
        },
{
    lemma_position(s, item.key);
    let at: int = position(s, item.key);
    if insert_outcome(nodesize, s, item) is Ok {
        let out = s.insert(at, item);
        lemma_sorted_insert(s, item);
        lemma_position(out, item.key);
        let there: int = position(out, item.key);
        if there < at {
            assert(btree::key_less(out[there].key, out[at].key));
        } else if there > at {
            assert(btree::key_less(out[at].key, item.key));
        }
        assert(there == at);
    }
}

/// Deleting what was inserted gives back the list there was.
pub proof fn law_delete_undoes_insert(nodesize: u32, s: Seq<ItemModel>, item: ItemModel)
    requires
        sorted(s),
        insert_outcome(nodesize, s, item) is Ok,
    ensures
        delete_outcome(insert_outcome(nodesize, s, item)->Ok_0, item.key) == Ok::<
            Seq<ItemModel>,
            ErrorView,
        >(s),
{
    let out = insert_outcome(nodesize, s, item)->Ok_0;
    let at: int = position(s, item.key);
    law_insert_keeps_order(nodesize, s, item);
    lemma_position(s, item.key);
    lemma_position(out, item.key);
    let there: int = position(out, item.key);
    if there < at {
        assert(btree::key_less(out[there].key, out[at].key));
    } else if there > at {
        assert(btree::key_less(out[at].key, item.key));
    }
    assert(out.remove(at) =~= s);
}

/// Deleting keeps a sorted list sorted, and no item under that key is left.
pub proof fn law_delete_keeps_order(s: Seq<ItemModel>, key: DiskKey)
    requires
        sorted(s),
    ensures
        delete_outcome(s, key) matches Ok(out) ==> {
            &&& sorted(out)
            &&& forall|i: int| 0 <= i < out.len() ==> (#[trigger] out[i]).key != key
            &&& out.len() == s.len() - 1
        },
{
    lemma_position(s, key);
    let at: int = position(s, key);
    if present(s, key) {
        let out = s.remove(at);
        assert forall|i: int| 0 <= i < out.len() implies (#[trigger] out[i]).key != key by {
            if i < at {
                assert(btree::key_less(s[i].key, s[at].key));
            } else {
                assert(btree::key_less(s[at].key, s[i + 1].key));
            }
        }
    }
}

/// A split leaves something on both sides, nothing lost and nothing moved: the
/// halves together are the list, and each half of a sorted list is sorted.
pub proof fn law_split_divides(s: Seq<ItemModel>)
    ensures
        split_outcome(s) matches Ok(halves) ==> {
            &&& halves.0.len() > 0
            &&& halves.1.len() > 0
            &&& halves.0 + halves.1 == s
            &&& sorted(s) ==> sorted(halves.0) && sorted(halves.1)
        },
        s.len() >= 2 ==> split_outcome(s) is Ok,
{
    if let Ok(halves) = split_outcome(s) {
        assert(halves.0 + halves.1 =~= s);
    }
}

proof fn lemma_data_insert(s: Seq<ItemModel>, at: int, item: ItemModel, n: int)
    requires
        0 <= at <= s.len(),
        0 <= n <= s.len() + 1,
    ensures
        tree_write::data_before(s.insert(at, item), n) == (if n <= at {
            tree_write::data_before(s, n)
        } else {
            tree_write::data_before(s, n - 1) + item.data.len()
        }),
    decreases n,
{
    if n > 0 {
        lemma_data_insert(s, at, item, n - 1);
    }
}

proof fn lemma_data_split(s: Seq<ItemModel>, mid: int, n: int)
    requires
        0 <= mid <= s.len(),
        0 <= n <= s.len(),
    ensures
        n <= mid ==> tree_write::data_before(s.take(mid), n) == tree_write::data_before(s, n),
        n >= mid ==> tree_write::data_before(s, n) == tree_write::data_before(s, mid)
            + tree_write::data_before(s.skip(mid), n - mid),
    decreases n,
{
    if n > 0 {
        lemma_data_split(s, mid, n - 1);
    }
}

proof fn lemma_first_cut(nodesize: u32, s: Seq<ItemModel>, from: int)
    requires
        1 <= from <= s.len(),
    ensures
        from <= first_cut(nodesize, s, from) <= s.len(),
        first_cut(nodesize, s, from) < s.len() ==> cut_fits(
            nodesize,
            s,
            first_cut(nodesize, s, from),
        ),
        forall|at: int| from <= at && #[trigger] cut_fits(nodesize, s, at) ==> first_cut(
            nodesize,
            s,
            from,
        ) <= at,
    decreases s.len() - from,
{
    if from < s.len() && !cut_fits(nodesize, s, from) {
        lemma_first_cut(nodesize, s, from + 1);
    }
}

proof fn lemma_division(nodesize: u32, s: Seq<ItemModel>)
    ensures
        division_outcome(nodesize, s) matches Ok(halves) ==> {
            &&& halves.0.len() > 0
            &&& halves.1.len() > 0
            &&& tree_write::space(halves.0) <= nodesize
            &&& tree_write::space(halves.1) <= nodesize
            &&& halves.0 + halves.1 == s
            &&& sorted(s) ==> sorted(halves.0) && sorted(halves.1)
        },
        division_outcome(nodesize, s) is Ok <==> divisible(nodesize, s),
{
    let half: int = (s.len() as int + 1) / 2;
    if s.len() >= 2 {
        lemma_first_cut(nodesize, s, 1);
        let first: int = first_cut(nodesize, s, 1);
        if divisible(nodesize, s) {
            let at = choose|at: int| cut_fits(nodesize, s, at);
            assert(first <= at);
        }
        assert(s.take(half) + s.skip(half) =~= s);
        assert(s.take(first) + s.skip(first) =~= s);
    }
}

/// Putting an item in with a split succeeds exactly when its key is free and
/// its leaf fits in a block or some cut of it leaves two that do. Each leaf
/// that comes out holds something, fits in a block, and is in key order where
/// the old leaf was; together they are the old leaf with the item in it. One
/// comes out exactly when one is enough.
pub proof fn law_a_split_makes_room(nodesize: u32, s: Seq<ItemModel>, item: ItemModel)
    ensures
        ({
            let all = s.insert(position(s, item.key), item);
            let outcome = insert_or_split_outcome(nodesize, s, item);
            &&& outcome is Ok <==> !present(s, item.key) && (tree_write::space(all) <= nodesize
                || divisible(nodesize, all))
            &&& outcome matches Ok(lists) ==> {
                &&& laid_out(nodesize, all, lists)
                &&& lists.len() == 1 <==> tree_write::space(all) <= nodesize
                &&& sorted(s) ==> forall|i: int|
                    0 <= i < lists.len() ==> sorted(#[trigger] lists[i])
            }
        }),
{
    lemma_position(s, item.key);
    let n: int = s.len() as int;
    let all = s.insert(position(s, item.key), item);
    lemma_data_insert(s, position(s, item.key), item, n + 1);
    lemma_data_insert(s, n, item, n + 1);
    assert(s.insert(n, item) =~= s.push(item));
    lemma_division(nodesize, all);
    if sorted(s) && !present(s, item.key) {
        lemma_sorted_insert(s, item);
    }
}

/// An item that takes at most half the room of a leaf can always be put into a
/// leaf that fits in a block, unless its key is taken: some cut leaves two
/// leaves that fit.
pub proof fn law_a_small_item_always_goes_in(nodesize: u32, s: Seq<ItemModel>, item: ItemModel)
    requires
        tree_write::space(s) <= nodesize,
        2 * (tree_write::space(seq![item]) - btree::HEADER_SIZE) <= nodesize - btree::HEADER_SIZE,
        !present(s, item.key),
    ensures
        insert_or_split_outcome(nodesize, s, item) is Ok,
{
    lemma_position(s, item.key);
    let n: int = s.len() as int;
    let at: int = position(s, item.key);
    let all = s.insert(at, item);
    law_a_split_makes_room(nodesize, s, item);
    lemma_data_insert(s, at, item, n + 1);
    lemma_data_insert(s, at, item, at);
    lemma_data_insert(s, at, item, at + 1);
    assert(tree_write::data_before(seq![item], 1) == item.data.len()) by {
        reveal_with_fuel(tree_write::data_before, 2);
    }
    if tree_write::space(all) > nodesize {
        lemma_data_split(all, at, at);
        lemma_data_split(all, at, n + 1);
        lemma_data_split(all, at + 1, at + 1);
        lemma_data_split(all, at + 1, n + 1);
        assert(n > 0) by {
            if n == 0 {
                assert(tree_write::data_before(s, 0) == 0);
            }
        }
        assert(cut_fits(nodesize, all, at) || cut_fits(nodesize, all, at + 1));
    }
}

/// An item that fits alongside a list can be inserted into it, unless its key
/// is taken: where it goes does not change how much room it needs.
pub proof fn law_what_fits_inserts(nodesize: u32, s: Seq<ItemModel>, item: ItemModel)
    ensures
        !present(s, item.key) ==> (insert_outcome(nodesize, s, item) is Ok <==> tree_write::space(
            s.push(item),
        ) <= nodesize),
{
    lemma_position(s, item.key);
    let n: int = s.len() as int;
    lemma_data_insert(s, position(s, item.key), item, n + 1);
    lemma_data_insert(s, n, item, n + 1);
    assert(s.insert(n, item) =~= s.push(item));
}

} // verus!
