//! Which digest the checksum tree holds for which sector.

use vstd::prelude::*;

use crate::btree;
use crate::btree::laws as walks;
use crate::btree::{GeometryModel, Image, Item, ItemModel};
use crate::chunk::DiskKey;
use crate::csum;
use crate::error::ErrorView;

verus! {

/// Whether an item files digests.
pub open spec fn files_digests(x: ItemModel) -> bool {
    x.key.objectid == 0xFFFF_FFFF_FFFF_FFF6 && x.key.key_type == 128
}

/// Whether digest `i` of an item is `d`, and stands for the sector at `k`: the
/// digests of an item are `w` bytes each, for one sector after another from
/// the address in its key on.
pub open spec fn says(x: ItemModel, w: int, ss: int, k: u64, i: int, d: Seq<u8>) -> bool {
    &&& files_digests(x)
    &&& 0 <= i
    &&& k == x.key.offset + i * ss
    &&& i * w + w <= x.data.len()
    &&& d == x.data.subrange(i * w, i * w + w)
}

/// Whether one of `items` says that the digest of the sector at `k` is `d`.
pub open spec fn told(items: Seq<ItemModel>, w: int, ss: int, k: u64, d: Seq<u8>) -> bool {
    exists|x: ItemModel, i: int| #[trigger]
        items.contains(x) && #[trigger] says(x, w, ss, k, i, d)
}

proof fn lemma_noted(
    m: Map<u64, Seq<u8>>,
    x: ItemModel,
    w: int,
    ss: int,
    start: u64,
    end: u64,
    j: int,
    k: u64,
)
    requires
        0 < w,
        0 < ss,
        0 <= j,
        files_digests(x),
    ensures
        ({
            let all = csum::noted(
                m,
                x.data,
                w,
                ss,
                start,
                end,
                j * w,
                x.key.offset + j * ss,
            );
            &&& m.contains_key(k) ==> all.contains_key(k)
            &&& all.contains_key(k) ==> (m.contains_key(k) && all[k] == m[k]) || exists|i: int|
                #[trigger] says(x, w, ss, k, i, all[k])
        }),
    decreases x.data.len() - j * w,
{
    let pos = j * w;
    let sector: int = x.key.offset + j * ss;
    assert(pos >= 0 && j * ss >= 0) by (nonlinear_arith)
        requires
            pos == j * w,
            0 <= j,
            0 < w,
            0 < ss,
    ;
    if pos + w <= x.data.len() && sector < end {
        let next = if sector >= start {
            m.insert(sector as u64, x.data.subrange(pos, pos + w))
        } else {
            m
        };
        assert((j + 1) * w == pos + w) by (nonlinear_arith)
            requires
                pos == j * w,
        ;
        assert(x.key.offset + (j + 1) * ss == sector + ss) by (nonlinear_arith)
            requires
                sector == x.key.offset + j * ss,
        ;
        lemma_noted(next, x, w, ss, start, end, j + 1, k);
        if next.contains_key(k) && !(m.contains_key(k) && next[k] == m[k]) {
            assert(says(x, w, ss, k, j, next[k]));
        }
    }
}

proof fn lemma_all_noted(
    m: Map<u64, Seq<u8>>,
    items: Seq<ItemModel>,
    w: int,
    ss: int,
    start: u64,
    end: u64,
    from: int,
    k: u64,
)
    requires
        0 < w,
        0 < ss,
        0 <= from <= items.len(),
        forall|i: int| 0 <= i < items.len() ==> files_digests(#[trigger] items[i]),
    ensures
        ({
            let all = csum::all_noted(m, items, w, ss, start, end, from);
            &&& m.contains_key(k) ==> all.contains_key(k)
            &&& all.contains_key(k) ==> (m.contains_key(k) && all[k] == m[k]) || told(
                items,
                w,
                ss,
                k,
                all[k],
            )
            &&& forall|q: int, i: int, d: Seq<u8>|
                from <= q < items.len() && #[trigger] says(items[q], w, ss, k, i, d) && start <= k
                    < end ==> all.contains_key(k)
        }),
    decreases items.len() - from,
{
    if from < items.len() {
        let x = items[from];
        let next = csum::noted(m, x.data, w, ss, start, end, 0, x.key.offset as int);
        assert(0 * w == 0 && 0 * ss == 0) by (nonlinear_arith);
        lemma_noted(m, x, w, ss, start, end, 0, k);
        lemma_all_noted(next, items, w, ss, start, end, from + 1, k);
        let all = csum::all_noted(m, items, w, ss, start, end, from);
        assert(items.contains(x));
        assert forall|q: int, i: int, d: Seq<u8>|
            from <= q < items.len() && #[trigger] says(items[q], w, ss, k, i, d) && start <= k
                < end implies all.contains_key(k) by {
            if q == from {
                csum::law_a_sector_gets_its_own_digest(
                    m,
                    x.data,
                    w,
                    ss,
                    start,
                    end,
                    x.key.offset,
                    i,
                );
            }
        }
    }
}

/// The item whose digests a search starts from is the last in its leaf that
/// files digests from at or before `start` on.
pub proof fn law_a_search_starts_from_the_covering_item(items: Seq<Item>, start: u64, i: int)
    requires
        0 <= i < items.len(),
        items[i].key.objectid == 0xFFFF_FFFF_FFFF_FFF6,
        items[i].key.key_type == 128,
        items[i].key.offset <= start,
        forall|j: int|
            i < j < items.len() ==> !((#[trigger] items[j]).key.objectid == 0xFFFF_FFFF_FFFF_FFF6
                && items[j].key.key_type == 128 && items[j].key.offset <= start),
    ensures
        csum::covering_key(items, start) == items[i].key,
    decreases items.len(),
{
    if i < items.len() - 1 {
        let front = items.drop_last();
        assert forall|j: int| i < j < front.len() implies !((#[trigger] front[j]).key.objectid
            == 0xFFFF_FFFF_FFFF_FFF6 && front[j].key.key_type == 128 && front[j].key.offset
            <= start) by {
            assert(front[j] == items[j]);
        }
        assert(items[items.len() - 1] == items.last());
        law_a_search_starts_from_the_covering_item(front, start, i);
    }
}

proof fn lemma_from(items: Seq<Item>, start: u64)
    ensures
        ({
            let from = csum::covering_key(items, start);
            from.objectid == 0xFFFF_FFFF_FFFF_FFF6 && from.key_type == 128 && from.offset <= start
        }),
    decreases items.len(),
{
    if items.len() > 0 {
        lemma_from(items.drop_last(), start);
    }
}

/// What is given of the checksum tree is what its items say: a digest comes
/// back for a sector of the range only as an item of the tree says it, and for
/// every sector of the range that an item speaks of, be it one that starts in
/// the range or the one the search starts from.
pub proof fn law_digests_come_from_their_items(
    image: Image,
    geom: GeometryModel,
    root: u64,
    w: usize,
    ss: u64,
    start: u64,
    len: u64,
    leaf: Seq<u8>,
    k: u64,
)
    requires
        0 < w,
        0 < ss,
        0 < len,
        start + len <= u64::MAX,
        walks::divided(image, geom, root, None, None, 0),
        btree::walk_from(image, geom, root, None, 0).fault is None,
        btree::leaf_for(
            image,
            geom,
            root,
            root,
            None,
            (DiskKey { objectid: 0xFFFF_FFFF_FFFF_FFF6, key_type: 128, offset: start }),
            8,
        ) == Ok::<Seq<u8>, ErrorView>(leaf),
    ensures
        ({
            let items = btree::walk_from(image, geom, root, None, 0).items;
            let r = csum::digests_outcome(image, geom, root, w, ss, start, len);
            &&& r is Ok
            &&& r->Ok_0.contains_key(k) ==> start <= k < start + len && told(
                items,
                w as int,
                ss as int,
                k,
                r->Ok_0[k],
            )
            &&& forall|x: ItemModel, i: int, d: Seq<u8>|
                items.contains(x) && #[trigger] says(x, w as int, ss as int, k, i, d) && start <= k
                    < start + len && (start <= x.key.offset || x.key == csum::covering_key(
                    btree::leaf_items(leaf),
                    start,
                )) ==> r->Ok_0.contains_key(k)
        }),
{
    let all = btree::walk_from(image, geom, root, None, 0).items;
    let from = csum::covering_key(btree::leaf_items(leaf), start);
    let s = btree::walk_from(image, geom, root, Some(from), 0);
    let end = csum::range_end(start, len);
    let keep = csum::starts_before(end);
    let list = btree::run(s.items, keep);
    walks::law_a_walk_comes_in_key_order(image, geom, root);
    walks::law_a_walk_from_a_key_leaves_out_what_is_below(image, geom, root, from);
    walks::lemma_filter_ascends(all, walks::not_below(from));
    lemma_from(btree::leaf_items(leaf), start);
    btree::lemma_run(s.items, keep);
    assert(btree::visited(s, keep) is Ok);
    csum::law_digests_stay_in_range(image, geom, root, w, ss, start, len);
    assert forall|i: int| 0 <= i < list.len() implies files_digests(#[trigger] list[i]) by {
        assert(list[i] == s.items[i]);
        assert(keep(s.items[i]));
    }
    lemma_all_noted(Map::empty(), list, w as int, ss as int, start, end, 0, k);
    let m = csum::digests_outcome(image, geom, root, w, ss, start, len)->Ok_0;
    if m.contains_key(k) {
        let (x, i) = choose|x: ItemModel, i: int| #[trigger]
            list.contains(x) && #[trigger] says(x, w as int, ss as int, k, i, m[k]);
        let q = choose|q: int| 0 <= q < list.len() && list[q] == x;
        assert(s.items[q] == x);
        assert(all.contains(s.items[q]));
    }
    assert forall|x: ItemModel, i: int, d: Seq<u8>|
        all.contains(x) && #[trigger] says(x, w as int, ss as int, k, i, d) && start <= k < start
            + len && (start <= x.key.offset || x.key == from) implies m.contains_key(k) by {
        let at = choose|at: int| 0 <= at < all.len() && all[at] == x;
        assert(walks::not_below(from)(x));
        all.lemma_filter_contains(walks::not_below(from), at);
        let q = choose|q: int| 0 <= q < s.items.len() && s.items[q] == x;
        assert(x.key.offset <= k) by (nonlinear_arith)
            requires
                k == x.key.offset + i * ss,
                i >= 0,
                ss > 0,
        ;
        let n: int = list.len() as int;
        if n <= q {
            let y = s.items[n];
            assert(!keep(y));
            assert(walks::not_below(from)(y));
            if n < q {
                assert(btree::key_less(s.items[n].key, s.items[q].key));
            }
            assert(files_digests(y) && y.key.offset <= x.key.offset);
        }
        assert(list[q] == x);
        assert(says(list[q], w as int, ss as int, k, i, d));
    }
}

} // verus!
