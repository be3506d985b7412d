//! The checksum tree: what the filesystem says its data should hash to.
//!
//! Every sector of every ordinary data extent has a digest filed in a tree of
//! its own:
//!
//! ```text
//! objectid = BTRFS_EXTENT_CSUM_OBJECTID  (-10, i.e. u64::MAX - 9)
//! type     = BTRFS_EXTENT_CSUM_KEY       (128)
//! offset   = logical address of the first sector the item covers
//! ```
//!
//! An item's data is a packed array of digests covering consecutive sectors
//! from `offset` onwards, so the item covering a given sector is the last one
//! whose offset is at or below it, not necessarily one filed at exactly that
//! address.
//!
//! Not every sector has a digest, and a missing one is not a fault: a file
//! marked `NODATASUM` has none, and a preallocated extent holds no data yet.
//! Absence is "nothing to check", and only a digest that is present and does
//! not match is an error. File data is held to its digests in
//! [`crate::fs::sums`].

use std::collections::BTreeMap;

use vstd::prelude::*;

use crate::btree;
use crate::btree::{GeometryModel, Image, Item, ItemModel, LeafItem, Tree};
use crate::bytes::copy_range;
use crate::chunk::DiskKey;
use crate::error::{Error, ErrorView, Result};
use crate::superblock::MAX_LEVEL;

pub mod item_laws;

verus! {

/// `BTRFS_CSUM_TREE_OBJECTID`: the root tree's entry for this tree.
pub const CSUM_TREE_OBJECTID: u64 = 7;

/// `BTRFS_EXTENT_CSUM_KEY`.
pub const EXTENT_CSUM_KEY: u8 = 128;

/// `BTRFS_EXTENT_CSUM_OBJECTID`, a constant tag spelled `-10`. Keys are
/// compared as unsigned, so it sorts near the top of the tree.
pub const EXTENT_CSUM_OBJECTID: u64 = u64::MAX - 9;

/// The digests covering a run of sectors, by the logical address of the
/// sector each one describes. Only sectors the tree names are present.
pub type SectorDigests = BTreeMap<u64, Vec<u8>>;

/// What digests by sector hold.
pub open spec fn digest_models(m: Map<u64, Vec<u8>>) -> Map<u64, Seq<u8>> {
    m.map_values(|d: Vec<u8>| d@)
}

/// Whether a key files digests.
pub open spec fn is_csum_key(key: DiskKey) -> bool {
    key.objectid == EXTENT_CSUM_OBJECTID && key.key_type == EXTENT_CSUM_KEY
}

/// The key digests that start at `start` are filed under.
pub open spec fn csum_key(start: u64) -> DiskKey {
    DiskKey { objectid: EXTENT_CSUM_OBJECTID, key_type: EXTENT_CSUM_KEY, offset: start }
}

/// The key of the last item of a leaf that files digests at or before
/// `start`, or the key for `start` itself where there is none.
pub open spec fn covering_key(items: Seq<Item>, start: u64) -> DiskKey
    decreases items.len(),
{
    if items.len() == 0 {
        csum_key(start)
    } else if is_csum_key(items.last().key) && items.last().key.offset <= start {
        items.last().key
    } else {
        covering_key(items.drop_last(), start)
    }
}

/// Whether an item files digests that start before `end`.
pub open spec fn starts_before(end: u64) -> spec_fn(ItemModel) -> bool {
    |i: ItemModel| is_csum_key(i.key) && i.key.offset < end
}

/// Where a range of `len` bytes from `start` on ends.
pub open spec fn range_end(start: u64, len: u64) -> u64 {
    if start + len > u64::MAX {
        u64::MAX
    } else {
        (start + len) as u64
    }
}

/// `m` with the digests of `data` from position `pos` on noted, the first of
/// them under `sector`, as far as they fall in `start .. end`.
pub open spec fn noted(
    m: Map<u64, Seq<u8>>,
    data: Seq<u8>,
    csum_size: int,
    sectorsize: int,
    start: u64,
    end: u64,
    pos: int,
    sector: int,
) -> Map<u64, Seq<u8>>
    decreases data.len() - pos,
{
    if csum_size <= 0 || pos < 0 || pos + csum_size > data.len() || sector >= end {
        m
    } else {
        noted(
            if sector >= start {
                m.insert(sector as u64, data.subrange(pos, pos + csum_size))
            } else {
                m
            },
            data,
            csum_size,
            sectorsize,
            start,
            end,
            pos + csum_size,
            sector + sectorsize,
        )
    }
}

/// `m` with the digests of the items `from ..` noted.
pub open spec fn all_noted(
    m: Map<u64, Seq<u8>>,
    items: Seq<ItemModel>,
    csum_size: int,
    sectorsize: int,
    start: u64,
    end: u64,
    from: int,
) -> Map<u64, Seq<u8>>
    decreases items.len() - from,
{
    if from < 0 || from >= items.len() {
        m
    } else {
        all_noted(
            noted(
                m,
                items[from].data,
                csum_size,
                sectorsize,
                start,
                end,
                0,
                items[from].key.offset as int,
            ),
            items,
            csum_size,
            sectorsize,
            start,
            end,
            from + 1,
        )
    }
}

/// Every digest the tree rooted at `root` holds for the sectors in
/// `start .. start + len`.
///
/// The walk begins at the item covering `start` rather than at `start`
/// itself, and ends at the first item that files no digests before the end.
pub open spec fn digests_outcome(
    image: Image,
    geom: GeometryModel,
    root: u64,
    csum_size: usize,
    sectorsize: u64,
    start: u64,
    len: u64,
) -> std::result::Result<Map<u64, Seq<u8>>, ErrorView> {
    if len == 0 || csum_size == 0 || sectorsize == 0 {
        Ok(Map::empty())
    } else {
        let end = range_end(start, len);
        match btree::leaf_for(image, geom, root, root, None, csum_key(start), MAX_LEVEL as nat) {
            Err(e) => Err(e),
            Ok(leaf) => {
                let from = covering_key(btree::leaf_items(leaf), start);
                let s = btree::walk_from(image, geom, root, Some(from), 0);
                match btree::visited(s, starts_before(end)) {
                    Err(e) => Err(e),
                    Ok(_) => Ok(
                        all_noted(
                            Map::empty(),
                            btree::run(s.items, starts_before(end)),
                            csum_size as int,
                            sectorsize as int,
                            start,
                            end,
                            0,
                        ),
                    ),
                }
            },
        }
    }
}

/// Whether every digest of `m` belongs to a sector in `start .. end` and is
/// `csum_size` bytes long.
pub open spec fn within(m: Map<u64, Seq<u8>>, csum_size: int, start: u64, end: u64) -> bool {
    forall|k: u64| #[trigger]
        m.contains_key(k) ==> start <= k < end && m[k].len() == csum_size
}

proof fn lemma_noted(
    m: Map<u64, Seq<u8>>,
    data: Seq<u8>,
    csum_size: int,
    sectorsize: int,
    start: u64,
    end: u64,
    pos: int,
    sector: int,
)
    requires
        0 <= sectorsize,
        within(m, csum_size, start, end),
    ensures
        within(
            noted(m, data, csum_size, sectorsize, start, end, pos, sector),
            csum_size,
            start,
            end,
        ),
    decreases data.len() - pos,
{
    if !(csum_size <= 0 || pos < 0 || pos + csum_size > data.len() || sector >= end) {
        let next = if sector >= start {
            m.insert(sector as u64, data.subrange(pos, pos + csum_size))
        } else {
            m
        };
        assert(within(next, csum_size, start, end));
        lemma_noted(
            next,
            data,
            csum_size,
            sectorsize,
            start,
            end,
            pos + csum_size,
            sector + sectorsize,
        );
    }
}

proof fn lemma_all_noted(
    m: Map<u64, Seq<u8>>,
    items: Seq<ItemModel>,
    csum_size: int,
    sectorsize: int,
    start: u64,
    end: u64,
    from: int,
)
    requires
        0 <= sectorsize,
        within(m, csum_size, start, end),
    ensures
        within(
            all_noted(m, items, csum_size, sectorsize, start, end, from),
            csum_size,
            start,
            end,
        ),
    decreases items.len() - from,
{
    if 0 <= from < items.len() {
        lemma_noted(
            m,
            items[from].data,
            csum_size,
            sectorsize,
            start,
            end,
            0,
            items[from].key.offset as int,
        );
        lemma_all_noted(
            noted(
                m,
                items[from].data,
                csum_size,
                sectorsize,
                start,
                end,
                0,
                items[from].key.offset as int,
            ),
            items,
            csum_size,
            sectorsize,
            start,
            end,
            from + 1,
        );
    }
}

/// Digests come back only for sectors of the range asked for, and each is as
/// long as the checksum in use makes it.
pub proof fn law_digests_stay_in_range(
    image: Image,
    geom: GeometryModel,
    root: u64,
    csum_size: usize,
    sectorsize: u64,
    start: u64,
    len: u64,
)
    ensures
        digests_outcome(image, geom, root, csum_size, sectorsize, start, len) matches Ok(m)
            ==> within(m, csum_size as int, start, range_end(start, len)),
{
    if !(len == 0 || csum_size == 0 || sectorsize == 0) {
        let end = range_end(start, len);
        if let Ok(leaf) = btree::leaf_for(
            image,
            geom,
            root,
            root,
            None,
            csum_key(start),
            MAX_LEVEL as nat,
        ) {
            let from = covering_key(btree::leaf_items(leaf), start);
            let s = btree::walk_from(image, geom, root, Some(from), 0);
            lemma_all_noted(
                Map::empty(),
                btree::run(s.items, starts_before(end)),
                csum_size as int,
                sectorsize as int,
                start,
                end,
                0,
            );
        }
    }
}

/// The digest an item holds for its sector `index` is noted under that
/// sector's address, where nothing noted later in the same item lies there.
pub proof fn law_a_sector_gets_its_own_digest(
    m: Map<u64, Seq<u8>>,
    data: Seq<u8>,
    csum_size: int,
    sectorsize: int,
    start: u64,
    end: u64,
    first: u64,
    index: int,
)
    requires
        0 < csum_size,
        0 < sectorsize,
        0 <= index,
        index * csum_size + csum_size <= data.len(),
        start <= first + index * sectorsize < end,
    ensures
        ({
            let sector = (first + index * sectorsize) as u64;
            let after = noted(m, data, csum_size, sectorsize, start, end, 0, first as int);
            &&& after.contains_key(sector)
            &&& after[sector] == data.subrange(
                index * csum_size,
                index * csum_size + csum_size,
            )
        }),
{
    lemma_own_digest(m, data, csum_size, sectorsize, start, end, 0, first as int, index);
    assert(0 * csum_size == 0 && 0 * sectorsize == 0);
}

proof fn lemma_own_digest(
    m: Map<u64, Seq<u8>>,
    data: Seq<u8>,
    csum_size: int,
    sectorsize: int,
    start: u64,
    end: u64,
    pos: int,
    sector: int,
    index: int,
)
    requires
        0 < csum_size,
        0 < sectorsize,
        0 <= index,
        0 <= pos,
        0 <= sector,
        pos + index * csum_size + csum_size <= data.len(),
        start <= sector + index * sectorsize < end,
    ensures
        ({
            let at = (sector + index * sectorsize) as u64;
            let after = noted(m, data, csum_size, sectorsize, start, end, pos, sector);
            &&& after.contains_key(at)
            &&& after[at] == data.subrange(
                pos + index * csum_size,
                pos + index * csum_size + csum_size,
            )
        }),
    decreases index,
{
    assert(index * csum_size >= 0) by (nonlinear_arith)
        requires
            index >= 0,
            csum_size > 0,
    ;
    assert(index * sectorsize >= 0) by (nonlinear_arith)
        requires
            index >= 0,
            sectorsize > 0,
    ;
    let next = if sector >= start {
        m.insert(sector as u64, data.subrange(pos, pos + csum_size))
    } else {
        m
    };
    if index == 0 {
        assert(index * csum_size == 0 && index * sectorsize == 0) by (nonlinear_arith)
            requires
                index == 0,
        ;
        lemma_later_digests(
            next,
            data,
            csum_size,
            sectorsize,
            start,
            end,
            pos + csum_size,
            sector + sectorsize,
            sector as u64,
        );
    } else {
        assert((index - 1) * csum_size == index * csum_size - csum_size) by (nonlinear_arith);
        assert((index - 1) * sectorsize == index * sectorsize - sectorsize) by (nonlinear_arith);
        assert((index - 1) * csum_size >= 0) by (nonlinear_arith)
            requires
                index >= 1,
                csum_size > 0,
        ;
        assert((index - 1) * sectorsize >= 0) by (nonlinear_arith)
            requires
                index >= 1,
                sectorsize > 0,
        ;
        lemma_own_digest(
            next,
            data,
            csum_size,
            sectorsize,
            start,
            end,
            pos + csum_size,
            sector + sectorsize,
            index - 1,
        );
    }
}

proof fn lemma_later_digests(
    m: Map<u64, Seq<u8>>,
    data: Seq<u8>,
    csum_size: int,
    sectorsize: int,
    start: u64,
    end: u64,
    pos: int,
    sector: int,
    k: u64,
)
    requires
        0 < csum_size,
        0 < sectorsize,
        k < sector,
        m.contains_key(k),
    ensures
        noted(m, data, csum_size, sectorsize, start, end, pos, sector).contains_key(k),
        noted(m, data, csum_size, sectorsize, start, end, pos, sector)[k] == m[k],
    decreases data.len() - pos,
{
    if !(pos < 0 || pos + csum_size > data.len() || sector >= end) {
        let next = if sector >= start {
            m.insert(sector as u64, data.subrange(pos, pos + csum_size))
        } else {
            m
        };
        lemma_later_digests(
            next,
            data,
            csum_size,
            sectorsize,
            start,
            end,
            pos + csum_size,
            sector + sectorsize,
            k,
        );
    }
}

/// The key of the last item of a leaf that files digests at or before
/// `start`.
fn covering(items: &[Item], start: u64) -> (from: DiskKey)
    ensures
        from == covering_key(items@, start),
{
    let mut from = DiskKey {
        objectid: EXTENT_CSUM_OBJECTID,
        key_type: EXTENT_CSUM_KEY,
        offset: start,
    };
    let mut i: usize = 0;
    assert(items@.take(0) =~= Seq::<Item>::empty());
    while i < items.len()
        invariant
            i <= items@.len(),
            from == covering_key(items@.take(i as int), start),
        decreases items@.len() - i,
    {
        let key = items[i].key;
        assert(items@.take(i + 1).drop_last() =~= items@.take(i as int));
        assert(items@.take(i + 1).last() == items@[i as int]);
        if key.objectid == EXTENT_CSUM_OBJECTID && key.key_type == EXTENT_CSUM_KEY && key.offset
            <= start {
            from = key;
        }
        i = i + 1;
    }
    assert(items@.take(items@.len() as int) =~= items@);
    from
}

/// Note the digests of one item.
fn note(
    out: &mut SectorDigests,
    item: &LeafItem,
    csum_size: usize,
    sectorsize: u64,
    start: u64,
    end: u64,
)
    requires
        csum_size > 0,
    ensures
        digest_models(final(out)@) == noted(
            digest_models(old(out)@),
            item.data@,
            csum_size as int,
            sectorsize as int,
            start,
            end,
            0,
            item.key.offset as int,
        ),
{
    let data = item.data.as_slice();
    let mut pos: usize = 0;
    let mut sector: u64 = item.key.offset;
    while data.len() - pos >= csum_size && sector < end
        invariant
            csum_size > 0,
            pos <= data@.len(),
            data@ == item.data@,
            noted(
                digest_models(old(out)@),
                item.data@,
                csum_size as int,
                sectorsize as int,
                start,
                end,
                0,
                item.key.offset as int,
            ) == noted(
                digest_models(out@),
                data@,
                csum_size as int,
                sectorsize as int,
                start,
                end,
                pos as int,
                sector as int,
            ),
        decreases data@.len() - pos,
    {
        let ghost before = out@;
        assert(pos + csum_size <= data.len());
        if sector >= start {
            let digest = copy_range(data, pos, pos + csum_size);
            let ghost kept = digest@;
            out.insert(sector, digest);
            assert(digest_models(out@) =~= digest_models(before).insert(sector, kept));
        }
        pos = pos + csum_size;
        match sector.checked_add(sectorsize) {
            Some(next) => {
                sector = next;
            },
            None => {
                // The next sector lies past the address space, so past the
                // end.
                assert(noted(
                    digest_models(out@),
                    data@,
                    csum_size as int,
                    sectorsize as int,
                    start,
                    end,
                    pos as int,
                    sector + sectorsize,
                ) == digest_models(out@));
                return;
            },
        }
    }
}

/// Whether `item` is a run of digests that starts before `end`.
fn is_before(item: &LeafItem, end: u64) -> (yes: bool)
    ensures
        yes == starts_before(end)(item@),
{
    item.key.objectid == EXTENT_CSUM_OBJECTID && item.key.key_type == EXTENT_CSUM_KEY
        && item.key.offset < end
}

/// Every digest the csum tree holds for the sectors in
/// `start .. start + len`.
///
/// `start` and `len` are expected to be sector-aligned: a digest covers a
/// whole sector and there is nothing to compare a fragment against.
pub fn digests_for_range<F: Fn(u64, usize) -> Result<Vec<u8>>>(
    tree: &Tree<'_, F>,
    root: u64,
    csum_size: usize,
    sectorsize: u64,
    start: u64,
    len: u64,
) -> (r: Result<SectorDigests>)
    requires
        tree.readable(),
    ensures
        tree.faithful() ==> match r {
            Ok(m) => digests_outcome(
                tree.image@,
                tree.geom@,
                root,
                csum_size,
                sectorsize,
                start,
                len,
            ) == Ok::<Map<u64, Seq<u8>>, ErrorView>(digest_models(m@)),
            Err(e) => digests_outcome(
                tree.image@,
                tree.geom@,
                root,
                csum_size,
                sectorsize,
                start,
                len,
            ) == Err::<Map<u64, Seq<u8>>, ErrorView>(e@),
        },
{
    let mut out = SectorDigests::new();
    assert(digest_models(out@) =~= Map::<u64, Seq<u8>>::empty());
    if len == 0 || csum_size == 0 || sectorsize == 0 {
        return Ok(out);
    }
    let end: u64 = match start.checked_add(len) {
        Some(end) => end,
        None => u64::MAX,
    };
    let target = DiskKey {
        objectid: EXTENT_CSUM_OBJECTID,
        key_type: EXTENT_CSUM_KEY,
        offset: start,
    };
    // Where to begin the walk: the item covering `start`, if the leaf that
    // would hold `start` has one before it.
    let leaf = match tree.descend(root, &target) {
        Ok(leaf) => leaf,
        Err(e) => return Err(e),
    };
    let from = match leaf.body.items() {
        Some(items) => covering(items, start),
        None => target,
    };
    let visit = |item: &LeafItem| -> (go: Result<bool>)
        ensures
            go == Ok::<bool, Error>(starts_before(end)(item@)),
        { Ok(is_before(item, end)) };
    let r = tree.for_each_from(root, &from, &visit);
    let ghost s = btree::walk_from(tree.image@, tree.geom@, root, Some(from), 0);
    let ghost keep = starts_before(end);
    proof {
        if tree.faithful() {
            btree::lemma_followed(s, &visit, r, keep);
        }
    }
    let items = match r {
        Ok(items) => items,
        Err(e) => return Err(e),
    };
    let ghost all = btree::models(items@);
    let ghost kept = btree::run(all, keep);
    proof {
        btree::lemma_run(all, keep);
        if tree.faithful() {
            btree::lemma_run_of_visited(s, keep);
        }
    }
    let mut i: usize = 0;
    while i < items.len() && is_before(&items[i], end)
        invariant
            csum_size > 0,
            i <= items@.len(),
            all == btree::models(items@),
            keep == starts_before(end),
            kept == btree::run(all, keep),
            kept == all.take(kept.len() as int),
            i <= kept.len() <= all.len(),
            forall|k: int| 0 <= k < kept.len() ==> keep(#[trigger] all[k]),
            kept.len() < all.len() ==> !keep(all[kept.len() as int]),
            all_noted(
                Map::empty(),
                kept,
                csum_size as int,
                sectorsize as int,
                start,
                end,
                0,
            ) == all_noted(
                digest_models(out@),
                kept,
                csum_size as int,
                sectorsize as int,
                start,
                end,
                i as int,
            ),
        decreases items@.len() - i,
    {
        assert(all[i as int] == items@[i as int]@);
        assert(kept[i as int] == all[i as int]);
        note(&mut out, &items[i], csum_size, sectorsize, start, end);
        i = i + 1;
    }
    proof {
        if i < items@.len() {
            assert(all[i as int] == items@[i as int]@);
        }
        assert(i == kept.len());
    }
    Ok(out)
}

} // verus!
