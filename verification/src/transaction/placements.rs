//! Where every reachable block sits.

use std::collections::BTreeMap;

use vstd::prelude::*;

use crate::address_set;
use crate::btree;
use crate::btree::{Item, LEAF_DATA_OFFSET};
use crate::bytes;
use crate::bytes::le64;
use crate::chunk::objectid;
use crate::error::Result;
use crate::fs::{root_item, Filesystem, ROOT_ITEM_KEY};
use crate::transaction::blocks;
use crate::transaction::blocks::{Visit, VisitModel};
use crate::volume::VolumeModel;

verus! {

/// A block's place in the tree it belongs to.
#[derive(Debug, Clone, Copy, PartialEq, Eq, Structural)]
pub struct Placement {
    /// The node that points at it; none for a root.
    pub parent: Option<u64>,
    /// The tree it belongs to.
    pub owner: u64,
    /// Its height above the leaves.
    pub level: u8,
}

/// Where a visited block sits.
pub open spec fn place_of(v: VisitModel) -> Placement {
    Placement {
        parent: v.parent,
        owner: btree::header_of(v.bytes).owner,
        level: btree::header_of(v.bytes).level,
    }
}

/// The root address an item of the root tree leaf `b` names, if it is a
/// `ROOT_ITEM` and the address lies in the block.
pub open spec fn root_named(b: Seq<u8>, item: Item) -> Option<u64> {
    let at: int = LEAF_DATA_OFFSET + item.offset + root_item::BYTENR;
    if item.key.key_type == ROOT_ITEM_KEY && at + 8 <= b.len() {
        Some(bytes::u64_at(b, at))
    } else {
        None
    }
}

/// `roots` with the addresses the items `from ..` of the leaf `b` name and
/// `known` does not hold behind them.
pub open spec fn roots_from(
    b: Seq<u8>,
    items: Seq<Item>,
    from: int,
    known: Set<u64>,
    roots: Seq<u64>,
) -> Seq<u64>
    decreases items.len() - from,
{
    if from < 0 || from >= items.len() {
        roots
    } else {
        roots_from(
            b,
            items,
            from + 1,
            known,
            match root_named(b, items[from]) {
                Some(at) => if at != 0 && !known.contains(at) {
                    roots.push(at)
                } else {
                    roots
                },
                None => roots,
            },
        )
    }
}

/// The roots a visited block adds to `roots`: those a root tree leaf names.
pub open spec fn roots_at(v: VisitModel, known: Set<u64>, roots: Seq<u64>) -> Seq<u64> {
    if place_of(v).level == 0 && place_of(v).owner == objectid::ROOT_TREE {
        roots_from(v.bytes, btree::leaf_items(v.bytes), 0, known, roots)
    } else {
        roots
    }
}

/// What is known after the visits `from ..`: where each block sits, and which
/// roots were found that were not known yet.
pub open spec fn noted(
    visits: Seq<VisitModel>,
    from: int,
    out: Map<u64, Placement>,
    roots: Seq<u64>,
) -> (Map<u64, Placement>, Seq<u64>)
    decreases visits.len() - from,
{
    if from < 0 || from >= visits.len() {
        (out, roots)
    } else {
        let v = visits[from];
        let next = out.insert(v.at, place_of(v));
        noted(visits, from + 1, next, roots_at(v, next.dom(), roots))
    }
}

/// How many of `roots` are known already.
pub open spec fn known_count(roots: Seq<u64>, known: Set<u64>) -> nat
    decreases roots.len(),
{
    if roots.len() == 0 {
        0
    } else {
        known_count(roots.drop_last(), known) + (if known.contains(roots.last()) {
            1nat
        } else {
            0
        })
    }
}

/// Where every block sits that is reachable from `roots`, the last of them
/// first, beyond what `out` knows.
#[verifier::opaque]
pub open spec fn placed_from(volume: VolumeModel, roots: Seq<u64>, out: Map<u64, Placement>) -> Map<
    u64,
    Placement,
>
    decreases
            out.dom().complement().len(),
            known_count(roots, out.dom()),
            roots.len(),
{
    if roots.len() == 0 {
        out
    } else {
        let root = roots.last();
        let rest = roots.drop_last();
        if root == 0 {
            placed_from(volume, rest, out)
        } else {
            let visits = blocks::visits_of(volume, root);
            let (next, found) = noted(visits, 0, out, Seq::empty());
            proof {
                blocks::lemma_first_visit(volume, root);
                lemma_progress(visits, root, roots, out);
            }
            placed_from(volume, rest + found, next)
        }
    }
}

/// Where every block sits that is reachable from the root tree.
pub open spec fn places_of(volume: VolumeModel) -> Map<u64, Placement> {
    placed_from(volume, seq![volume.sb.root], Map::empty())
}

/// Whether no address of `roots` is in `known`.
pub open spec fn none_known(roots: Seq<u64>, known: Set<u64>) -> bool {
    forall|i: int| 0 <= i < roots.len() ==> !known.contains(#[trigger] roots[i])
}

proof fn lemma_roots_unknown(
    b: Seq<u8>,
    items: Seq<Item>,
    from: int,
    known: Set<u64>,
    roots: Seq<u64>,
    base: Set<u64>,
)
    requires
        base.subset_of(known),
        none_known(roots, base),
    ensures
        none_known(roots_from(b, items, from, known, roots), base),
    decreases items.len() - from,
{
    if 0 <= from < items.len() {
        let next = match root_named(b, items[from]) {
            Some(at) => if at != 0 && !known.contains(at) {
                roots.push(at)
            } else {
                roots
            },
            None => roots,
        };
        lemma_roots_unknown(b, items, from + 1, known, next, base);
    }
}

proof fn lemma_noted(
    visits: Seq<VisitModel>,
    from: int,
    out: Map<u64, Placement>,
    roots: Seq<u64>,
    base: Set<u64>,
)
    requires
        0 <= from <= visits.len(),
        base.subset_of(out.dom()),
        none_known(roots, base),
    ensures
        out.dom().subset_of(noted(visits, from, out, roots).0.dom()),
        none_known(noted(visits, from, out, roots).1, base),
        forall|i: int|
            from <= i < visits.len() ==> noted(visits, from, out, roots).0.dom().contains(
                (#[trigger] visits[i]).at,
            ),
    decreases visits.len() - from,
{
    if from < visits.len() {
        let v = visits[from];
        let next = out.insert(v.at, place_of(v));
        if place_of(v).level == 0 && place_of(v).owner == objectid::ROOT_TREE {
            lemma_roots_unknown(
                v.bytes,
                btree::leaf_items(v.bytes),
                0,
                next.dom(),
                roots,
                base,
            );
        }
        lemma_noted(visits, from + 1, next, roots_at(v, next.dom(), roots), base);
        assert(next.dom().contains(v.at));
    }
}

proof fn lemma_known_count(roots: Seq<u64>, more: Seq<u64>, known: Set<u64>)
    requires
        none_known(more, known),
    ensures
        known_count(roots + more, known) == known_count(roots, known),
    decreases more.len(),
{
    if more.len() == 0 {
        assert(roots + more =~= roots);
    } else {
        let front = more.drop_last();
        assert forall|i: int| 0 <= i < front.len() implies !known.contains(
            #[trigger] front[i],
        ) by {
            assert(front[i] == more[i]);
        }
        lemma_known_count(roots, front, known);
        assert((roots + more).drop_last() =~= roots + front);
        assert((roots + more).last() == more[more.len() - 1]);
    }
}

/// Following a root gets on: more blocks are known, or fewer of the roots
/// still to follow are known already, or there are fewer of them.
pub proof fn lemma_progress(
    visits: Seq<VisitModel>,
    root: u64,
    roots: Seq<u64>,
    out: Map<u64, Placement>,
)
    requires
        roots.len() > 0,
        root == roots.last(),
        visits.len() > 0 ==> visits[0].at == root,
    ensures
        ({
            let (next, found) = noted(visits, 0, out, Seq::empty());
            let rest = roots.drop_last();
            &&& next.dom().complement().len() <= out.dom().complement().len()
            &&& next.dom().complement().len() == out.dom().complement().len() ==> {
                ||| known_count(rest + found, next.dom()) < known_count(roots, out.dom())
                ||| known_count(rest + found, next.dom()) == known_count(roots, out.dom()) && (rest
                    + found).len() < roots.len()
            }
        }),
{
    let (next, found) = noted(visits, 0, out, Seq::empty());
    let rest = roots.drop_last();
    lemma_noted(visits, 0, out, Seq::empty(), out.dom());
    address_set::lemma_less_outside(out.dom(), next.dom());
    if next.dom().complement().len() == out.dom().complement().len() {
        lemma_known_count(rest, found, out.dom());
        if !out.dom().contains(root) {
            assert(visits.len() == 0);
            assert(rest + found =~= rest);
        }
    }
}

/// The first visited leaf, from visit `from` on, that holds the `ROOT_ITEM`
/// for `objectid`.
pub open spec fn leaf_naming(visits: Seq<VisitModel>, objectid: u64, from: int) -> Option<u64>
    decreases visits.len() - from,
{
    if from < 0 || from >= visits.len() {
        None
    } else if place_of(visits[from]).level == 0 && names_tree(
        btree::leaf_items(visits[from].bytes),
        objectid,
    ) {
        Some(visits[from].at)
    } else {
        leaf_naming(visits, objectid, from + 1)
    }
}

/// Whether one of `items` is the `ROOT_ITEM` for `objectid`.
pub open spec fn names_tree(items: Seq<Item>, objectid: u64) -> bool {
    exists|i: int|
        0 <= i < items.len() && (#[trigger] items[i]).key.objectid == objectid
            && items[i].key.key_type == ROOT_ITEM_KEY
}

/// Whether one of `items` is the `ROOT_ITEM` for `objectid`.
fn holds_root_item(items: &[Item], objectid: u64) -> (yes: bool)
    ensures
        yes == names_tree(items@, objectid),
{
    let mut i: usize = 0;
    while i < items.len()
        invariant
            i <= items@.len(),
            forall|k: int|
                0 <= k < i ==> !((#[trigger] items@[k]).key.objectid == objectid
                    && items@[k].key.key_type == ROOT_ITEM_KEY),
        decreases items@.len() - i,
    {
        if items[i].key.objectid == objectid && items[i].key.key_type == ROOT_ITEM_KEY {
            assert(items@[i as int].key.objectid == objectid);
            return true;
        }
        i = i + 1;
    }
    false
}

/// Add the roots a root tree leaf names that are not known yet to `roots`.
fn find_roots(
    b: &[u8],
    items: &[Item],
    known: &BTreeMap<u64, Placement>,
    roots: &mut Vec<u64>,
)
    requires
        forall|i: int|
            0 <= i < items@.len() ==> LEAF_DATA_OFFSET + (#[trigger] items@[i]).offset
                <= b@.len(),
    ensures
        final(roots)@ == roots_from(b@, items@, 0, known@.dom(), old(roots)@),
{
    let mut i: usize = 0;
    while i < items.len()
        invariant
            i <= items@.len(),
            forall|k: int|
                0 <= k < items@.len() ==> LEAF_DATA_OFFSET + (#[trigger] items@[k]).offset
                    <= b@.len(),
            roots_from(b@, items@, 0, known@.dom(), old(roots)@) == roots_from(
                b@,
                items@,
                i as int,
                known@.dom(),
                roots@,
            ),
        decreases items@.len() - i,
    {
        let item = items[i];
        assert(LEAF_DATA_OFFSET + items@[i as int].offset <= b.len());
        let at: usize = LEAF_DATA_OFFSET + item.offset as usize;
        if item.key.key_type == ROOT_ITEM_KEY && b.len() - at >= root_item::BYTENR + 8 {
            let root: u64 = le64(b, at + root_item::BYTENR);
            if root != 0 && !known.contains_key(&root) {
                roots.push(root);
            }
        }
        i = i + 1;
    }
}

/// Note where the visited blocks sit, and collect the roots found on the way.
fn note_visits(visits: &[Visit], out: &mut BTreeMap<u64, Placement>, Ghost(volume): Ghost<
    VolumeModel,
>) -> (roots: Vec<u64>)
    requires
        blocks::verified(visits@, volume),
    ensures
        (final(out)@, roots@) == noted(
            blocks::visit_models(visits@),
            0,
            old(out)@,
            Seq::empty(),
        ),
{
    let ghost all = blocks::visit_models(visits@);
    let mut roots: Vec<u64> = Vec::new();
    assert(roots@ =~= Seq::<u64>::empty());
    let mut i: usize = 0;
    while i < visits.len()
        invariant
            i <= visits@.len(),
            all == blocks::visit_models(visits@),
            blocks::verified(visits@, volume),
            noted(all, 0, old(out)@, Seq::empty()) == noted(all, i as int, out@, roots@),
        decreases visits@.len() - i,
    {
        let visit = &visits[i];
        let ghost v = visit@;
        assert(all[i as int] == v);
        proof {
            blocks::lemma_verified(visits@, volume, i as int);
            btree::law_parsed_block_is_sound(
                v.bytes,
                v.at,
                volume.geometry(),
                btree::block_intact(v.bytes, volume.geometry()),
            );
        }
        let owner: u64 = visit.block.header.owner;
        let level: u8 = visit.block.header.level;
        let place = Placement { parent: visit.parent, owner, level };
        assert(place == place_of(v));
        let ghost before = out@;
        out.insert(visit.at, place);
        assert(out@ =~= before.insert(v.at, place_of(v)));
        if level == 0 && owner == objectid::ROOT_TREE {
            // A root tree leaf: each ROOT_ITEM names another tree.
            if let Some(items) = visit.block.body.items() {
                find_roots(visit.block.bytes(), items, out, &mut roots);
            }
        }
        i = i + 1;
    }
    roots
}

impl<R: Fn(usize, u64, usize) -> Result<Vec<u8>>> Filesystem<R> {
    /// Where every reachable block sits: its parent, tree and level.
    pub fn placements(&self) -> (out: BTreeMap<u64, Placement>)
        requires
            self.ready(),
        ensures
            self.faithful() ==> out@ == places_of(self@.volume),
    {
        let mut out: BTreeMap<u64, Placement> = BTreeMap::new();
        let mut roots: Vec<u64> = Vec::new();
        roots.push(self.volume.sb.root);
        proof {
            assert(roots@ =~= seq![self@.volume.sb.root]);
            assert(out@ =~= Map::<u64, Placement>::empty());
        }
        while roots.len() > 0
            invariant
                self.ready(),
                self.faithful() ==> places_of(self@.volume) == placed_from(
                    self@.volume,
                    roots@,
                    out@,
                ),
            decreases
                    out@.dom().complement().len(),
                    known_count(roots@, out@.dom()),
                    roots@.len(),
        {
            let ghost before = roots@;
            let ghost known = out@;
            let root: u64 = match roots.pop() {
                Some(root) => root,
                None => 0,
            };
            assert(roots@ =~= before.drop_last());
            proof {
                lemma_step(self@.volume, before, known);
            }
            if root == 0 {
                continue;
            }
            let visits = self.for_each_tree_block(root);
            let ghost all = blocks::visit_models(visits@);
            proof {
                if visits@.len() > 0 {
                    assert(all[0] == visits@[0]@);
                }
                lemma_progress(all, root, before, known);
            }
            let mut found = note_visits(visits.as_slice(), &mut out, Ghost(self@.volume));
            let ghost rest = roots@;
            let ghost added = found@;
            roots.append(&mut found);
            assert(roots@ =~= rest + added);
        }
        proof {
            lemma_done(self@.volume, out@);
            assert(roots@ =~= Seq::<u64>::empty());
        }
        out
    }

    /// The root tree leaf holding the `ROOT_ITEM` for `objectid`.
    pub fn root_item_leaf(&self, objectid: u64) -> (r: Option<u64>)
        requires
            self.ready(),
        ensures
            self.faithful() ==> r == leaf_naming(
                blocks::visits_of(self@.volume, self@.volume.sb.root),
                objectid,
                0,
            ),
    {
        let visits = self.for_each_tree_block(self.volume.sb.root);
        let ghost all = blocks::visit_models(visits@);
        let mut i: usize = 0;
        while i < visits.len()
            invariant
                i <= visits@.len(),
                all == blocks::visit_models(visits@),
                blocks::verified(visits@, self@.volume),
                self.faithful() ==> all == blocks::visits_of(
                    self@.volume,
                    self@.volume.sb.root,
                ),
                leaf_naming(all, objectid, 0) == leaf_naming(all, objectid, i as int),
            decreases visits@.len() - i,
        {
            let visit = &visits[i];
            assert(all[i as int] == visit@);
            proof {
                blocks::lemma_verified(visits@, self@.volume, i as int);
            }
            if visit.block.header.level == 0 {
                if let Some(items) = visit.block.body.items() {
                    if holds_root_item(items, objectid) {
                        return Some(visit.at);
                    }
                }
            }
            i = i + 1;
        }
        None
    }
}

proof fn lemma_step(volume: VolumeModel, roots: Seq<u64>, out: Map<u64, Placement>)
    requires
        roots.len() > 0,
    ensures
        placed_from(volume, roots, out) == (if roots.last() == 0 {
            placed_from(volume, roots.drop_last(), out)
        } else {
            let (next, found) = noted(
                blocks::visits_of(volume, roots.last()),
                0,
                out,
                Seq::empty(),
            );
            placed_from(volume, roots.drop_last() + found, next)
        }),
{
    reveal_with_fuel(placed_from, 1);
}

proof fn lemma_done(volume: VolumeModel, out: Map<u64, Placement>)
    ensures
        placed_from(volume, Seq::empty(), out) == out,
{
    reveal_with_fuel(placed_from, 1);
}

} // verus!
