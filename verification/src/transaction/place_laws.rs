//! What a plan knows of the blocks it moves.

use vstd::prelude::*;

use crate::address_set;
use crate::btree;
use crate::btree::layout_laws as layout;
use crate::bytes;
use crate::error::ErrorView;
use crate::transaction;
use crate::transaction::blocks;
use crate::transaction::blocks::VisitModel;
use crate::transaction::laws;
use crate::transaction::placements;
use crate::transaction::placements::Placement;
use crate::transaction::planning;
use crate::transaction::Rewrite;
use crate::volume::VolumeModel;

verus! {

/// Whether the block at `node` is a node that points at `at`.
pub open spec fn points_at(volume: VolumeModel, node: u64, at: u64) -> bool {
    volume.block(node) matches Ok(b) && b[100] != 0 && exists|k: int|
        0 <= k < layout::count(b) && #[trigger] layout::child(b, k) == at
}

/// Whether the block at `leaf` is a leaf with a `ROOT_ITEM` for tree `tree`.
pub open spec fn names_tree(volume: VolumeModel, leaf: u64, tree: u64) -> bool {
    volume.block(leaf) matches Ok(b) && b[100] == 0 && exists|i: int|
        0 <= i < layout::count(b) && (#[trigger] layout::entry(b, i)).key.objectid == tree
            && layout::entry(b, i).key.key_type == 132
}

/// Whether a block visited on the way from `root` is as it lies: its bytes are
/// those of the block, and it is the root or is pointed at by its parent.
pub open spec fn visited_right(volume: VolumeModel, root: u64, v: VisitModel) -> bool {
    &&& volume.block(v.at) == Ok::<Seq<u8>, ErrorView>(v.bytes)
    &&& match v.parent {
        Some(p) => points_at(volume, p, v.at),
        None => v.at == root,
    }
}

proof fn lemma_visits_right(
    volume: VolumeModel,
    root: u64,
    stack: Seq<(u64, Option<u64>)>,
    seen: Set<u64>,
)
    requires
        forall|i: int|
            0 <= i < stack.len() ==> match (#[trigger] stack[i]).1 {
                Some(p) => points_at(volume, p, stack[i].0),
                None => stack[i].0 == root,
            },
    ensures
        forall|i: int|
            0 <= i < blocks::visits_from(volume, stack, seen).len() ==> visited_right(
                volume,
                root,
                #[trigger] blocks::visits_from(volume, stack, seen)[i],
            ),
    decreases seen.complement().len(), stack.len(),
{
    if stack.len() == 0 {
        assert(stack =~= Seq::<(u64, Option<u64>)>::empty());
        blocks::lemma_done(volume, seen);
    } else {
        let (at, parent) = stack.last();
        let rest = stack.drop_last();
        blocks::lemma_step(volume, stack, seen);
        address_set::lemma_one_less_outside(seen, at);
        assert(stack[stack.len() - 1] == (at, parent));
        assert forall|i: int| 0 <= i < rest.len() implies match (#[trigger] rest[i]).1 {
            Some(p) => points_at(volume, p, rest[i].0),
            None => rest[i].0 == root,
        } by {
            assert(rest[i] == stack[i]);
        }
        if at == 0 || seen.contains(at) {
            lemma_visits_right(volume, root, rest, seen);
        } else if volume.block(at) is Err {
            lemma_visits_right(volume, root, rest, seen.insert(at));
        } else {
            let b = volume.block(at)->Ok_0;
            let kids = blocks::children_of(b, at);
            let more = rest + kids;
            layout::law_a_block_holds_what_it_lists(b);
            assert forall|i: int| 0 <= i < more.len() implies match (#[trigger] more[i]).1 {
                Some(p) => points_at(volume, p, more[i].0),
                None => more[i].0 == root,
            } by {
                if i < rest.len() {
                    assert(more[i] == rest[i]);
                } else {
                    let k = i - rest.len();
                    assert(more[i] == kids[k]);
                    assert(kids[k].0 == btree::node_ptrs(b)[k].blockptr);
                    assert(layout::child(b, k) == kids[k].0);
                }
            }
            let later = blocks::visits_from(volume, more, seen.insert(at));
            let all = blocks::visits_from(volume, stack, seen);
            lemma_visits_right(volume, root, more, seen.insert(at));
            assert forall|i: int| 0 <= i < all.len() implies visited_right(
                volume,
                root,
                #[trigger] all[i],
            ) by {
                if i > 0 {
                    assert(all[i] == later[i - 1]);
                }
            }
        }
    }
}

/// What a walk of the tree rooted at `root` visits is as it lies, and each but
/// the root is pointed at by its parent.
pub proof fn law_visited_blocks_are_as_they_lie(volume: VolumeModel, root: u64, i: int)
    requires
        0 <= i < blocks::visits_of(volume, root).len(),
    ensures
        visited_right(volume, root, blocks::visits_of(volume, root)[i]),
{
    lemma_visits_right(volume, root, seq![(root, None)], Set::empty());
}

/// Whether `p` is where the block at `x` sits: of the tree its header names,
/// at the height its header names, below a node that points at it unless it
/// is a root.
pub open spec fn placed_right(volume: VolumeModel, x: u64, p: Placement) -> bool {
    &&& volume.block(x) matches Ok(b) && p.owner == bytes::u64_at(b, 88) && p.level == b[100]
    &&& p.parent matches Some(up) ==> points_at(volume, up, x)
}

/// Whether every block is known by where it sits.
pub open spec fn all_placed_right(volume: VolumeModel, places: Map<u64, Placement>) -> bool {
    forall|x: u64| #[trigger] places.contains_key(x) ==> placed_right(volume, x, places[x])
}

proof fn lemma_noted(
    volume: VolumeModel,
    root: u64,
    visits: Seq<VisitModel>,
    from: int,
    out: Map<u64, Placement>,
    roots: Seq<u64>,
)
    requires
        0 <= from,
        all_placed_right(volume, out),
        forall|i: int|
            0 <= i < visits.len() ==> visited_right(volume, root, #[trigger] visits[i]),
    ensures
        all_placed_right(volume, placements::noted(visits, from, out, roots).0),
    decreases visits.len() - from,
{
    if from < visits.len() {
        let v = visits[from];
        let next = out.insert(v.at, placements::place_of(v));
        assert(visited_right(volume, root, visits[from]));
        lemma_noted(
            volume,
            root,
            visits,
            from + 1,
            next,
            placements::roots_at(v, next.dom(), roots),
        );
    }
}

proof fn lemma_placed(volume: VolumeModel, roots: Seq<u64>, out: Map<u64, Placement>)
    requires
        all_placed_right(volume, out),
    ensures
        all_placed_right(volume, placements::placed_from(volume, roots, out)),
    decreases
            out.dom().complement().len(),
            placements::known_count(roots, out.dom()),
            roots.len(),
{
    reveal_with_fuel(placements::placed_from, 1);
    if roots.len() > 0 {
        let root = roots.last();
        let rest = roots.drop_last();
        if root == 0 {
            lemma_placed(volume, rest, out);
        } else {
            let visits = blocks::visits_of(volume, root);
            let (next, found) = placements::noted(visits, 0, out, Seq::empty());
            blocks::lemma_first_visit(volume, root);
            placements::lemma_progress(visits, root, roots, out);
            lemma_visits_right(volume, root, seq![(root, None)], Set::empty());
            lemma_noted(volume, root, visits, 0, out, Seq::empty());
            lemma_placed(volume, rest + found, next);
        }
    }
}

/// Every block is known as a block of the tree, and at the height, that its
/// header names, below a node that points at it unless it is a root.
pub proof fn law_blocks_are_known_where_they_sit(volume: VolumeModel, x: u64)
    requires
        placements::places_of(volume).contains_key(x),
    ensures
        placed_right(volume, x, placements::places_of(volume)[x]),
{
    lemma_placed(volume, seq![volume.sb.root], Map::empty());
}

/// Where the item `i` of the leaf `b` keeps the address of a root.
pub open spec fn root_field(b: Seq<u8>, i: int) -> int {
    101 + bytes::u32_at(b, 101 + 25 * i + 17) + 176
}

/// Whether the item `i` of the leaf `b` is a `ROOT_ITEM` whose root is at `a`.
pub open spec fn roots_tree_at(b: Seq<u8>, i: int, a: u64) -> bool {
    &&& 0 <= i < layout::count(b)
    &&& b[101 + 25 * i + 8] == 132
    &&& root_field(b, i) + 8 <= b.len()
    &&& bytes::u64_at(b, root_field(b, i)) == a
}

proof fn lemma_roots_from(b: Seq<u8>, from: int, known: Set<u64>, roots: Seq<u64>, a: u64)
    requires
        0 <= from,
    ensures
        placements::roots_from(b, btree::leaf_items(b), from, known, roots).contains(a)
            <==> roots.contains(a) || (a != 0 && !known.contains(a) && exists|i: int|
            from <= i && #[trigger] roots_tree_at(b, i, a)),
    decreases btree::leaf_items(b).len() - from,
{
    let items = btree::leaf_items(b);
    layout::law_a_block_holds_what_it_lists(b);
    if from < items.len() {
        let item = items[from];
        assert(item == btree::item_at(b, 101 + 25 * from));
        let next = match placements::root_named(b, item) {
            Some(at) => if at != 0 && !known.contains(at) {
                roots.push(at)
            } else {
                roots
            },
            None => roots,
        };
        lemma_roots_from(b, from + 1, known, next, a);
        assert(placements::root_named(b, item) == Some(a) <==> roots_tree_at(b, from, a));
        if let Some(at) = placements::root_named(b, item) {
            let more = roots.push(at);
            assert(more[roots.len() as int] == at);
            if roots.contains(a) {
                let k = choose|k: int| 0 <= k < roots.len() && roots[k] == a;
                assert(more[k] == a);
            }
            if more.contains(a) && a != at {
                let k = choose|k: int| 0 <= k < more.len() && more[k] == a;
                assert(roots[k] == a);
            }
        }
        if exists|i: int| from <= i && #[trigger] roots_tree_at(b, i, a) {
            let i = choose|i: int| from <= i && #[trigger] roots_tree_at(b, i, a);
            if i > from {
                assert(from + 1 <= i && roots_tree_at(b, i, a));
            }
        }
    } else {
        assert forall|i: int| from <= i implies !#[trigger] roots_tree_at(b, i, a) by {}
    }
}

/// The trees a plan knows of are those the leaves of the root tree have a
/// `ROOT_ITEM` for: what another block or another item holds names none.
pub proof fn law_trees_are_found_in_the_root_tree(v: VisitModel, known: Set<u64>, a: u64)
    ensures
        placements::roots_at(v, known, Seq::empty()).contains(a) <==> {
            &&& v.bytes[100] == 0
            &&& bytes::u64_at(v.bytes, 88) == 1
            &&& a != 0
            &&& !known.contains(a)
            &&& exists|i: int| 0 <= i && #[trigger] roots_tree_at(v.bytes, i, a)
        },
{
    lemma_roots_from(v.bytes, 0, known, Seq::empty(), a);
}

proof fn lemma_naming(volume: VolumeModel, visits: Seq<VisitModel>, tree: u64, from: int)
    requires
        0 <= from,
        forall|i: int|
            0 <= i < visits.len() ==> visited_right(volume, volume.sb.root, #[trigger] visits[i]),
    ensures
        match placements::leaf_naming(visits, tree, from) {
            Some(leaf) => names_tree(volume, leaf, tree),
            None => forall|i: int|
                from <= i < visits.len() ==> !names_tree(volume, (#[trigger] visits[i]).at, tree),
        },
    decreases visits.len() - from,
{
    if from < visits.len() {
        let v = visits[from];
        let b = v.bytes;
        assert(visited_right(volume, volume.sb.root, visits[from]));
        layout::law_a_block_holds_what_it_lists(b);
        let items = btree::leaf_items(b);
        assert forall|i: int| 0 <= i < items.len() implies (#[trigger] items[i]).key == layout::entry(
            b,
            i,
        ).key by {
            assert(btree::leaf_contents(b)[i] == layout::entry(b, i));
        }
        if placements::names_tree(items, tree) {
            let i = choose|i: int|
                0 <= i < items.len() && (#[trigger] items[i]).key.objectid == tree
                    && items[i].key.key_type == 132;
            assert(layout::entry(b, i).key.objectid == tree);
        }
        if names_tree(volume, v.at, tree) {
            let i = choose|i: int|
                0 <= i < layout::count(b) && (#[trigger] layout::entry(b, i)).key.objectid == tree
                    && layout::entry(b, i).key.key_type == 132;
            assert(items[i].key.objectid == tree);
        }
        if !(placements::place_of(v).level == 0 && placements::names_tree(items, tree)) {
            lemma_naming(volume, visits, tree, from + 1);
            assert forall|i: int|
                placements::leaf_naming(visits, tree, from) is None && from <= i
                    < visits.len() implies !names_tree(volume, (#[trigger] visits[i]).at, tree) by {
                if i == from {
                    assert(!names_tree(volume, v.at, tree));
                }
            }
        }
    }
}

/// Whether a plan moves the block at `at`.
pub open spec fn moves(plan: Seq<Rewrite>, at: u64) -> bool {
    exists|k: int| 0 <= k < plan.len() && (#[trigger] plan[k]).old == at
}

/// With each block a plan moves it moves a node that points at it, or for the
/// root of a tree a leaf of the root tree that names the tree, unless none
/// does or it is the root tree's own. It moves the block as one of the tree,
/// and at the height, that its header names.
pub proof fn law_what_leads_to_a_moved_block_moves(
    volume: VolumeModel,
    dirty: Seq<u64>,
    plan: Seq<Rewrite>,
    i: int,
)
    requires
        volume.sb.nodesize > 0,
        planning::plan_outcome(volume, dirty) == Ok::<Seq<Rewrite>, ErrorView>(plan),
        0 <= i < plan.len(),
    ensures
        ({
            let at = plan[i].old;
            let visits = blocks::visits_of(volume, volume.sb.root);
            &&& volume.block(at) matches Ok(b) && plan[i].owner == bytes::u64_at(b, 88)
                && plan[i].level == b[100]
            &&& {
                ||| exists|up: u64| #[trigger] points_at(volume, up, at) && moves(plan, up)
                ||| exists|up: u64| #[trigger]
                    names_tree(volume, up, plan[i].owner) && moves(plan, up)
                ||| plan[i].owner == 1
                ||| forall|k: int|
                    0 <= k < visits.len() ==> !names_tree(
                        volume,
                        (#[trigger] visits[k]).at,
                        plan[i].owner,
                    )
            }
        }),
        forall|x: u64| #[trigger] dirty.contains(x) ==> moves(plan, x),
{
    let at = plan[i].old;
    let places = placements::places_of(volume);
    let visits = blocks::visits_of(volume, volume.sb.root);
    let olds = transaction::olds(plan);
    laws::law_a_plan_is_complete(volume, dirty, plan);
    assert(olds[i] == at);
    assert(olds.contains(at));
    law_blocks_are_known_where_they_sit(volume, at);
    lemma_visits_right(volume, volume.sb.root, seq![(volume.sb.root, None)], Set::empty());
    lemma_naming(volume, visits, plan[i].owner, 0);
    if let Some(up) = planning::above(places[at], visits) {
        assert(olds.contains(up));
        let k = choose|k: int| 0 <= k < olds.len() && olds[k] == up;
        assert(plan[k].old == up);
        assert(moves(plan, up));
        if places[at].parent is Some {
            assert(points_at(volume, up, at));
        } else {
            assert(names_tree(volume, up, plan[i].owner));
        }
    }
    assert forall|x: u64| #[trigger] dirty.contains(x) implies moves(plan, x) by {
        assert(olds.contains(x));
        let k = choose|k: int| 0 <= k < olds.len() && olds[k] == x;
        assert(plan[k].old == x);
    }
}

} // verus!
