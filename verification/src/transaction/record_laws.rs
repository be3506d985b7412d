//! What a transaction does to the tree that records what is allocated.

use vstd::prelude::*;

use crate::block_group::laws as allocation;
use crate::block_group::runs;
use crate::block_group::space;
use crate::block_group::{BlockGroup, FreeExtent};
use crate::btree;
use crate::btree::{Image, ItemModel};
use crate::chunk::{key_type, objectid, DiskKey};
use crate::error::ErrorView;
use crate::leaf_edit;
use crate::transaction;
use crate::transaction::laws;
use crate::transaction::leaf_lists;
use crate::transaction::leaf_lists::LeafModel;
use crate::transaction::planning;
use crate::transaction::relocation;
use crate::transaction::render;
use crate::transaction::Rewrite;
use crate::volume::VolumeModel;

verus! {

/// The item that records the new address of a rewrite.
pub open spec fn new_item(r: Rewrite, generation: u64) -> ItemModel {
    ItemModel {
        key: render::new_record(r, generation).filed_under(),
        data: render::new_record(r, generation).record(),
    }
}

/// Whether `x` is in the extent tree once a plan has been carried out: it was
/// there and does not record an address the plan releases, or it records one
/// the plan takes.
pub open spec fn recorded_after(
    before: Seq<ItemModel>,
    plan: Seq<Rewrite>,
    generation: u64,
    x: ItemModel,
) -> bool {
    ||| before.contains(x) && forall|i: int|
        0 <= i < plan.len() ==> x.key != render::old_record(
            #[trigger] plan[i],
            generation,
        ).filed_under()
    ||| exists|i: int| 0 <= i < plan.len() && x == new_item(#[trigger] plan[i], generation)
}

/// Whether no two groups cover one address.
pub open spec fn groups_apart(groups: Seq<BlockGroup>) -> bool {
    forall|i: int, j: int, a: u64|
        #![trigger groups[i].covers(a), groups[j].covers(a)]
        0 <= i < groups.len() && 0 <= j < groups.len() && groups[i].covers(a) && groups[j].covers(a)
            ==> i == j
}

proof fn lemma_deleted(s: Seq<ItemModel>, key: DiskKey)
    requires
        leaf_edit::sorted(s),
        leaf_edit::delete_outcome(s, key) is Ok,
    ensures
        leaf_edit::sorted(leaf_edit::delete_outcome(s, key)->Ok_0),
        forall|x: ItemModel| #[trigger]
            leaf_edit::delete_outcome(s, key)->Ok_0.contains(x) <==> s.contains(x) && x.key != key,
        exists|p: int| 0 <= p < s.len() && (#[trigger] s[p]).key == key,
{
    let out = leaf_edit::delete_outcome(s, key)->Ok_0;
    let at = leaf_edit::position(s, key);
    leaf_edit::law_delete_keeps_order(s, key);
    leaf_edit::lemma_position(s, key);
    assert(out == s.remove(at));
    assert(s[at].key == key);
    assert forall|x: ItemModel| #[trigger] out.contains(x) <==> s.contains(x) && x.key != key by {
        if out.contains(x) {
            let i = choose|i: int| 0 <= i < out.len() && out[i] == x;
            if i < at {
                assert(s[i] == x);
            } else {
                assert(s[i + 1] == x);
            }
        }
        if s.contains(x) && x.key != key {
            let i = choose|i: int| 0 <= i < s.len() && s[i] == x;
            if i < at {
                assert(out[i] == x);
            } else {
                assert(out[i - 1] == x);
            }
        }
    }
}

proof fn lemma_inserted(nodesize: u32, s: Seq<ItemModel>, item: ItemModel)
    requires
        leaf_edit::sorted(s),
        leaf_edit::insert_outcome(nodesize, s, item) is Ok,
    ensures
        leaf_edit::sorted(leaf_edit::insert_outcome(nodesize, s, item)->Ok_0),
        forall|x: ItemModel| #[trigger]
            leaf_edit::insert_outcome(nodesize, s, item)->Ok_0.contains(x) <==> s.contains(x) || x
                == item,
{
    let out = leaf_edit::insert_outcome(nodesize, s, item)->Ok_0;
    let at = leaf_edit::position(s, item.key);
    leaf_edit::law_insert_keeps_order(nodesize, s, item);
    leaf_edit::lemma_position(s, item.key);
    assert(out == s.insert(at, item));
    assert(out[at] == item);
    assert forall|x: ItemModel| #[trigger] out.contains(x) <==> s.contains(x) || x == item by {
        if out.contains(x) && x != item {
            let i = choose|i: int| 0 <= i < out.len() && out[i] == x;
            if i < at {
                assert(s[i] == x);
            } else {
                assert(s[i - 1] == x);
            }
        }
        if s.contains(x) {
            let i = choose|i: int| 0 <= i < s.len() && s[i] == x;
            if i < at {
                assert(out[i] == x);
            } else {
                assert(out[i + 1] == x);
            }
        }
    }
}

/// What the rewrites `k ..` release from a leaf.
proof fn lemma_released(
    volume: VolumeModel,
    root: u64,
    leaf: u64,
    plan: Seq<Rewrite>,
    generation: u64,
    items: Seq<ItemModel>,
    k: int,
)
    requires
        leaf_edit::sorted(items),
        0 <= k <= plan.len(),
        render::released_from(volume, root, leaf, plan, generation, items, k) is Ok,
    ensures
        ({
            let out = render::released_from(volume, root, leaf, plan, generation, items, k)->Ok_0;
            &&& leaf_edit::sorted(out)
            &&& forall|x: ItemModel| #[trigger]
                out.contains(x) <==> items.contains(x) && forall|i: int|
                    k <= i < plan.len() && render::belongs(
                        volume,
                        root,
                        leaf,
                        render::old_record(#[trigger] plan[i], generation).filed_under(),
                    ) ==> x.key != render::old_record(plan[i], generation).filed_under()
            &&& forall|i: int|
                k <= i < plan.len() && render::belongs(
                    volume,
                    root,
                    leaf,
                    render::old_record(#[trigger] plan[i], generation).filed_under(),
                ) ==> render::any_under(
                    items,
                    render::old_record(plan[i], generation).filed_under(),
                )
        }),
    decreases plan.len() - k,
{
    if k < plan.len() {
        let key = render::old_record(plan[k], generation).filed_under();
        let out = render::released_from(volume, root, leaf, plan, generation, items, k)->Ok_0;
        if !render::belongs(volume, root, leaf, key) {
            lemma_released(volume, root, leaf, plan, generation, items, k + 1);
        } else {
            let next = leaf_edit::delete_outcome(items, key)->Ok_0;
            lemma_deleted(items, key);
            lemma_released(volume, root, leaf, plan, generation, next, k + 1);
            assert forall|i: int|
                k <= i < plan.len() && render::belongs(
                    volume,
                    root,
                    leaf,
                    render::old_record(#[trigger] plan[i], generation).filed_under(),
                ) implies render::any_under(
                items,
                render::old_record(plan[i], generation).filed_under(),
            ) by {
                if i > k {
                    let under = render::old_record(plan[i], generation).filed_under();
                    let p = choose|p: int| 0 <= p < next.len() && (#[trigger] next[p]).key == under;
                    assert(next.contains(next[p]));
                    let q = choose|q: int| 0 <= q < items.len() && items[q] == next[p];
                    assert(items[q].key == under);
                }
            }
        }
    }
}

/// What the rewrites `k ..` put into a leaf.
proof fn lemma_recorded(
    volume: VolumeModel,
    root: u64,
    leaf: u64,
    plan: Seq<Rewrite>,
    generation: u64,
    items: Seq<ItemModel>,
    k: int,
)
    requires
        leaf_edit::sorted(items),
        0 <= k <= plan.len(),
        transaction::news(plan).no_duplicates(),
        forall|i: int|
            k <= i < plan.len() ==> !render::any_under(
                items,
                render::new_record(#[trigger] plan[i], generation).filed_under(),
            ),
        render::recorded_from(volume, root, leaf, plan, generation, items, k) is Ok,
    ensures
        ({
            let out = render::recorded_from(volume, root, leaf, plan, generation, items, k)->Ok_0;
            &&& leaf_edit::sorted(out)
            &&& forall|x: ItemModel| #[trigger]
                out.contains(x) <==> items.contains(x) || exists|i: int|
                    k <= i < plan.len() && render::belongs(
                        volume,
                        root,
                        leaf,
                        render::new_record(#[trigger] plan[i], generation).filed_under(),
                    ) && x == new_item(plan[i], generation)
        }),
    decreases plan.len() - k,
{
    if k < plan.len() {
        let item = new_item(plan[k], generation);
        if !render::belongs(volume, root, leaf, item.key) {
            lemma_recorded(volume, root, leaf, plan, generation, items, k + 1);
        } else {
            assert(!render::any_under(
                items,
                render::new_record(plan[k], generation).filed_under(),
            ));
            let nodesize = volume.sb.nodesize;
            let next = leaf_edit::insert_outcome(nodesize, items, item)->Ok_0;
            lemma_inserted(nodesize, items, item);
            assert forall|i: int| k + 1 <= i < plan.len() implies !render::any_under(
                next,
                render::new_record(#[trigger] plan[i], generation).filed_under(),
            ) by {
                let under = render::new_record(plan[i], generation).filed_under();
                assert(transaction::news(plan)[i] != transaction::news(plan)[k]);
                if render::any_under(next, under) {
                    let p = choose|p: int| 0 <= p < next.len() && (#[trigger] next[p]).key == under;
                    assert(next.contains(next[p]));
                    let q = choose|q: int| 0 <= q < items.len() && items[q] == next[p];
                    assert(items[q].key == under);
                    assert(!render::any_under(
                        items,
                        render::new_record(plan[i], generation).filed_under(),
                    ));
                }
            }
            lemma_recorded(volume, root, leaf, plan, generation, next, k + 1);
        }
    }
}

proof fn lemma_group_found(groups: Seq<BlockGroup>, address: u64, from: int, g: int)
    requires
        0 <= from <= g < groups.len(),
        groups[g].covers(address),
    ensures
        space::group_at(groups, address, from) matches Some(i) && from <= i < groups.len()
            && groups[i].covers(address),
    decreases g - from,
{
    if !groups[from].covers(address) {
        lemma_group_found(groups, address, from + 1, g);
    }
}

proof fn lemma_taken_in(
    items: Seq<ItemModel>,
    groups: Seq<BlockGroup>,
    which: int,
    nodesize: u32,
    p: int,
    run: FreeExtent,
)
    requires
        0 <= p < items.len(),
        space::taken_by(items[p], nodesize) == Some(run),
        space::group_at(groups, run.start, 0) == Some(which),
    ensures
        space::taken_in(items, groups, which, nodesize).contains(run),
    decreases items.len(),
{
    let before = space::taken_in(items.drop_last(), groups, which, nodesize);
    let all = space::taken_in(items, groups, which, nodesize);
    if p == items.len() - 1 {
        assert(all[before.len() as int] == run);
    } else {
        assert(items.drop_last()[p] == items[p]);
        lemma_taken_in(items.drop_last(), groups, which, nodesize, p, run);
        let i = choose|i: int| 0 <= i < before.len() && before[i] == run;
        assert(all[i] == run);
    }
}

/// The extent tree records nothing where a home is free.
pub(crate) proof fn lemma_home_unrecorded(volume: VolumeModel, at: u64, p: int)
    requires
        volume.sb.nodesize > 0,
        laws::free_home(volume, at),
        ({
            let items = volume.tree_items(objectid::EXTENT_TREE)->Ok_0;
            &&& groups_apart(space::metadata_groups(space::groups_in(items)))
            &&& 0 <= p < items.len()
        }),
    ensures
        ({
            let key = volume.tree_items(objectid::EXTENT_TREE)->Ok_0[p].key;
            !(key.objectid == at && key.key_type == key_type::METADATA_ITEM)
        }),
{
    broadcast use vstd::seq_lib::group_to_multiset_ensures;

    let nodesize = volume.sb.nodesize;
    let items = volume.tree_items(objectid::EXTENT_TREE)->Ok_0;
    let groups = space::metadata_groups(space::groups_in(items));
    let g = choose|g: int|
        0 <= g < groups.len() && (#[trigger] groups[g]).flags
            & crate::chunk::block_group::METADATA != 0 && allocation::lies_free(
            at,
            nodesize as u64,
            groups[g],
            runs::by_start(space::taken_in(items, groups, g, nodesize)),
        );
    let key = items[p].key;
    if key.objectid == at && key.key_type == key_type::METADATA_ITEM {
        let run = FreeExtent { start: at, len: nodesize as u64 };
        assert(groups[g].covers(at));
        lemma_group_found(groups, at, 0, g);
        let found = space::group_at(groups, at, 0)->Some_0;
        assert(groups[found].covers(at));
        assert(found == g);
        lemma_taken_in(items, groups, g, nodesize, p, run);
        let list = space::taken_in(items, groups, g, nodesize);
        let taken = runs::by_start(list);
        runs::law_sorting_orders_runs(list);
        assert(list.to_multiset().count(run) > 0);
        assert(taken.to_multiset().count(run) > 0);
        assert(taken.contains(run));
        let i = choose|i: int| 0 <= i < taken.len() && taken[i] == run;
        assert(runs::in_run(taken[i], at));
        assert(runs::in_runs(taken, at));
    }
}

/// A plan moves what it releases.
pub(crate) proof fn lemma_released_is_moved(plan: Seq<Rewrite>, at: u64)
    requires
        transaction::olds(plan).contains(at),
    ensures
        render::moved_to(plan, at) is Some,
    decreases plan.len(),
{
    let i = choose|i: int| 0 <= i < plan.len() && transaction::olds(plan)[i] == at;
    assert(plan[i].old == at);
    if plan.last().old != at {
        let front = plan.drop_last();
        assert(front[i] == plan[i]);
        assert(transaction::olds(front)[i] == at);
        lemma_released_is_moved(front, at);
    }
}

/// Whether a closed plan that moves the extent tree as a whole has been
/// carried out.
pub open spec fn extents_moved(
    volume: VolumeModel,
    dirty: Seq<u64>,
    rounds: usize,
    plan: Seq<Rewrite>,
    generation: u64,
    after: Image,
    root: u64,
) -> bool {
    &&& volume.sb.nodesize > 0
    &&& planning::closed_outcome(volume, dirty, rounds) == Ok::<Seq<Rewrite>, ErrorView>(plan)
    &&& relocation::well_placed(volume, plan)
    &&& relocation::carried_out(volume, plan, generation, after)
    &&& relocation::moves_whole(volume, plan, generation, objectid::EXTENT_TREE, root, 0)
}

/// Whether the extent tree, rooted at `root`, is sound: its root is somewhere,
/// its walk meets no fault and comes in key order, and no two of the groups it
/// describes that may hold tree blocks cover one address.
pub open spec fn extents_sound(volume: VolumeModel, root: u64) -> bool {
    let s = volume.walk(root);
    &&& volume.tree_root(objectid::EXTENT_TREE) == Ok::<u64, ErrorView>(root)
    &&& root != 0
    &&& s.fault is None
    &&& leaf_edit::sorted(s.items)
    &&& groups_apart(space::metadata_groups(space::groups_in(s.items)))
}

/// Whether the leaf `l` belongs to the record under `key`.
spec fn takes(volume: VolumeModel, root: u64, l: LeafModel, key: DiskKey) -> bool {
    render::belongs(volume, root, l.at, key)
}

/// What one leaf of the extent tree holds after the plan.
#[verifier::opaque]
spec fn leaf_follows(
    volume: VolumeModel,
    root: u64,
    plan: Seq<Rewrite>,
    generation: u64,
    l: LeafModel,
    out: Seq<ItemModel>,
) -> bool {
    &&& leaf_edit::sorted(out)
    &&& forall|x: ItemModel| #[trigger]
        out.contains(x) <==> (l.items.contains(x) && forall|i: int|
            0 <= i < plan.len() && takes(
                volume,
                root,
                l,
                render::old_record(#[trigger] plan[i], generation).filed_under(),
            ) ==> x.key != render::old_record(plan[i], generation).filed_under()) || exists|i: int|
            0 <= i < plan.len() && takes(
                volume,
                root,
                l,
                render::new_record(#[trigger] plan[i], generation).filed_under(),
            ) && x == new_item(plan[i], generation)
    &&& forall|i: int|
        0 <= i < plan.len() && takes(
            volume,
            root,
            l,
            render::old_record(#[trigger] plan[i], generation).filed_under(),
        ) ==> render::any_under(l.items, render::old_record(plan[i], generation).filed_under())
}

/// A plan that moves anything moves it off a tree that holds something.
proof fn lemma_extents_held(volume: VolumeModel, plan: Seq<Rewrite>, root: u64)
    requires
        extents_sound(volume, root),
        laws::placed_free(volume, plan),
        plan.len() > 0,
    ensures
        volume.walk(root).items.len() > 0,
{
    assert(laws::free_home(volume, plan[0].new));
    if volume.walk(root).items.len() == 0 {
        let items = volume.tree_items(objectid::EXTENT_TREE)->Ok_0;
        assert(space::groups_in(items) =~= Seq::<BlockGroup>::empty());
        assert(space::metadata_groups(space::groups_in(items)) =~= Seq::<BlockGroup>::empty());
    }
}

/// A closed plan moves the leaves its records land in.
proof fn lemma_landing_moved(
    volume: VolumeModel,
    dirty: Seq<u64>,
    rounds: usize,
    plan: Seq<Rewrite>,
    leaves: Seq<u64>,
    leaf: u64,
)
    requires
        volume.sb.nodesize > 0,
        planning::closed_outcome(volume, dirty, rounds) == Ok::<Seq<Rewrite>, ErrorView>(plan),
        planning::extent_leaves(volume, planning::old_keys(plan) + planning::new_keys(plan))
            == Ok::<Seq<u64>, ErrorView>(leaves),
        leaves.contains(leaf),
    ensures
        render::moved_to(plan, leaf) is Some,
{
    laws::law_a_closed_plan_rewrites_its_records(volume, dirty, rounds);
    laws::lemma_all_moved(plan, leaves, leaf);
    lemma_released_is_moved(plan, leaf);
}

/// Whichever leaf a record of the plan belongs in, the plan moves.
proof fn lemma_takes_moved(
    volume: VolumeModel,
    dirty: Seq<u64>,
    rounds: usize,
    plan: Seq<Rewrite>,
    root: u64,
    key: DiskKey,
    leaf: u64,
)
    requires
        volume.sb.nodesize > 0,
        planning::closed_outcome(volume, dirty, rounds) == Ok::<Seq<Rewrite>, ErrorView>(plan),
        extents_sound(volume, root),
        laws::placed_free(volume, plan),
        plan.len() > 0,
        (planning::old_keys(plan) + planning::new_keys(plan)).contains(key),
        render::belongs(volume, root, leaf, key),
    ensures
        render::moved_to(plan, leaf) is Some,
{
    lemma_extents_held(volume, plan, root);
    let at = leaf_lists::lemma_landing(volume, root, key);
    assert(render::belongs(volume, root, leaf, key));
    let leaves = planning::landing_leaves(
        volume,
        root,
        planning::old_keys(plan) + planning::new_keys(plan),
    );
    assert(leaves.contains(leaf));
    lemma_landing_moved(volume, dirty, rounds, plan, leaves, leaf);
}

proof fn lemma_key_of(plan: Seq<Rewrite>, generation: u64, i: int)
    requires
        0 <= i < plan.len(),
    ensures
        (planning::old_keys(plan) + planning::new_keys(plan)).contains(
            render::old_record(plan[i], generation).filed_under(),
        ),
        (planning::old_keys(plan) + planning::new_keys(plan)).contains(
            render::new_record(plan[i], generation).filed_under(),
        ),
{
    let all = planning::old_keys(plan) + planning::new_keys(plan);
    assert(all[i] == render::old_record(plan[i], generation).filed_under());
    assert(all[plan.len() + i] == render::new_record(plan[i], generation).filed_under());
}

proof fn lemma_leaf_follows(
    volume: VolumeModel,
    dirty: Seq<u64>,
    rounds: usize,
    plan: Seq<Rewrite>,
    generation: u64,
    after: Image,
    root: u64,
    n: int,
)
    requires
        extents_moved(volume, dirty, rounds, plan, generation, after, root),
        extents_sound(volume, root),
        0 <= n < leaf_lists::leaves_from(volume, root, 0).len(),
    ensures
        leaf_follows(
            volume,
            root,
            plan,
            generation,
            leaf_lists::leaves_from(volume, root, 0)[n],
            relocation::leaf_after(
                volume,
                plan,
                generation,
                objectid::EXTENT_TREE,
                leaf_lists::leaves_from(volume, root, 0)[n],
            ),
        ),
{
    reveal(leaf_follows);
    let list = leaf_lists::leaves_from(volume, root, 0);
    let l = list[n];
    let out = relocation::leaf_after(volume, plan, generation, objectid::EXTENT_TREE, l);
    leaf_lists::lemma_walk_is_held(volume, root, 0);
    leaf_lists::lemma_sorted_leaves(list);
    laws::law_a_closed_plan_rewrites_its_records(volume, dirty, rounds);
    assert(leaf_edit::sorted(l.items));
    match render::moved_to(plan, l.at) {
        None => {
            assert forall|i: int| 0 <= i < plan.len() implies !takes(
                volume,
                root,
                l,
                render::old_record(#[trigger] plan[i], generation).filed_under(),
            ) && !takes(
                volume,
                root,
                l,
                render::new_record(plan[i], generation).filed_under(),
            ) by {
                let old = render::old_record(plan[i], generation).filed_under();
                let new = render::new_record(plan[i], generation).filed_under();
                lemma_key_of(plan, generation, i);
                if takes(volume, root, l, old) {
                    lemma_takes_moved(volume, dirty, rounds, plan, root, old, l.at);
                }
                if takes(volume, root, l, new) {
                    lemma_takes_moved(volume, dirty, rounds, plan, root, new, l.at);
                }
            }
            assert(out == l.items);
        },
        Some(to) => {
            relocation::lemma_leaf_of_moved_tree(
                volume,
                plan,
                generation,
                after,
                objectid::EXTENT_TREE,
                root,
                0,
                n,
            );
            reveal(render::leaf_rendered);
            reveal(render::records_applied);
            let left = render::released_from(
                volume,
                root,
                l.at,
                plan,
                generation,
                l.items,
                0,
            )->Ok_0;
            lemma_released(volume, root, l.at, plan, generation, l.items, 0);
            assert forall|i: int| 0 <= i < plan.len() implies !render::any_under(
                left,
                render::new_record(#[trigger] plan[i], generation).filed_under(),
            ) by {
                let under = render::new_record(plan[i], generation).filed_under();
                if render::any_under(left, under) {
                    let p = choose|p: int| 0 <= p < left.len() && (#[trigger] left[p]).key == under;
                    let x = left[p];
                    assert(left.contains(x));
                    assert(l.items.contains(x));
                    leaf_lists::lemma_held_contains(list, x);
                    let all = volume.tree_items(objectid::EXTENT_TREE)->Ok_0;
                    assert(all.contains(x));
                    let q = choose|q: int| 0 <= q < all.len() && all[q] == x;
                    assert(laws::free_home(volume, plan[i].new));
                    lemma_home_unrecorded(volume, plan[i].new, q);
                }
            }
            lemma_recorded(volume, root, l.at, plan, generation, left, 0);
        },
    }
}

/// In a tree that ascends, a key is in one leaf.
proof fn lemma_one_leaf(list: Seq<LeafModel>, i: int, j: int, key: DiskKey)
    requires
        leaf_lists::ascending(list),
        0 <= i < list.len(),
        0 <= j < list.len(),
        render::any_under(list[i].items, key),
        render::any_under(list[j].items, key),
    ensures
        i == j,
{
    let a = list[i].items;
    let b = list[j].items;
    let p = choose|p: int| 0 <= p < a.len() && (#[trigger] a[p]).key == key;
    let q = choose|q: int| 0 <= q < b.len() && (#[trigger] b[q]).key == key;
    if i < j {
        assert(btree::key_less(list[i].items[p].key, list[j].items[q].key));
    } else if j < i {
        assert(btree::key_less(list[j].items[q].key, list[i].items[p].key));
    }
}

/// What is in a leaf after the plan is what the plan says is in the tree.
proof fn lemma_followed(
    volume: VolumeModel,
    dirty: Seq<u64>,
    rounds: usize,
    plan: Seq<Rewrite>,
    generation: u64,
    after: Image,
    root: u64,
    x: ItemModel,
)
    requires
        extents_moved(volume, dirty, rounds, plan, generation, after, root),
        extents_sound(volume, root),
    ensures
        recorded_after(volume.walk(root).items, plan, generation, x) <==> exists|n: int|
            0 <= n < leaf_lists::leaves_from(volume, root, 0).len() && relocation::leaf_after(
                volume,
                plan,
                generation,
                objectid::EXTENT_TREE,
                #[trigger] leaf_lists::leaves_from(volume, root, 0)[n],
            ).contains(x),
{
    let list = leaf_lists::leaves_from(volume, root, 0);
    let before = volume.walk(root).items;
    leaf_lists::lemma_walk_is_held(volume, root, 0);
    leaf_lists::lemma_sorted_leaves(list);
    leaf_lists::lemma_held_contains(list, x);
    laws::law_a_closed_plan_rewrites_its_records(volume, dirty, rounds);
    if plan.len() > 0 {
        lemma_extents_held(volume, plan, root);
    }
    if recorded_after(before, plan, generation, x) {
        if exists|i: int| 0 <= i < plan.len() && x == new_item(#[trigger] plan[i], generation) {
            let i = choose|i: int| 0 <= i < plan.len() && x == new_item(#[trigger] plan[i], generation);
            let n = leaf_lists::lemma_landing(volume, root, x.key);
            lemma_leaf_follows(volume, dirty, rounds, plan, generation, after, root, n);
            reveal(leaf_follows);
            assert(takes(
                volume,
                root,
                list[n],
                render::new_record(plan[i], generation).filed_under(),
            ));
        } else {
            let n = choose|n: int| 0 <= n < list.len() && (#[trigger] list[n]).items.contains(x);
            lemma_leaf_follows(volume, dirty, rounds, plan, generation, after, root, n);
            reveal(leaf_follows);
        }
    }
    if exists|n: int|
        0 <= n < list.len() && relocation::leaf_after(
            volume,
            plan,
            generation,
            objectid::EXTENT_TREE,
            #[trigger] list[n],
        ).contains(x) {
        let n = choose|n: int|
            0 <= n < list.len() && relocation::leaf_after(
                volume,
                plan,
                generation,
                objectid::EXTENT_TREE,
                #[trigger] list[n],
            ).contains(x);
        lemma_leaf_follows(volume, dirty, rounds, plan, generation, after, root, n);
        reveal(leaf_follows);
        if !(exists|i: int|
            0 <= i < plan.len() && x == new_item(#[trigger] plan[i], generation)) {
            assert(list[n].items.contains(x));
            assert forall|i: int| 0 <= i < plan.len() implies x.key != render::old_record(
                #[trigger] plan[i],
                generation,
            ).filed_under() by {
                let key = render::old_record(plan[i], generation).filed_under();
                if x.key == key {
                    let at = leaf_lists::lemma_landing(volume, root, key);
                    lemma_leaf_follows(volume, dirty, rounds, plan, generation, after, root, at);
                    assert(takes(
                        volume,
                        root,
                        list[at],
                        render::old_record(plan[i], generation).filed_under(),
                    ));
                    assert(render::any_under(list[at].items, key));
                    let p = choose|p: int| 0 <= p < list[n].items.len() && list[n].items[p] == x;
                    assert(list[n].items[p].key == key);
                    lemma_one_leaf(list, at, n, key);
                }
            }
        }
    }
}

/// Where an item of a leaf stands after the plan: among what the leaf held, or
/// where its key lands.
proof fn lemma_stands_where(
    volume: VolumeModel,
    dirty: Seq<u64>,
    rounds: usize,
    plan: Seq<Rewrite>,
    generation: u64,
    after: Image,
    root: u64,
    n: int,
    x: ItemModel,
)
    requires
        extents_moved(volume, dirty, rounds, plan, generation, after, root),
        extents_sound(volume, root),
        0 <= n < leaf_lists::leaves_from(volume, root, 0).len(),
        relocation::leaf_after(
            volume,
            plan,
            generation,
            objectid::EXTENT_TREE,
            leaf_lists::leaves_from(volume, root, 0)[n],
        ).contains(x),
    ensures
        leaf_lists::leaves_from(volume, root, 0)[n].items.contains(x) || leaf_lists::lands_at(
            leaf_lists::leaves_from(volume, root, 0),
            x.key,
            n,
        ),
{
    let list = leaf_lists::leaves_from(volume, root, 0);
    lemma_leaf_follows(volume, dirty, rounds, plan, generation, after, root, n);
    reveal(leaf_follows);
    if !list[n].items.contains(x) {
        laws::law_a_closed_plan_rewrites_its_records(volume, dirty, rounds);
        lemma_extents_held(volume, plan, root);
        let at = leaf_lists::lemma_landing(volume, root, x.key);
        assert(render::belongs(volume, root, list[n].at, x.key));
        leaf_lists::lemma_leaves_apart(volume, root, at, n);
    }
}

/// Two items that stand in different leaves after the plan are in order.
proof fn lemma_leaves_in_order(list: Seq<LeafModel>, i: int, j: int, x: ItemModel, y: ItemModel)
    requires
        leaf_lists::ascending(list),
        0 <= i < j < list.len(),
        list[i].items.contains(x) || leaf_lists::lands_at(list, x.key, i),
        list[j].items.contains(y) || leaf_lists::lands_at(list, y.key, j),
    ensures
        btree::key_less(x.key, y.key),
{
    let a = list[i].items;
    let b = list[j].items;
    assert(b.len() > 0);
    let first = list[j].items[0].key;
    assert(btree::key_less(x.key, first)) by {
        if a.contains(x) {
            let p = choose|p: int| 0 <= p < a.len() && a[p] == x;
            assert(btree::key_less(list[i].items[p].key, list[j].items[0].key));
        }
    }
    assert(!btree::key_less(y.key, first)) by {
        if b.contains(y) {
            let q = choose|q: int| 0 <= q < b.len() && b[q] == y;
            assert(leaf_edit::sorted(list[j].items));
            if q > 0 {
                assert(btree::key_less(b[0].key, b[q].key));
            }
        } else {
            assert(list[i].items.len() > 0);
        }
    }
}

/// The extent tree follows a closed plan: walked from where its root went it
/// meets no fault, comes in key order, and holds what it held but for the
/// record of each address the plan releases, together with the record of each
/// address the plan takes.
pub proof fn law_the_extent_tree_follows_the_plan(
    volume: VolumeModel,
    dirty: Seq<u64>,
    rounds: usize,
    plan: Seq<Rewrite>,
    generation: u64,
    after: Image,
    root: u64,
)
    requires
        extents_sound(volume, root),
        extents_moved(volume, dirty, rounds, plan, generation, after, root),
    ensures
        ({
            let s = btree::walk_from(
                after,
                volume.geometry(),
                relocation::relocated(plan, root),
                None,
                0,
            );
            &&& s.fault is None
            &&& leaf_edit::sorted(s.items)
            &&& forall|x: ItemModel| #[trigger]
                s.items.contains(x) <==> recorded_after(
                    volume.walk(root).items,
                    plan,
                    generation,
                    x,
                )
        }),
{
    let owner = objectid::EXTENT_TREE;
    let list = leaf_lists::leaves_from(volume, root, 0);
    let moved = relocation::leaves_after(volume, plan, generation, owner, list);
    relocation::law_a_moved_tree_is_its_leaves_rendered(
        volume,
        plan,
        generation,
        after,
        owner,
        root,
    );
    leaf_lists::lemma_walk_is_held(volume, root, 0);
    leaf_lists::lemma_sorted_leaves(list);
    assert forall|x: ItemModel| #[trigger] leaf_lists::held(moved).contains(x)
        <==> recorded_after(volume.walk(root).items, plan, generation, x) by {
        leaf_lists::lemma_held_contains(moved, x);
        lemma_followed(volume, dirty, rounds, plan, generation, after, root, x);
        if leaf_lists::held(moved).contains(x) {
            let n = choose|n: int| 0 <= n < moved.len() && (#[trigger] moved[n]).items.contains(x);
            assert(relocation::leaf_after(
                volume,
                plan,
                generation,
                owner,
                list[n],
            ).contains(x));
        }
        if recorded_after(volume.walk(root).items, plan, generation, x) {
            let n = choose|n: int|
                0 <= n < list.len() && relocation::leaf_after(
                    volume,
                    plan,
                    generation,
                    owner,
                    #[trigger] list[n],
                ).contains(x);
            assert(moved[n].items.contains(x));
        }
    }
    assert(leaf_lists::ascending(moved)) by {
        assert forall|n: int| 0 <= n < moved.len() implies leaf_edit::sorted(
            (#[trigger] moved[n]).items,
        ) by {
            lemma_leaf_follows(volume, dirty, rounds, plan, generation, after, root, n);
            reveal(leaf_follows);
        }
        assert forall|i: int, j: int, p: int, q: int|
            #![trigger moved[i].items[p], moved[j].items[q]]
            0 <= i < j < moved.len() && 0 <= p < moved[i].items.len() && 0 <= q
                < moved[j].items.len() implies btree::key_less(
            moved[i].items[p].key,
            moved[j].items[q].key,
        ) by {
            let x = moved[i].items[p];
            let y = moved[j].items[q];
            assert(moved[i].items.contains(x));
            assert(moved[j].items.contains(y));
            lemma_stands_where(volume, dirty, rounds, plan, generation, after, root, i, x);
            lemma_stands_where(volume, dirty, rounds, plan, generation, after, root, j, y);
            lemma_leaves_in_order(list, i, j, x, y);
        }
    }
    leaf_lists::lemma_leaves_sorted(moved);
}

} // verus!
