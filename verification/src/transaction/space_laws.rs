//! What a transaction does to the tree that records what is free.

use vstd::prelude::*;

use crate::block_group::laws as allocation;
use crate::block_group::runs;
use crate::block_group::space;
use crate::block_group::{BlockGroup, FreeExtent};
use crate::btree;
use crate::btree::{Image, ItemModel};
use crate::chunk::{key_type, objectid, DiskKey};
use crate::error::ErrorView;
use crate::leaf_edit;
use crate::transaction;
use crate::transaction::free_space;
use crate::transaction::laws;
use crate::transaction::leaf_lists;
use crate::transaction::leaf_lists::LeafModel;
use crate::transaction::planning;
use crate::transaction::record_laws;
use crate::transaction::relocation;
use crate::transaction::render;
use crate::transaction::Rewrite;
use crate::volume::VolumeModel;

verus! {

/// Whether an item says how a group's free space is recorded.
pub open spec fn opens_group(item: ItemModel) -> bool {
    item.key.key_type == key_type::FREE_SPACE_INFO
}

/// Where the group an info item opens ends.
pub open spec fn group_end(item: ItemModel) -> int {
    item.key.objectid + item.key.offset
}

/// Whether the group an info item opens is there and among those that a plan
/// touches.
pub open spec fn touches(groups: Seq<BlockGroup>, plan: Seq<Rewrite>, item: ItemModel) -> bool {
    &&& free_space::group_starting(groups, item.key.objectid, 0) is Some
    &&& free_space::any_within(
        transaction::olds(plan) + transaction::news(plan),
        item.key.objectid as int,
        group_end(item),
    )
}

/// Whether the items of every group a plan touches that is opened among the
/// first `n` of `items` end there.
pub open spec fn ends_within(
    groups: Seq<BlockGroup>,
    plan: Seq<Rewrite>,
    items: Seq<ItemModel>,
    n: int,
) -> bool {
    forall|p: int|
        0 <= p < n && opens_group(#[trigger] items[p]) && touches(groups, plan, items[p])
            ==> free_space::group_stop(items, p + 1, group_end(items[p])) <= n
}

/// Whether the items of every group a plan touches lie in the leaf that opens
/// it.
pub open spec fn kept_together(
    groups: Seq<BlockGroup>,
    plan: Seq<Rewrite>,
    leaves: Seq<LeafModel>,
) -> bool
    decreases leaves.len(),
{
    leaves.len() == 0 || (ends_within(
        groups,
        plan,
        leaf_lists::held(leaves),
        leaves[0].items.len() as int,
    ) && kept_together(groups, plan, leaves.skip(1)))
}

/// Up to where a group's items stop no other is opened.
proof fn lemma_none_opened(items: Seq<ItemModel>, j: int, end: int, k: int)
    requires
        0 <= j <= k < free_space::group_stop(items, j, end),
    ensures
        k < items.len(),
        !opens_group(items[k]),
        items[k].key.objectid < end,
    decreases items.len() - j,
{
    if j < items.len() && j < k && !opens_group(items[j]) && items[j].key.objectid < end {
        lemma_none_opened(items, j + 1, end, k);
    }
}

/// Items that open no group are carried one by one.
proof fn lemma_carried(
    volume: VolumeModel,
    groups: Seq<BlockGroup>,
    plan: Seq<Rewrite>,
    items: Seq<ItemModel>,
    j: int,
    stop: int,
    out: Seq<ItemModel>,
)
    requires
        0 <= j <= stop <= items.len(),
        forall|k: int| j <= k < stop ==> !opens_group(#[trigger] items[k]),
    ensures
        free_space::respaced_from(volume, groups, plan, items, j, out)
            == free_space::respaced_from(
            volume,
            groups,
            plan,
            items,
            stop,
            out + items.subrange(j, stop),
        ),
    decreases stop - j,
{
    if j < stop {
        assert(!opens_group(items[j]));
        lemma_carried(volume, groups, plan, items, j + 1, stop, out.push(items[j]));
        assert(out.push(items[j]) + items.subrange(j + 1, stop) =~= out + items.subrange(j, stop));
    } else {
        assert(out + items.subrange(j, stop) =~= out);
    }
}

/// A group the plan does not touch is carried as it is.
proof fn lemma_section_kept(
    volume: VolumeModel,
    groups: Seq<BlockGroup>,
    plan: Seq<Rewrite>,
    section: Seq<ItemModel>,
)
    requires
        !touches(groups, plan, section[0]),
    ensures
        free_space::group_respaced(volume, groups, plan, section) == Ok::<
            Seq<ItemModel>,
            ErrorView,
        >(section),
{
    reveal(free_space::group_respaced);
}

proof fn lemma_stop_in_front(a: Seq<ItemModel>, b: Seq<ItemModel>, j: int, end: int)
    requires
        0 <= j <= a.len(),
        free_space::group_stop(a + b, j, end) <= a.len(),
    ensures
        free_space::group_stop(a, j, end) == free_space::group_stop(a + b, j, end),
    decreases a.len() - j,
{
    if j < a.len() {
        assert((a + b)[j] == a[j]);
        if !opens_group(a[j]) && a[j].key.objectid < end {
            lemma_stop_in_front(a, b, j + 1, end);
        }
    } else {
        free_space::lemma_group_stop(a + b, j, end);
    }
}

/// A group that goes on behind takes all that is left in front.
proof fn lemma_stop_past_front(a: Seq<ItemModel>, b: Seq<ItemModel>, j: int, end: int)
    requires
        0 <= j <= a.len(),
        free_space::group_stop(a + b, j, end) > a.len(),
    ensures
        free_space::group_stop(a, j, end) == a.len(),
    decreases a.len() - j,
{
    if j < a.len() {
        assert((a + b)[j] == a[j]);
        lemma_stop_past_front(a, b, j + 1, end);
    }
}

proof fn lemma_stop_behind(a: Seq<ItemModel>, b: Seq<ItemModel>, j: int, end: int)
    requires
        0 <= j <= b.len(),
    ensures
        free_space::group_stop(a + b, a.len() + j, end) == a.len() + free_space::group_stop(
            b,
            j,
            end,
        ),
    decreases b.len() - j,
{
    if j < b.len() {
        assert((a + b)[a.len() + j] == b[j]);
        if !opens_group(b[j]) && b[j].key.objectid < end {
            lemma_stop_behind(a, b, j + 1, end);
        }
    }
}

/// Items are rewritten first in front and then behind where no group the plan
/// touches goes on from one to the other.
proof fn lemma_respaced_front(
    volume: VolumeModel,
    groups: Seq<BlockGroup>,
    plan: Seq<Rewrite>,
    a: Seq<ItemModel>,
    b: Seq<ItemModel>,
    i: int,
    out: Seq<ItemModel>,
)
    requires
        0 <= i <= a.len(),
        ends_within(groups, plan, a + b, a.len() as int),
    ensures
        free_space::respaced_from(volume, groups, plan, a + b, i, out) == match free_space::respaced_from(
            volume,
            groups,
            plan,
            a,
            i,
            out,
        ) {
            Err(e) => Err(e),
            Ok(o) => free_space::respaced_from(volume, groups, plan, a + b, a.len() as int, o),
        },
    decreases a.len() - i,
{
    let all = a + b;
    if i < a.len() {
        assert(all[i] == a[i]);
        if !opens_group(a[i]) {
            lemma_respaced_front(volume, groups, plan, a, b, i + 1, out.push(a[i]));
        } else {
            let end = group_end(a[i]);
            assert(opens_group(all[i]));
            let stop = free_space::group_stop(all, i + 1, end);
            let n = a.len() as int;
            free_space::lemma_group_stop(all, i + 1, end);
            if stop <= n {
                lemma_stop_in_front(a, b, i + 1, end);
                assert(all.subrange(i, stop) =~= a.subrange(i, stop));
                if let Ok(next) = free_space::group_respaced(
                    volume,
                    groups,
                    plan,
                    a.subrange(i, stop),
                ) {
                    lemma_respaced_front(volume, groups, plan, a, b, stop, out + next);
                }
            } else {
                let section = all.subrange(i, stop);
                let head = a.subrange(i, n);
                assert(section[0] == all[i] && head[0] == all[i]);
                lemma_stop_past_front(a, b, i + 1, end);
                lemma_section_kept(volume, groups, plan, section);
                lemma_section_kept(volume, groups, plan, head);
                assert forall|k: int| n <= k < stop implies !opens_group(#[trigger] all[k]) by {
                    lemma_none_opened(all, i + 1, end, k);
                }
                lemma_carried(volume, groups, plan, all, n, stop, out + head);
                assert((out + head) + all.subrange(n, stop) =~= out + section);
                assert(free_space::respaced_from(volume, groups, plan, a, n, out + head) == Ok::<
                    Seq<ItemModel>,
                    ErrorView,
                >(out + head));
            }
        }
    }
}

/// What lies in front does not change how items are rewritten.
proof fn lemma_respaced_behind(
    volume: VolumeModel,
    groups: Seq<BlockGroup>,
    plan: Seq<Rewrite>,
    a: Seq<ItemModel>,
    b: Seq<ItemModel>,
    j: int,
    front: Seq<ItemModel>,
    out: Seq<ItemModel>,
)
    requires
        0 <= j <= b.len(),
    ensures
        free_space::respaced_from(volume, groups, plan, a + b, a.len() + j, front + out)
            == match free_space::respaced_from(volume, groups, plan, b, j, out) {
            Err(e) => Err(e),
            Ok(o) => Ok(front + o),
        },
    decreases b.len() - j,
{
    let all = a + b;
    let at = a.len() + j;
    if j < b.len() {
        assert(all[at] == b[j]);
        if !opens_group(b[j]) {
            assert((front + out).push(b[j]) =~= front + out.push(b[j]));
            lemma_respaced_behind(volume, groups, plan, a, b, j + 1, front, out.push(b[j]));
        } else {
            let end = group_end(b[j]);
            let stop = free_space::group_stop(b, j + 1, end);
            free_space::lemma_group_stop(b, j + 1, end);
            lemma_stop_behind(a, b, j + 1, end);
            assert(all.subrange(at, a.len() + stop) =~= b.subrange(j, stop));
            if let Ok(next) = free_space::group_respaced(
                volume,
                groups,
                plan,
                b.subrange(j, stop),
            ) {
                assert((front + out) + next =~= front + (out + next));
                lemma_respaced_behind(volume, groups, plan, a, b, stop, front, out + next);
            }
        }
    }
}

/// Rewriting leaf by leaf is rewriting group by group where every group that
/// changes lies in one leaf.
proof fn lemma_leaves_respaced(
    volume: VolumeModel,
    groups: Seq<BlockGroup>,
    plan: Seq<Rewrite>,
    leaves: Seq<LeafModel>,
    moved: Seq<LeafModel>,
)
    requires
        kept_together(groups, plan, leaves),
        leaves.len() == moved.len(),
        forall|n: int|
            0 <= n < leaves.len() ==> free_space::respaced_from(
                volume,
                groups,
                plan,
                (#[trigger] leaves[n]).items,
                0,
                Seq::empty(),
            ) == Ok::<Seq<ItemModel>, ErrorView>(moved[n].items),
    ensures
        free_space::respaced_from(
            volume,
            groups,
            plan,
            leaf_lists::held(leaves),
            0,
            Seq::empty(),
        ) == Ok::<Seq<ItemModel>, ErrorView>(leaf_lists::held(moved)),
    decreases leaves.len(),
{
    let none = Seq::<ItemModel>::empty();
    if leaves.len() > 0 {
        let a = leaves[0].items;
        let b = leaf_lists::held(leaves.skip(1));
        assert forall|n: int| 0 <= n < leaves.skip(1).len() implies free_space::respaced_from(
            volume,
            groups,
            plan,
            (#[trigger] leaves.skip(1)[n]).items,
            0,
            Seq::empty(),
        ) == Ok::<Seq<ItemModel>, ErrorView>(moved.skip(1)[n].items) by {
            assert(leaves.skip(1)[n] == leaves[n + 1]);
        }
        lemma_leaves_respaced(volume, groups, plan, leaves.skip(1), moved.skip(1));
        lemma_respaced_front(volume, groups, plan, a, b, 0, none);
        let first = moved[0].items;
        assert(free_space::respaced_from(volume, groups, plan, leaves[0].items, 0, none) == Ok::<
            Seq<ItemModel>,
            ErrorView,
        >(first));
        lemma_respaced_behind(volume, groups, plan, a, b, 0, first, none);
        assert(first + none =~= first);
    }
}

/// Items that open no group the plan touches stay as they are.
proof fn lemma_untouched(
    volume: VolumeModel,
    groups: Seq<BlockGroup>,
    plan: Seq<Rewrite>,
    items: Seq<ItemModel>,
    i: int,
    out: Seq<ItemModel>,
)
    requires
        0 <= i <= items.len(),
        forall|p: int|
            i <= p < items.len() && opens_group(#[trigger] items[p]) ==> !touches(
                groups,
                plan,
                items[p],
            ),
    ensures
        free_space::respaced_from(volume, groups, plan, items, i, out) == Ok::<
            Seq<ItemModel>,
            ErrorView,
        >(out + items.skip(i)),
    decreases items.len() - i,
{
    if i < items.len() {
        if !opens_group(items[i]) {
            lemma_untouched(volume, groups, plan, items, i + 1, out.push(items[i]));
            assert(out.push(items[i]) + items.skip(i + 1) =~= out + items.skip(i));
        } else {
            let end = group_end(items[i]);
            let stop = free_space::group_stop(items, i + 1, end);
            free_space::lemma_group_stop(items, i + 1, end);
            let section = items.subrange(i, stop);
            assert(section[0] == items[i]);
            lemma_section_kept(volume, groups, plan, section);
            lemma_untouched(volume, groups, plan, items, stop, out + section);
            assert((out + section) + items.skip(stop) =~= out + items.skip(i));
        }
    } else {
        assert(out + items.skip(i) =~= out);
    }
}

/// Whether every info item names a group's length as the group does.
pub open spec fn infos_match(groups: Seq<BlockGroup>, items: Seq<ItemModel>) -> bool {
    forall|p: int|
        #![trigger items[p]]
        0 <= p < items.len() && opens_group(items[p]) ==> match free_space::group_starting(
            groups,
            items[p].key.objectid,
            0,
        ) {
            Some(g) => g.length == items[p].key.offset,
            None => true,
        }
}

proof fn lemma_group_starting(groups: Seq<BlockGroup>, start: u64, from: int)
    requires
        0 <= from,
    ensures
        free_space::group_starting(groups, start, from) matches Some(g) ==> g.start == start
            && exists|i: int| from <= i < groups.len() && #[trigger] groups[i] == g,
    decreases groups.len() - from,
{
    if from < groups.len() {
        if groups[from].start != start {
            lemma_group_starting(groups, start, from + 1);
            if let Some(g) = free_space::group_starting(groups, start, from) {
                let i = choose|i: int| from + 1 <= i < groups.len() && #[trigger] groups[i] == g;
                assert(groups[i] == g);
            }
        } else {
            assert(groups[from] == groups[from]);
        }
    }
}

proof fn lemma_covered(group: BlockGroup, addresses: Seq<u64>, i: int)
    requires
        0 <= i < addresses.len(),
        group.covers(addresses[i]),
    ensures
        planning::covered(group, addresses).len() > 0,
    decreases addresses.len(),
{
    if i < addresses.len() - 1 {
        assert(addresses.drop_last()[i] == addresses[i]);
        lemma_covered(group, addresses.drop_last(), i);
    }
}

proof fn lemma_space_keys(groups: Seq<BlockGroup>, addresses: Seq<u64>, g: int)
    requires
        0 <= g < groups.len(),
        planning::covered(groups[g], addresses).len() > 0,
    ensures
        planning::space_keys(groups, addresses).contains(planning::info_key(groups[g])),
    decreases groups.len(),
{
    let front = groups.drop_last();
    let before = planning::space_keys(front, addresses);
    let all = planning::space_keys(groups, addresses);
    if g == groups.len() - 1 {
        assert(all[before.len() as int] == planning::info_key(groups[g]));
    } else {
        assert(front[g] == groups[g]);
        lemma_space_keys(front, addresses, g);
        let k = choose|k: int|
            0 <= k < before.len() && before[k] == planning::info_key(groups[g]);
        assert(all[k] == before[k]);
    }
}

/// A key a leaf holds lands in that leaf.
proof fn lemma_held_lands(list: Seq<LeafModel>, key: DiskKey, n: int, p: int, at: int)
    requires
        leaf_lists::ascending(list),
        0 <= n < list.len(),
        0 <= p < list[n].items.len(),
        list[n].items[p].key == key,
        leaf_lists::lands_at(list, key, at),
    ensures
        at == n,
{
    if at < n {
        assert(leaf_edit::sorted(list[n].items));
        if p > 0 {
            assert(btree::key_less(list[n].items[0].key, list[n].items[p].key));
        }
        assert(btree::key_less(key, list[n].items[0].key));
    } else if at > n {
        assert(btree::key_less(list[n].items[p].key, list[at].items[0].key));
        assert(list[n].items.len() > 0);
    }
}

/// Whether the free-space tree, rooted at `root`, is sound: its root is
/// somewhere, its walk meets no fault and comes in key order, an info item
/// gives the length of its group, and the items of a group that `plan` touches
/// lie in one leaf.
pub open spec fn space_sound(volume: VolumeModel, root: u64, plan: Seq<Rewrite>) -> bool {
    let s = volume.walk(root);
    &&& volume.root_if_any(objectid::FREE_SPACE_TREE) == Ok::<Option<u64>, ErrorView>(Some(root))
    &&& root != 0
    &&& s.fault is None
    &&& leaf_edit::sorted(s.items)
    &&& space::groups_outcome(volume) matches Ok(groups) && infos_match(groups, s.items)
        && kept_together(groups, plan, leaf_lists::leaves_from(volume, root, 0))
}

/// Whether a closed plan that moves the free-space tree as a whole has been
/// carried out.
pub open spec fn space_moved(
    volume: VolumeModel,
    dirty: Seq<u64>,
    rounds: usize,
    plan: Seq<Rewrite>,
    generation: u64,
    after: Image,
    root: u64,
) -> bool {
    &&& volume.sb.nodesize > 0
    &&& planning::closed_outcome(volume, dirty, rounds) == Ok::<Seq<Rewrite>, ErrorView>(plan)
    &&& relocation::well_placed(volume, plan)
    &&& relocation::carried_out(volume, plan, generation, after)
    &&& relocation::moves_whole(volume, plan, generation, objectid::FREE_SPACE_TREE, root, 0)
}

/// A closed plan moves the leaves that describe what it touches.
proof fn lemma_described_moved(
    volume: VolumeModel,
    dirty: Seq<u64>,
    rounds: usize,
    plan: Seq<Rewrite>,
    leaves: Seq<u64>,
    leaf: u64,
)
    requires
        volume.sb.nodesize > 0,
        planning::closed_outcome(volume, dirty, rounds) == Ok::<Seq<Rewrite>, ErrorView>(plan),
        planning::space_leaves(volume, transaction::olds(plan) + transaction::news(plan)) == Ok::<
            Seq<u64>,
            ErrorView,
        >(leaves),
        leaves.contains(leaf),
    ensures
        render::moved_to(plan, leaf) is Some,
{
    laws::law_a_closed_plan_rewrites_its_records(volume, dirty, rounds);
    laws::lemma_all_moved(plan, leaves, leaf);
    record_laws::lemma_released_is_moved(plan, leaf);
}

/// A leaf that opens a group the plan touches moves.
proof fn lemma_touched_moved(
    volume: VolumeModel,
    dirty: Seq<u64>,
    rounds: usize,
    plan: Seq<Rewrite>,
    root: u64,
    groups: Seq<BlockGroup>,
    n: int,
    p: int,
)
    requires
        space_sound(volume, root, plan),
        volume.sb.nodesize > 0,
        planning::closed_outcome(volume, dirty, rounds) == Ok::<Seq<Rewrite>, ErrorView>(plan),
        space::groups_outcome(volume) == Ok::<Seq<BlockGroup>, ErrorView>(groups),
        0 <= n < leaf_lists::leaves_from(volume, root, 0).len(),
        0 <= p < leaf_lists::leaves_from(volume, root, 0)[n].items.len(),
        opens_group(leaf_lists::leaves_from(volume, root, 0)[n].items[p]),
        touches(groups, plan, leaf_lists::leaves_from(volume, root, 0)[n].items[p]),
    ensures
        render::moved_to(plan, leaf_lists::leaves_from(volume, root, 0)[n].at) is Some,
{
    let list = leaf_lists::leaves_from(volume, root, 0);
    let item = list[n].items[p];
    let addresses = transaction::olds(plan) + transaction::news(plan);
    let all = volume.walk(root).items;
    leaf_lists::lemma_walk_is_held(volume, root, 0);
    leaf_lists::lemma_sorted_leaves(list);
    assert(list[n].items.contains(item));
    leaf_lists::lemma_held_contains(list, item);
    let q = choose|q: int| 0 <= q < all.len() && all[q] == item;
    lemma_group_starting(groups, item.key.objectid, 0);
    let g = free_space::group_starting(groups, item.key.objectid, 0)->Some_0;
    assert(opens_group(all[q]));
    assert(g.length == item.key.offset);
    let k = choose|k: int| 0 <= k < groups.len() && #[trigger] groups[k] == g;
    let i = choose|i: int|
        0 <= i < addresses.len() && item.key.objectid <= #[trigger] addresses[i] < group_end(item);
    assert(g.covers(addresses[i]));
    lemma_covered(g, addresses, i);
    lemma_space_keys(groups, addresses, k);
    let keys = planning::space_keys(groups, addresses);
    assert(planning::info_key(g) == item.key);
    let at = leaf_lists::lemma_landing(volume, root, item.key);
    lemma_held_lands(list, item.key, n, p, at);
    let leaves = planning::landing_leaves(volume, root, keys);
    assert(leaves.contains(list[n].at));
    lemma_described_moved(volume, dirty, rounds, plan, leaves, list[n].at);
}

/// What a leaf of the free-space tree holds after the plan is what it held,
/// rewritten group by group.
proof fn lemma_leaf_respaced(
    volume: VolumeModel,
    dirty: Seq<u64>,
    rounds: usize,
    plan: Seq<Rewrite>,
    generation: u64,
    after: Image,
    root: u64,
    groups: Seq<BlockGroup>,
    n: int,
)
    requires
        space_sound(volume, root, plan),
        space_moved(volume, dirty, rounds, plan, generation, after, root),
        space::groups_outcome(volume) == Ok::<Seq<BlockGroup>, ErrorView>(groups),
        0 <= n < leaf_lists::leaves_from(volume, root, 0).len(),
    ensures
        free_space::respaced_from(
            volume,
            groups,
            plan,
            leaf_lists::leaves_from(volume, root, 0)[n].items,
            0,
            Seq::empty(),
        ) == Ok::<Seq<ItemModel>, ErrorView>(
            relocation::leaf_after(
                volume,
                plan,
                generation,
                objectid::FREE_SPACE_TREE,
                leaf_lists::leaves_from(volume, root, 0)[n],
            ),
        ),
{
    let l = leaf_lists::leaves_from(volume, root, 0)[n];
    let none = Seq::<ItemModel>::empty();
    match render::moved_to(plan, l.at) {
        Some(to) => {
            relocation::lemma_leaf_of_moved_tree(
                volume,
                plan,
                generation,
                after,
                objectid::FREE_SPACE_TREE,
                root,
                0,
                n,
            );
            reveal(render::leaf_rendered);
        },
        None => {
            assert forall|p: int| 0 <= p < l.items.len() && opens_group(
                #[trigger] l.items[p],
            ) implies !touches(groups, plan, l.items[p]) by {
                if touches(groups, plan, l.items[p]) {
                    lemma_touched_moved(volume, dirty, rounds, plan, root, groups, n, p);
                }
            }
            lemma_untouched(volume, groups, plan, l.items, 0, none);
            assert(none + l.items.skip(0) =~= l.items);
        },
    }
}

/// The free-space tree follows a closed plan: walked from where its root went
/// it meets no fault and gives what it gave, with the items of every group the
/// plan touches rewritten to what the plan leaves free there and everything
/// else as it was.
pub proof fn law_the_free_space_tree_follows_the_plan(
    volume: VolumeModel,
    dirty: Seq<u64>,
    rounds: usize,
    plan: Seq<Rewrite>,
    generation: u64,
    after: Image,
    root: u64,
)
    requires
        space_sound(volume, root, plan),
        space_moved(volume, dirty, rounds, plan, generation, after, root),
    ensures
        ({
            let s = btree::walk_from(
                after,
                volume.geometry(),
                relocation::relocated(plan, root),
                None,
                0,
            );
            &&& s.fault is None
            &&& free_space::respaced_from(
                volume,
                space::groups_outcome(volume)->Ok_0,
                plan,
                volume.walk(root).items,
                0,
                Seq::empty(),
            ) == Ok::<Seq<ItemModel>, ErrorView>(s.items)
        }),
{
    let owner = objectid::FREE_SPACE_TREE;
    let groups = space::groups_outcome(volume)->Ok_0;
    let list = leaf_lists::leaves_from(volume, root, 0);
    let moved = relocation::leaves_after(volume, plan, generation, owner, list);
    relocation::law_a_moved_tree_is_its_leaves_rendered(
        volume,
        plan,
        generation,
        after,
        owner,
        root,
    );
    leaf_lists::lemma_walk_is_held(volume, root, 0);
    assert forall|n: int| 0 <= n < list.len() implies free_space::respaced_from(
        volume,
        groups,
        plan,
        (#[trigger] list[n]).items,
        0,
        Seq::empty(),
    ) == Ok::<Seq<ItemModel>, ErrorView>(moved[n].items) by {
        lemma_leaf_respaced(volume, dirty, rounds, plan, generation, after, root, groups, n);
    }
    lemma_leaves_respaced(volume, groups, plan, list, moved);
}

/// Whether an item says nothing of what is free in `group`.
pub open spec fn quiet(group: BlockGroup, item: ItemModel) -> bool {
    !(group.covers(item.key.objectid) && (item.key.key_type == key_type::FREE_SPACE_EXTENT
        || item.key.key_type == key_type::FREE_SPACE_BITMAP))
}

/// Whether items say nothing of what is free in `group`.
pub open spec fn all_quiet(group: BlockGroup, items: Seq<ItemModel>) -> bool {
    forall|i: int| 0 <= i < items.len() ==> quiet(group, #[trigger] items[i])
}

proof fn lemma_quiet_joined(group: BlockGroup, a: Seq<ItemModel>, b: Seq<ItemModel>)
    requires
        all_quiet(group, a),
        all_quiet(group, b),
    ensures
        all_quiet(group, a + b),
{
    assert forall|i: int| 0 <= i < (a + b).len() implies quiet(group, #[trigger] (a + b)[i]) by {
        if i < a.len() {
            assert((a + b)[i] == a[i]);
        } else {
            assert((a + b)[i] == b[i - a.len()]);
        }
    }
}

/// Quiet items behind change nothing of what is read.
proof fn lemma_cached_before_quiet(
    group: BlockGroup,
    sectorsize: u64,
    a: Seq<ItemModel>,
    b: Seq<ItemModel>,
)
    requires
        all_quiet(group, b),
    ensures
        space::cached_in(a + b, group, sectorsize) == space::cached_in(a, group, sectorsize),
    decreases b.len(),
{
    if b.len() == 0 {
        assert(a + b =~= a);
    } else {
        let front = b.drop_last();
        assert forall|i: int| 0 <= i < front.len() implies quiet(group, #[trigger] front[i]) by {
            assert(front[i] == b[i]);
        }
        lemma_cached_before_quiet(group, sectorsize, a, front);
        assert((a + b).drop_last() =~= a + front);
        assert(quiet(group, b[b.len() - 1]));
    }
}

/// Quiet items in front change nothing of what is read.
proof fn lemma_cached_after_quiet(
    group: BlockGroup,
    sectorsize: u64,
    a: Seq<ItemModel>,
    b: Seq<ItemModel>,
)
    requires
        all_quiet(group, a),
    ensures
        space::cached_in(a + b, group, sectorsize) == space::cached_in(b, group, sectorsize),
    decreases b.len(),
{
    if b.len() == 0 {
        let none = Seq::<ItemModel>::empty();
        lemma_cached_before_quiet(group, sectorsize, none, a);
        assert(none + a =~= a + b);
        assert(b =~= none);
    } else {
        lemma_cached_after_quiet(group, sectorsize, a, b.drop_last());
        assert((a + b).drop_last() =~= a + b.drop_last());
        assert((a + b).last() == b.last());
    }
}

/// The items that record runs of a group read as runs that cover what they
/// cover. A run at the very end of the address space covers nothing.
proof fn lemma_cached_runs(
    group: BlockGroup,
    sectorsize: u64,
    list: Seq<FreeExtent>,
    address: u64,
)
    requires
        forall|i: int|
            0 <= i < list.len() ==> (#[trigger] list[i]).start == u64::MAX || group.covers(
                list[i].start,
            ),
    ensures
        runs::in_runs(
            space::cached_in(
                list.map_values(|r: FreeExtent| free_space::run_item(r)),
                group,
                sectorsize,
            ),
            address,
        ) == runs::in_runs(list, address),
    decreases list.len(),
{
    let f = |r: FreeExtent| free_space::run_item(r);
    let items = list.map_values(f);
    if list.len() == 0 {
        assert(space::cached_in(items, group, sectorsize) =~= list);
    } else {
        let front = list.drop_last();
        assert forall|i: int| 0 <= i < front.len() implies (#[trigger] front[i]).start == u64::MAX
            || group.covers(front[i].start) by {
            assert(front[i] == list[i]);
        }
        lemma_cached_runs(group, sectorsize, front, address);
        assert(items.drop_last() =~= front.map_values(f));
        assert(items.last() == free_space::run_item(list.last()));
        assert(front.push(list.last()) =~= list);
        runs::lemma_in_pushed(front, list.last(), address);
        let before = space::cached_in(items.drop_last(), group, sectorsize);
        runs::lemma_in_pushed(before, list.last(), address);
        assert(list[list.len() - 1] == list.last());
    }
}

/// Whether groups lie inside the address space and no two cover one address.
pub open spec fn groups_sound(groups: Seq<BlockGroup>) -> bool {
    &&& record_laws::groups_apart(groups)
    &&& forall|i: int|
        0 <= i < groups.len() ==> (#[trigger] groups[i]).start + groups[i].length <= u64::MAX
}

/// Whether a block of `nodesize` bytes at each of `addresses` lies whole in
/// whichever group covers its start.
pub open spec fn blocks_whole(groups: Seq<BlockGroup>, addresses: Seq<u64>, nodesize: u64) -> bool {
    forall|g: int, i: int|
        #![trigger groups[g].covers(addresses[i])]
        0 <= g < groups.len() && 0 <= i < addresses.len() && groups[g].covers(addresses[i])
            ==> addresses[i] + nodesize <= groups[g].start + groups[g].length
}

/// The runs a plan leaves free in a group start in the group.
proof fn lemma_run_inside(
    volume: VolumeModel,
    groups: Seq<BlockGroup>,
    plan: Seq<Rewrite>,
    h: int,
    free: Seq<FreeExtent>,
    k: int,
)
    requires
        0 <= h < groups.len(),
        blocks_whole(groups, transaction::olds(plan), volume.sb.nodesize as u64),
        space::group_free(volume, groups[h]) == Ok::<Seq<FreeExtent>, ErrorView>(free),
        0 <= k < free_space::free_after(
            free,
            groups[h],
            plan,
            volume.sb.nodesize as u64,
        ).len(),
    ensures
        ({
            let start = free_space::free_after(
                free,
                groups[h],
                plan,
                volume.sb.nodesize as u64,
            )[k].start;
            start == u64::MAX || groups[h].covers(start)
        }),
{
    let nodesize = volume.sb.nodesize as u64;
    let group = groups[h];
    let left = free_space::free_after(free, group, plan, nodesize);
    let x = left[k].start;
    if x < u64::MAX {
        free_space::law_free_space_follows_the_plan(free, group, plan, nodesize, x);
        assert(left[k].len > 0);
        assert(runs::in_run(left[k], x));
        assert(runs::in_runs(left, x));
        if runs::in_runs(free, x) {
            let items = volume.tree_items(objectid::EXTENT_TREE)->Ok_0;
            allocation::law_group_space_is_divided(items, seq![group], 0, volume.sb.nodesize);
            let i = choose|i: int| 0 <= i < free.len() && runs::in_run(#[trigger] free[i], x);
            assert(group.start <= free[i].start);
        } else {
            let olds = transaction::olds(plan);
            let i = choose|i: int|
                0 <= i < olds.len() && group.covers(#[trigger] olds[i]) && olds[i] <= x < olds[i]
                    + nodesize;
            assert(groups[h].covers(olds[i]));
        }
    }
}

/// What the plan makes of another group says nothing of `groups[g]`.
proof fn lemma_section_quiet(
    volume: VolumeModel,
    groups: Seq<BlockGroup>,
    plan: Seq<Rewrite>,
    g: int,
    section: Seq<ItemModel>,
)
    requires
        0 <= g < groups.len(),
        groups_sound(groups),
        blocks_whole(groups, transaction::olds(plan), volume.sb.nodesize as u64),
        section.len() > 0,
        opens_group(section[0]),
        section[0].key.objectid != groups[g].start,
        all_quiet(groups[g], section),
        free_space::group_respaced(volume, groups, plan, section) is Ok,
    ensures
        all_quiet(groups[g], free_space::group_respaced(volume, groups, plan, section)->Ok_0),
{
    reveal(free_space::group_respaced);
    let start = section[0].key.objectid;
    let next = free_space::group_respaced(volume, groups, plan, section)->Ok_0;
    if touches(groups, plan, section[0]) {
        lemma_group_starting(groups, start, 0);
        let other = free_space::group_starting(groups, start, 0)->Some_0;
        let h = choose|h: int| 0 <= h < groups.len() && #[trigger] groups[h] == other;
        let free = space::group_free(volume, other)->Ok_0;
        let left = free_space::free_after(free, other, plan, volume.sb.nodesize as u64);
        let f = |r: FreeExtent| free_space::run_item(r);
        assert(next == seq![free_space::counted(section[0], left.len())] + left.map_values(f));
        assert forall|i: int| 0 <= i < next.len() implies quiet(groups[g], #[trigger] next[i]) by {
            if i > 0 {
                assert(next[i] == free_space::run_item(left[i - 1]));
                lemma_run_inside(volume, groups, plan, h, free, i - 1);
                let x = left[i - 1].start;
                if groups[g].covers(x) {
                    assert(groups[h].covers(x));
                }
            }
        }
    } else {
        lemma_section_kept(volume, groups, plan, section);
    }
}

/// What the plan makes of quiet items from `i` to `stop`, where a group opens
/// or the items end, is quiet.
proof fn lemma_others_quiet(
    volume: VolumeModel,
    groups: Seq<BlockGroup>,
    plan: Seq<Rewrite>,
    g: int,
    items: Seq<ItemModel>,
    i: int,
    stop: int,
    out: Seq<ItemModel>,
) -> (more: Seq<ItemModel>)
    requires
        0 <= g < groups.len(),
        groups_sound(groups),
        blocks_whole(groups, transaction::olds(plan), volume.sb.nodesize as u64),
        0 <= i <= stop <= items.len(),
        stop < items.len() ==> opens_group(items[stop]),
        forall|j: int| i <= j < stop ==> quiet(groups[g], #[trigger] items[j]),
        forall|j: int|
            i <= j < stop && opens_group(#[trigger] items[j]) ==> items[j].key.objectid
                != groups[g].start,
        free_space::respaced_from(volume, groups, plan, items, i, out) is Ok,
    ensures
        all_quiet(groups[g], more),
        free_space::respaced_from(volume, groups, plan, items, i, out)
            == free_space::respaced_from(volume, groups, plan, items, stop, out + more),
    decreases stop - i,
{
    if i == stop {
        let none = Seq::<ItemModel>::empty();
        assert(out + none =~= out);
        none
    } else if !opens_group(items[i]) {
        let one = seq![items[i]];
        assert(quiet(groups[g], items[i]));
        let rest = lemma_others_quiet(
            volume,
            groups,
            plan,
            g,
            items,
            i + 1,
            stop,
            out.push(items[i]),
        );
        assert(out.push(items[i]) + rest =~= out + (one + rest));
        lemma_quiet_joined(groups[g], one, rest);
        one + rest
    } else {
        let end = group_end(items[i]);
        let to = free_space::group_stop(items, i + 1, end);
        free_space::lemma_group_stop(items, i + 1, end);
        if to > stop {
            lemma_none_opened(items, i + 1, end, stop);
        }
        let section = items.subrange(i, to);
        assert(section[0] == items[i]);
        assert forall|j: int| 0 <= j < section.len() implies quiet(
            groups[g],
            #[trigger] section[j],
        ) by {
            assert(section[j] == items[i + j]);
        }
        lemma_section_quiet(volume, groups, plan, g, section);
        let next = free_space::group_respaced(volume, groups, plan, section)->Ok_0;
        let rest = lemma_others_quiet(
            volume,
            groups,
            plan,
            g,
            items,
            to,
            stop,
            out + next,
        );
        assert((out + next) + rest =~= out + (next + rest));
        lemma_quiet_joined(groups[g], next, rest);
        next + rest
    }
}

/// Whether the item `p` is the info of `group` and no other opens a group
/// inside it.
pub open spec fn sole_info(items: Seq<ItemModel>, p: int, group: BlockGroup) -> bool {
    &&& 0 <= p < items.len()
    &&& items[p].key == planning::info_key(group)
    &&& forall|j: int|
        0 <= j < items.len() && j != p && opens_group(#[trigger] items[j]) ==> !group.covers(
            items[j].key.objectid,
        )
}

/// Outside its items nothing is said of a group.
proof fn lemma_quiet_outside(items: Seq<ItemModel>, p: int, group: BlockGroup, j: int)
    requires
        leaf_edit::sorted(items),
        sole_info(items, p, group),
        group.length > 0,
        0 <= j < items.len(),
        j < p || j >= free_space::group_stop(items, p + 1, group_end(items[p])),
    ensures
        quiet(group, items[j]),
        opens_group(items[j]) ==> items[j].key.objectid != group.start,
{
    let end = group_end(items[p]);
    let stop = free_space::group_stop(items, p + 1, end);
    free_space::lemma_group_stop(items, p + 1, end);
    if j < p {
        assert(btree::key_less(items[j].key, items[p].key));
    } else {
        lemma_stop_reason(items, p + 1, end);
        assert(btree::key_less(items[p].key, items[stop].key));
        if j > stop {
            assert(btree::key_less(items[stop].key, items[j].key));
        }
        assert(items[stop].key.objectid >= end);
    }
    if opens_group(items[j]) {
        assert(!group.covers(items[j].key.objectid));
    }
}

/// What a group's items stop at: an item that opens another, or one past the
/// group.
proof fn lemma_stop_reason(items: Seq<ItemModel>, j: int, end: int)
    requires
        0 <= j,
        free_space::group_stop(items, j, end) < items.len(),
    ensures
        ({
            let stop = free_space::group_stop(items, j, end);
            opens_group(items[stop]) || items[stop].key.objectid >= end
        }),
    decreases items.len() - j,
{
    if j < items.len() && !opens_group(items[j]) && items[j].key.objectid < end {
        lemma_stop_reason(items, j + 1, end);
    }
}

/// Whether `items` are what the plan makes of a group's items, between items
/// that say nothing of the group.
pub open spec fn section_between(
    group: BlockGroup,
    front: Seq<ItemModel>,
    section: Seq<ItemModel>,
    back: Seq<ItemModel>,
    items: Seq<ItemModel>,
) -> bool {
    &&& all_quiet(group, front)
    &&& all_quiet(group, back)
    &&& items == front + section + back
}

/// The items a group has, and what the plan makes of them.
proof fn lemma_section(
    volume: VolumeModel,
    groups: Seq<BlockGroup>,
    plan: Seq<Rewrite>,
    g: int,
    items: Seq<ItemModel>,
    p: int,
    result: Seq<ItemModel>,
) -> (parts: (Seq<ItemModel>, Seq<ItemModel>))
    requires
        0 <= g < groups.len(),
        groups_sound(groups),
        blocks_whole(groups, transaction::olds(plan), volume.sb.nodesize as u64),
        leaf_edit::sorted(items),
        sole_info(items, p, groups[g]),
        groups[g].length > 0,
        free_space::respaced_from(volume, groups, plan, items, 0, Seq::empty()) == Ok::<
            Seq<ItemModel>,
            ErrorView,
        >(result),
    ensures
        ({
            let stop = free_space::group_stop(items, p + 1, group_end(items[p]));
            let section = items.subrange(p, stop);
            &&& p < stop <= items.len()
            &&& section_between(
                groups[g],
                items.take(p),
                section,
                items.skip(stop),
                items,
            )
            &&& free_space::group_respaced(volume, groups, plan, section) matches Ok(next)
                && section_between(groups[g], parts.0, next, parts.1, result)
        }),
{
    let group = groups[g];
    let none = Seq::<ItemModel>::empty();
    let end = group_end(items[p]);
    let stop = free_space::group_stop(items, p + 1, end);
    let section = items.subrange(p, stop);
    let n = items.len() as int;
    free_space::lemma_group_stop(items, p + 1, end);
    assert forall|j: int| 0 <= j < items.len() && (j < p || j >= stop) implies quiet(
        group,
        #[trigger] items[j],
    ) && (opens_group(items[j]) ==> items[j].key.objectid != group.start) by {
        lemma_quiet_outside(items, p, group, j);
    }
    let front = lemma_others_quiet(volume, groups, plan, g, items, 0, p, none);
    assert(none + front =~= front);
    let next = free_space::group_respaced(volume, groups, plan, section)->Ok_0;
    let back = lemma_others_quiet(volume, groups, plan, g, items, stop, n, front + next);
    assert(result == (front + next) + back);
    assert(items =~= items.take(p) + section + items.skip(stop));
    (front, back)
}

/// What is read of a group between items that say nothing of it is what is
/// read of its items.
proof fn lemma_cached_section(
    group: BlockGroup,
    sectorsize: u64,
    front: Seq<ItemModel>,
    section: Seq<ItemModel>,
    back: Seq<ItemModel>,
    items: Seq<ItemModel>,
)
    requires
        section_between(group, front, section, back, items),
    ensures
        space::cached_in(items, group, sectorsize) == space::cached_in(section, group, sectorsize),
{
    lemma_cached_before_quiet(group, sectorsize, front + section, back);
    lemma_cached_after_quiet(group, sectorsize, front, section);
}

/// The group an info item opens is the one it matches.
proof fn lemma_group_of_info(groups: Seq<BlockGroup>, g: int, items: Seq<ItemModel>, p: int)
    requires
        0 <= g < groups.len(),
        groups_sound(groups),
        infos_match(groups, items),
        sole_info(items, p, groups[g]),
        groups[g].length > 0,
    ensures
        free_space::group_starting(groups, items[p].key.objectid, 0) == Some(groups[g]),
{
    let start = groups[g].start;
    lemma_group_starting_found(groups, start, 0, g);
    lemma_group_starting(groups, start, 0);
    let found = free_space::group_starting(groups, start, 0)->Some_0;
    let h = choose|h: int| 0 <= h < groups.len() && #[trigger] groups[h] == found;
    assert(opens_group(items[p]));
    assert(found.length == items[p].key.offset);
    assert(groups[h].covers(start) && groups[g].covers(start));
}

proof fn lemma_group_starting_found(groups: Seq<BlockGroup>, start: u64, from: int, g: int)
    requires
        0 <= from <= g < groups.len(),
        groups[g].start == start,
    ensures
        free_space::group_starting(groups, start, from) is Some,
    decreases g - from,
{
    if groups[from].start != start {
        lemma_group_starting_found(groups, start, from + 1, g);
    }
}

/// What the rewritten items of a group read as.
proof fn lemma_rewritten_reads(
    volume: VolumeModel,
    groups: Seq<BlockGroup>,
    plan: Seq<Rewrite>,
    g: int,
    free: Seq<FreeExtent>,
    info: ItemModel,
    sectorsize: u64,
    address: u64,
)
    requires
        0 <= g < groups.len(),
        blocks_whole(groups, transaction::olds(plan), volume.sb.nodesize as u64),
        space::group_free(volume, groups[g]) == Ok::<Seq<FreeExtent>, ErrorView>(free),
        opens_group(info),
        address < u64::MAX,
    ensures
        runs::in_runs(
            space::cached_in(
                rewritten(groups[g], plan, volume.sb.nodesize as u64, free, info),
                groups[g],
                sectorsize,
            ),
            address,
        ) == free_then(groups[g], plan, volume.sb.nodesize as u64, free, address),
{
    let group = groups[g];
    let nodesize = volume.sb.nodesize as u64;
    let left = free_space::free_after(free, group, plan, nodesize);
    let one = seq![free_space::counted(info, left.len())];
    let items = left.map_values(|r: FreeExtent| free_space::run_item(r));
    assert forall|k: int| 0 <= k < left.len() implies (#[trigger] left[k]).start == u64::MAX
        || group.covers(left[k].start) by {
        lemma_run_inside(volume, groups, plan, g, free, k);
    }
    lemma_cached_runs(group, sectorsize, left, address);
    lemma_cached_after_quiet(group, sectorsize, one, items);
    free_space::law_free_space_follows_the_plan(free, group, plan, nodesize, address);
}

/// The items of a group the plan touches, as the plan leaves them.
pub open spec fn rewritten(
    group: BlockGroup,
    plan: Seq<Rewrite>,
    nodesize: u64,
    free: Seq<FreeExtent>,
    info: ItemModel,
) -> Seq<ItemModel> {
    let left = free_space::free_after(free, group, plan, nodesize);
    seq![free_space::counted(info, left.len())] + left.map_values(
        |r: FreeExtent| free_space::run_item(r),
    )
}

/// Whether an address of `group` is free after the plan: it was, or the plan
/// releases it, and the plan does not take it.
pub open spec fn free_then(
    group: BlockGroup,
    plan: Seq<Rewrite>,
    nodesize: u64,
    free: Seq<FreeExtent>,
    address: u64,
) -> bool {
    &&& runs::in_runs(free, address) || free_space::in_block(
        group,
        transaction::olds(plan),
        nodesize,
        address,
        0,
    )
    &&& !free_space::in_block(group, transaction::news(plan), nodesize, address, 0)
}

/// Where only quiet items and items that are no bitmaps are met, no bitmap of
/// the group is.
proof fn lemma_no_bitmap(
    group: BlockGroup,
    sectorsize: u64,
    front: Seq<ItemModel>,
    section: Seq<ItemModel>,
    back: Seq<ItemModel>,
    items: Seq<ItemModel>,
)
    requires
        section_between(group, front, section, back, items),
        forall|i: int|
            0 <= i < section.len() ==> (#[trigger] section[i]).key.key_type
                != key_type::FREE_SPACE_BITMAP,
    ensures
        !btree::stopped(items, space::passes_bitmap(group, sectorsize)),
{
    assert forall|i: int| 0 <= i < items.len() implies space::passes_bitmap(group, sectorsize)(
        #[trigger] items[i],
    ) by {
        if i < front.len() {
            assert(items[i] == front[i]);
        } else if i < front.len() + section.len() {
            assert(items[i] == section[i - front.len()]);
        } else {
            assert(items[i] == back[i - front.len() - section.len()]);
        }
    }
}

/// After a closed plan the free-space tree says of every group the plan
/// touches what the plan leaves free there: walked from where its root went
/// and read for the group, it gives exactly what was free or is released, and
/// is not taken.
pub proof fn law_a_group_reads_what_the_plan_leaves(
    volume: VolumeModel,
    dirty: Seq<u64>,
    rounds: usize,
    plan: Seq<Rewrite>,
    generation: u64,
    after: Image,
    root: u64,
    g: int,
    p: int,
)
    requires
        space_sound(volume, root, plan),
        space_moved(volume, dirty, rounds, plan, generation, after, root),
        ({
            let groups = space::groups_outcome(volume)->Ok_0;
            let items = volume.walk(root).items;
            &&& groups_sound(groups)
            &&& blocks_whole(groups, transaction::olds(plan), volume.sb.nodesize as u64)
            &&& 0 <= g < groups.len()
            &&& sole_info(items, p, groups[g])
            &&& items[p].data.len() >= space::FREE_SPACE_INFO_SIZE
            &&& touches(groups, plan, items[p])
        }),
    ensures
        ({
            let group = space::groups_outcome(volume)->Ok_0[g];
            let s = btree::walk_from(
                after,
                volume.geometry(),
                relocation::relocated(plan, root),
                None,
                0,
            );
            &&& space::group_free(volume, group) is Ok
            &&& space::cache_says(s, group, volume.sb.sectorsize as u64) is Ok
            &&& forall|a: u64|
                a < u64::MAX ==> #[trigger] runs::in_runs(
                    space::cache_says(s, group, volume.sb.sectorsize as u64)->Ok_0,
                    a,
                ) == free_then(
                    group,
                    plan,
                    volume.sb.nodesize as u64,
                    space::group_free(volume, group)->Ok_0,
                    a,
                )
        }),
{
    let sectorsize = volume.sb.sectorsize as u64;
    let nodesize = volume.sb.nodesize as u64;
    let groups = space::groups_outcome(volume)->Ok_0;
    let group = groups[g];
    let items = volume.walk(root).items;
    let s = btree::walk_from(
        after,
        volume.geometry(),
        relocation::relocated(plan, root),
        None,
        0,
    );
    law_the_free_space_tree_follows_the_plan(
        volume,
        dirty,
        rounds,
        plan,
        generation,
        after,
        root,
    );
    let (front, back) = lemma_section(volume, groups, plan, g, items, p, s.items);
    let stop = free_space::group_stop(items, p + 1, group_end(items[p]));
    let section = items.subrange(p, stop);
    assert(section[0] == items[p]);
    lemma_group_of_info(groups, g, items, p);
    let next = free_space::group_respaced(volume, groups, plan, section)->Ok_0;
    assert(space::group_free(volume, group) is Ok && next == rewritten(
        group,
        plan,
        nodesize,
        space::group_free(volume, group)->Ok_0,
        items[p],
    )) by {
        reveal(free_space::group_respaced);
    }
    let free = space::group_free(volume, group)->Ok_0;
    let left = free_space::free_after(free, group, plan, nodesize);
    assert forall|i: int| 0 <= i < next.len() implies (#[trigger] next[i]).key.key_type
        != key_type::FREE_SPACE_BITMAP by {
        if i > 0 {
            assert(next[i] == free_space::run_item(left[i - 1]));
        }
    }
    lemma_no_bitmap(group, sectorsize, front, next, back, s.items);
    assert(s.items[front.len() as int] == free_space::counted(items[p], left.len()));
    assert(space::is_info(s.items[front.len() as int], group));
    lemma_cached_section(group, sectorsize, front, next, back, s.items);
    let list = space::cached_in(s.items, group, sectorsize);
    assert forall|a: u64| a < u64::MAX implies #[trigger] runs::in_runs(
        space::cache_says(s, group, sectorsize)->Ok_0,
        a,
    ) == free_then(group, plan, nodesize, free, a) by {
        runs::law_merging_keeps_coverage(runs::in_order(list), a);
        runs::lemma_in_order_keeps(list, a);
        lemma_rewritten_reads(volume, groups, plan, g, free, items[p], sectorsize, a);
    }
}

/// After a closed plan the free-space tree says of a group the plan does not
/// touch what it said before.
pub proof fn law_an_untouched_group_reads_as_before(
    volume: VolumeModel,
    dirty: Seq<u64>,
    rounds: usize,
    plan: Seq<Rewrite>,
    generation: u64,
    after: Image,
    root: u64,
    g: int,
    p: int,
)
    requires
        space_sound(volume, root, plan),
        space_moved(volume, dirty, rounds, plan, generation, after, root),
        ({
            let groups = space::groups_outcome(volume)->Ok_0;
            let items = volume.walk(root).items;
            &&& groups_sound(groups)
            &&& blocks_whole(groups, transaction::olds(plan), volume.sb.nodesize as u64)
            &&& 0 <= g < groups.len()
            &&& groups[g].length > 0
            &&& sole_info(items, p, groups[g])
            &&& !touches(groups, plan, items[p])
        }),
    ensures
        ({
            let group = space::groups_outcome(volume)->Ok_0[g];
            let s = btree::walk_from(
                after,
                volume.geometry(),
                relocation::relocated(plan, root),
                None,
                0,
            );
            space::cached_in(s.items, group, volume.sb.sectorsize as u64) == space::cached_in(
                volume.walk(root).items,
                group,
                volume.sb.sectorsize as u64,
            )
        }),
{
    let sectorsize = volume.sb.sectorsize as u64;
    let groups = space::groups_outcome(volume)->Ok_0;
    let group = groups[g];
    let items = volume.walk(root).items;
    let s = btree::walk_from(
        after,
        volume.geometry(),
        relocation::relocated(plan, root),
        None,
        0,
    );
    law_the_free_space_tree_follows_the_plan(
        volume,
        dirty,
        rounds,
        plan,
        generation,
        after,
        root,
    );
    let (front, back) = lemma_section(volume, groups, plan, g, items, p, s.items);
    let stop = free_space::group_stop(items, p + 1, group_end(items[p]));
    let section = items.subrange(p, stop);
    assert(section[0] == items[p]);
    lemma_section_kept(volume, groups, plan, section);
    lemma_cached_section(group, sectorsize, front, section, back, s.items);
    lemma_cached_section(group, sectorsize, items.take(p), section, items.skip(stop), items);
}

} // verus!
