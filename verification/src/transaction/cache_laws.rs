//! What is recorded of the space a plan leaves free.

use vstd::prelude::*;

use crate::block_group::runs;
use crate::block_group::space;
use crate::block_group::{BlockGroup, FreeExtent};
use crate::btree::ItemModel;
use crate::bytes;
use crate::transaction;
use crate::transaction::free_space;
use crate::transaction::Rewrite;
use crate::volume::VolumeModel;

verus! {

/// Whether an item records a free run that holds `a`.
pub open spec fn records_free(item: ItemModel, a: u64) -> bool {
    item.key.key_type == 199 && item.key.objectid <= a < item.key.objectid + item.key.offset
}

/// Whether the block of `nodesize` bytes at one of the old addresses of a plan
/// that lie in `group` holds `a`.
pub open spec fn released(group: BlockGroup, plan: Seq<Rewrite>, nodesize: u32, a: u64) -> bool {
    exists|i: int|
        0 <= i < plan.len() && group.start <= (#[trigger] plan[i]).old < group.start + group.length
            && plan[i].old <= a < plan[i].old + nodesize
}

/// Whether the block of `nodesize` bytes at one of the new addresses of a plan
/// that lie in `group` holds `a`.
pub open spec fn taken(group: BlockGroup, plan: Seq<Rewrite>, nodesize: u32, a: u64) -> bool {
    exists|i: int|
        0 <= i < plan.len() && group.start <= (#[trigger] plan[i]).new < group.start + group.length
            && plan[i].new <= a < plan[i].new + nodesize
}

/// The items of a group that a plan touches are rewritten: its info counts the
/// runs behind it and is otherwise what it was, and the runs hold an address
/// exactly where it was free or is released, and is not taken.
pub proof fn law_a_touched_group_is_recorded_anew(
    volume: VolumeModel,
    groups: Seq<BlockGroup>,
    plan: Seq<Rewrite>,
    items: Seq<ItemModel>,
    group: BlockGroup,
    a: u64,
)
    requires
        items.len() > 0,
        items[0].data.len() >= 8,
        free_space::group_starting(groups, items[0].key.objectid, 0) == Some(group),
        free_space::any_within(
            transaction::olds(plan) + transaction::news(plan),
            items[0].key.objectid as int,
            items[0].key.objectid + items[0].key.offset,
        ),
        space::group_free(volume, group) is Ok,
        free_space::group_respaced(volume, groups, plan, items) is Ok,
        a < u64::MAX,
    ensures
        ({
            let next = free_space::group_respaced(volume, groups, plan, items)->Ok_0;
            let free = space::group_free(volume, group)->Ok_0;
            let nodesize = volume.sb.nodesize;
            &&& next.len() > 0
            &&& next[0].key == items[0].key
            &&& next[0].data.len() == items[0].data.len()
            &&& next.len() - 1 <= u32::MAX ==> bytes::u32_at(next[0].data, 0) == next.len() - 1
            &&& forall|j: int|
                4 <= j < items[0].data.len() ==> #[trigger] next[0].data[j] == items[0].data[j]
            &&& forall|i: int|
                0 < i < next.len() ==> (#[trigger] next[i]).key.key_type == 199
                    && next[i].data.len() == 0 && next[i].key.offset > 0
            &&& (exists|i: int| 0 < i < next.len() && records_free(#[trigger] next[i], a)) <==> (
            runs::in_runs(free, a) || released(group, plan, nodesize, a)) && !taken(
                group,
                plan,
                nodesize,
                a,
            )
        }),
{
    reveal(free_space::group_respaced);
    let next = free_space::group_respaced(volume, groups, plan, items)->Ok_0;
    let free = space::group_free(volume, group)->Ok_0;
    let nodesize = volume.sb.nodesize;
    let left = free_space::free_after(free, group, plan, nodesize as u64);
    let f = |r: FreeExtent| free_space::run_item(r);
    assert(next == seq![free_space::counted(items[0], left.len())] + left.map_values(f));
    bytes::lemma_u32_round_trip(items[0].data, 0, left.len() as u32);
    free_space::law_free_space_follows_the_plan(free, group, plan, nodesize as u64, a);
    assert forall|i: int| 0 < i < next.len() implies (#[trigger] next[i]).key.key_type == 199
        && next[i].data.len() == 0 && next[i].key.offset > 0 by {
        assert(next[i] == free_space::run_item(left[i - 1]));
    }
    let olds = transaction::olds(plan);
    let news = transaction::news(plan);
    assert(free_space::in_block(group, olds, nodesize as u64, a, 0) == released(
        group,
        plan,
        nodesize,
        a,
    )) by {
        if free_space::in_block(group, olds, nodesize as u64, a, 0) {
            let i = choose|i: int|
                0 <= i < olds.len() && group.covers(#[trigger] olds[i]) && olds[i] <= a < olds[i]
                    + nodesize as u64;
            assert(plan[i].old == olds[i]);
        }
        if released(group, plan, nodesize, a) {
            let i = choose|i: int|
                0 <= i < plan.len() && group.start <= (#[trigger] plan[i]).old < group.start
                    + group.length && plan[i].old <= a < plan[i].old + nodesize;
            assert(group.covers(olds[i]));
        }
    }
    assert(free_space::in_block(group, news, nodesize as u64, a, 0) == taken(
        group,
        plan,
        nodesize,
        a,
    )) by {
        if free_space::in_block(group, news, nodesize as u64, a, 0) {
            let i = choose|i: int|
                0 <= i < news.len() && group.covers(#[trigger] news[i]) && news[i] <= a < news[i]
                    + nodesize as u64;
            assert(plan[i].new == news[i]);
        }
        if taken(group, plan, nodesize, a) {
            let i = choose|i: int|
                0 <= i < plan.len() && group.start <= (#[trigger] plan[i]).new < group.start
                    + group.length && plan[i].new <= a < plan[i].new + nodesize;
            assert(group.covers(news[i]));
        }
    }
    if runs::in_runs(left, a) {
        let k = choose|k: int| 0 <= k < left.len() && runs::in_run(#[trigger] left[k], a);
        assert(next[k + 1] == free_space::run_item(left[k]));
        assert(records_free(next[k + 1], a));
    }
    if exists|i: int| 0 < i < next.len() && records_free(#[trigger] next[i], a) {
        let i = choose|i: int| 0 < i < next.len() && records_free(#[trigger] next[i], a);
        assert(next[i] == free_space::run_item(left[i - 1]));
        assert(runs::in_run(left[i - 1], a));
    }
}

} // verus!
