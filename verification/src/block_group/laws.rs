//! What holds of allocation as a whole.

use vstd::prelude::*;

use crate::block_group::runs;
use crate::block_group::space;
use crate::block_group::{BlockGroup, FreeExtent};
use crate::btree::ItemModel;
use crate::chunk::{block_group as flags, objectid};
use crate::error::ErrorView;
use crate::volume::VolumeModel;

verus! {

pub(crate) proof fn lemma_group_at(groups: Seq<BlockGroup>, address: u64, from: int)
    requires
        0 <= from,
    ensures
        space::group_at(groups, address, from) matches Some(i) ==> from <= i < groups.len()
            && groups[i].covers(address),
    decreases groups.len() - from,
{
    if from < groups.len() && !groups[from].covers(address) {
        lemma_group_at(groups, address, from + 1);
    }
}

proof fn lemma_taken_start(
    items: Seq<ItemModel>,
    groups: Seq<BlockGroup>,
    which: int,
    nodesize: u32,
)
    requires
        0 <= which < groups.len(),
    ensures
        forall|i: int|
            0 <= i < space::taken_in(items, groups, which, nodesize).len() ==> groups[which].covers(
                (#[trigger] space::taken_in(items, groups, which, nodesize)[i]).start,
            ),
    decreases items.len(),
{
    if items.len() > 0 {
        let front = items.drop_last();
        lemma_taken_start(front, groups, which, nodesize);
        let before = space::taken_in(front, groups, which, nodesize);
        let all = space::taken_in(items, groups, which, nodesize);
        if let Some(run) = space::taken_by(items.last(), nodesize) {
            lemma_group_at(groups, run.start, 0);
        }
        assert forall|i: int| 0 <= i < all.len() implies groups[which].covers(
            (#[trigger] all[i]).start,
        ) by {
            if i < before.len() {
                assert(all[i] == before[i]);
            }
        }
    }
}

pub(crate) proof fn lemma_sorted_member(list: Seq<FreeExtent>, i: int)
    requires
        0 <= i < runs::by_start(list).len(),
    ensures
        list.contains(runs::by_start(list)[i]),
{
    broadcast use vstd::seq_lib::group_to_multiset_ensures;

    runs::law_sorting_orders_runs(list);
    let run = runs::by_start(list)[i];
    assert(runs::by_start(list).contains(run));
    assert(runs::by_start(list).to_multiset().count(run) > 0);
    assert(list.to_multiset().count(run) > 0);
}

/// What is free in a group of a volume is exactly what no extent item of that
/// group says is taken.
pub proof fn law_group_space_is_divided(
    items: Seq<ItemModel>,
    groups: Seq<BlockGroup>,
    which: int,
    nodesize: u32,
)
    requires
        0 <= which < groups.len(),
    ensures
        space::free_in(items, groups, which, nodesize) matches Ok(free) ==> {
            let group = groups[which];
            let taken = runs::by_start(space::taken_in(items, groups, which, nodesize));
            &&& runs::apart(free)
            &&& forall|i: int|
                0 <= i < free.len() ==> group.start <= (#[trigger] free[i]).start && free[i].start
                    + free[i].len <= runs::reach(group.start, group.length)
            &&& forall|a: u64|
                group.start <= a < runs::reach(group.start, group.length) ==> (runs::in_runs(
                    free,
                    a,
                ) != #[trigger] runs::in_runs(taken, a))
        },
{
    let group = groups[which];
    let list = space::taken_in(items, groups, which, nodesize);
    let taken = runs::by_start(list);
    runs::law_sorting_orders_runs(list);
    lemma_taken_start(items, groups, which, nodesize);
    assert forall|i: int| 0 <= i < taken.len() implies group.start <= (#[trigger] taken[i]).start
        <= runs::reach(group.start, group.length) by {
        lemma_sorted_member(list, i);
        let k = choose|k: int| 0 <= k < list.len() && list[k] == taken[i];
        assert(group.covers(list[k].start));
    }
    runs::law_free_is_what_is_not_taken(group, taken);
}

proof fn lemma_first_place(list: Seq<FreeExtent>, nodesize: u64, k: int)
    requires
        0 <= k,
    ensures
        space::first_place(list, nodesize, k) matches Some(at) ==> exists|i: int|
            0 <= i < list.len() && runs::place_of(#[trigger] list[i], nodesize) == Some(at),
    decreases list.len() - k,
{
    if k < list.len() {
        if runs::place_of(list[k], nodesize) is None {
            lemma_first_place(list, nodesize, k + 1);
        }
    }
}

pub(crate) proof fn lemma_flattened_member(lists: Seq<Seq<FreeExtent>>, i: int) -> (which: (int, int))
    requires
        0 <= i < space::flattened(lists).len(),
    ensures
        0 <= which.0 < lists.len(),
        0 <= which.1 < lists[which.0].len(),
        lists[which.0][which.1] == space::flattened(lists)[i],
    decreases lists.len(),
{
    let before = space::flattened(lists.drop_last());
    if i < before.len() {
        lemma_flattened_member(lists.drop_last(), i)
    } else {
        (lists.len() - 1, i - before.len())
    }
}

pub(crate) proof fn lemma_all_free(
    items: Seq<ItemModel>,
    groups: Seq<BlockGroup>,
    nodesize: u32,
    from: int,
    before: Seq<Seq<FreeExtent>>,
)
    requires
        0 <= from <= groups.len(),
        before.len() == from,
        forall|g: int|
            0 <= g < from ==> space::free_in(items, groups, g, nodesize) == Ok::<
                Seq<FreeExtent>,
                ErrorView,
            >(#[trigger] before[g]),
    ensures
        space::all_free(items, groups, nodesize, from, before) matches Ok(lists) ==> lists.len()
            == groups.len() && forall|g: int|
            0 <= g < groups.len() ==> space::free_in(items, groups, g, nodesize) == Ok::<
                Seq<FreeExtent>,
                ErrorView,
            >(#[trigger] lists[g]),
    decreases groups.len() - from,
{
    if from < groups.len() {
        if let Ok(free) = space::free_in(items, groups, from, nodesize) {
            lemma_all_free(items, groups, nodesize, from + 1, before.push(free));
        }
    }
}

proof fn lemma_metadata_groups(groups: Seq<BlockGroup>)
    ensures
        forall|i: int|
            0 <= i < space::metadata_groups(groups).len() ==> (#[trigger] space::metadata_groups(
                groups,
            )[i]).flags & flags::METADATA != 0,
    decreases groups.len(),
{
    if groups.len() > 0 {
        let before = space::metadata_groups(groups.drop_last());
        let all = space::metadata_groups(groups);
        lemma_metadata_groups(groups.drop_last());
        assert forall|i: int| 0 <= i < all.len() implies (#[trigger] all[i]).flags & flags::METADATA
            != 0 by {
            if i < before.len() {
                assert(all[i] == before[i]);
            }
        }
    }
}

/// Whether a block of `nodesize` bytes at `at` lies on a boundary, whole
/// inside `group`, and on nothing `taken`.
pub open spec fn lies_free(at: u64, nodesize: u64, group: BlockGroup, taken: Seq<FreeExtent>) -> bool {
    &&& at % nodesize == 0
    &&& group.start <= at
    &&& at + nodesize <= runs::reach(group.start, group.length)
    &&& forall|a: u64| at <= a < at + nodesize ==> !(#[trigger] runs::in_runs(taken, a))
}

/// What lies on a boundary in one of the free runs of the metadata groups lies
/// on free space.
pub(crate) proof fn lemma_space_in_run(volume: VolumeModel, i: int, at: u64)
    requires
        volume.sb.nodesize > 0,
        at % (volume.sb.nodesize as u64) == 0,
        volume.tree_items(objectid::EXTENT_TREE) is Ok,
        ({
            let items = volume.tree_items(objectid::EXTENT_TREE)->Ok_0;
            let groups = space::metadata_groups(space::groups_in(items));
            space::free_outcome(volume, groups) matches Ok(lists) && {
                let flat = space::flattened(lists);
                &&& 0 <= i < flat.len()
                &&& flat[i].start <= at
                &&& at + volume.sb.nodesize <= runs::reach(flat[i].start, flat[i].len)
            }
        }),
    ensures
        ({
            let items = volume.tree_items(objectid::EXTENT_TREE)->Ok_0;
            let groups = space::metadata_groups(space::groups_in(items));
            exists|g: int|
                0 <= g < groups.len() && (#[trigger] groups[g]).flags & flags::METADATA != 0
                    && lies_free(
                    at,
                    volume.sb.nodesize as u64,
                    groups[g],
                    runs::by_start(space::taken_in(items, groups, g, volume.sb.nodesize)),
                )
        }),
{
    let nodesize = volume.sb.nodesize as u64;
    let items = volume.tree_items(objectid::EXTENT_TREE)->Ok_0;
    let groups = space::metadata_groups(space::groups_in(items));
    let lists = space::free_outcome(volume, groups)->Ok_0;
    lemma_metadata_groups(space::groups_in(items));
    lemma_all_free(items, groups, volume.sb.nodesize, 0, Seq::empty());
    let (g, k) = lemma_flattened_member(lists, i);
    let free = lists[g];
    let taken = runs::by_start(space::taken_in(items, groups, g, volume.sb.nodesize));
    law_group_space_is_divided(items, groups, g, volume.sb.nodesize);
    assert(groups[g].start <= free[k].start && free[k].start + free[k].len <= runs::reach(
        groups[g].start,
        groups[g].length,
    ));
    assert forall|a: u64| at <= a < at + nodesize implies !(#[trigger] runs::in_runs(taken, a)) by {
        assert(runs::in_run(free[k], a));
        assert(runs::in_runs(free, a));
    }
    assert(lies_free(at, nodesize, groups[g], taken));
}

/// Where a new tree block is placed nothing is allocated: it lies on a
/// boundary, whole inside a group that may hold tree blocks, and on no run
/// the extent tree says is taken there.
pub proof fn law_a_new_block_lies_on_free_space(volume: VolumeModel)
    requires
        volume.sb.nodesize > 0,
        space::block_place(volume) is Ok,
    ensures
        ({
            let at = space::block_place(volume)->Ok_0;
            let items = volume.tree_items(objectid::EXTENT_TREE)->Ok_0;
            let groups = space::metadata_groups(space::groups_in(items));
            exists|g: int|
                0 <= g < groups.len() && (#[trigger] groups[g]).flags & flags::METADATA != 0
                    && lies_free(
                    at,
                    volume.sb.nodesize as u64,
                    groups[g],
                    runs::by_start(space::taken_in(items, groups, g, volume.sb.nodesize)),
                )
        }),
{
    let nodesize = volume.sb.nodesize as u64;
    let at = space::block_place(volume)->Ok_0;
    let items = volume.tree_items(objectid::EXTENT_TREE)->Ok_0;
    let groups = space::metadata_groups(space::groups_in(items));
    let lists = space::free_outcome(volume, groups)->Ok_0;
    let flat = space::flattened(lists);
    lemma_first_place(flat, nodesize, 0);
    let i = choose|i: int|
        0 <= i < flat.len() && runs::place_of(#[trigger] flat[i], nodesize) == Some(at);
    runs::law_a_block_is_placed_where_it_fits(flat[i], nodesize);
    lemma_space_in_run(volume, i, at);
}

} // verus!
