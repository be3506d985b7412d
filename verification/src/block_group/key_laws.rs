//! What the keys of the extent tree say of the space in a volume.

use vstd::prelude::*;

use crate::block_group::laws;
use crate::block_group::runs;
use crate::block_group::space;
use crate::block_group::{BlockGroup, FreeExtent};
use crate::btree::ItemModel;
use crate::bytes;
use crate::error::ErrorView;
use crate::volume::VolumeModel;

verus! {

/// Whether an item of the extent tree records `a` as allocated: a data extent
/// is as long as its key's offset, a tree block is as long as a node.
pub open spec fn records(item: ItemModel, nodesize: u32, a: u64) -> bool {
    ||| item.key.key_type == 168 && item.key.objectid <= a < item.key.objectid + item.key.offset
    ||| item.key.key_type == 169 && item.key.objectid <= a < item.key.objectid + nodesize
}

/// Whether an item is filed at an address of `group`.
pub open spec fn filed_in(item: ItemModel, group: BlockGroup) -> bool {
    group.start <= item.key.objectid < group.start + group.length
}

/// Whether some item filed in `group` records `a` as allocated.
pub open spec fn allocated(items: Seq<ItemModel>, group: BlockGroup, nodesize: u32, a: u64) -> bool {
    exists|i: int|
        0 <= i < items.len() && filed_in(#[trigger] items[i], group) && records(
            items[i],
            nodesize,
            a,
        )
}

/// Whether one of the runs of `list` holds `a`.
pub open spec fn held(list: Seq<FreeExtent>, a: u64) -> bool {
    exists|k: int|
        0 <= k < list.len() && (#[trigger] list[k]).start <= a < list[k].start + list[k].len
}

/// Whether `free` is what the items leave of `group`: runs in address order
/// that share no address and stay inside the group, and that hold an address
/// of the group exactly when no item records it.
pub open spec fn left_free(
    items: Seq<ItemModel>,
    group: BlockGroup,
    nodesize: u32,
    free: Seq<FreeExtent>,
) -> bool {
    &&& forall|k: int|
        0 <= k < free.len() ==> (#[trigger] free[k]).len > 0 && group.start <= free[k].start
            && free[k].start + free[k].len <= group.start + group.length
    &&& forall|j: int, k: int|
        0 <= j < k < free.len() ==> (#[trigger] free[j]).start + free[j].len <= (
        #[trigger] free[k]).start
    &&& forall|a: u64|
        group.start <= a < group.start + group.length && a < u64::MAX ==> #[trigger] held(free, a)
            == !allocated(items, group, nodesize, a)
}

/// Whether no two of `groups` share an address.
pub open spec fn groups_apart(groups: Seq<BlockGroup>) -> bool {
    forall|i: int, j: int|
        0 <= i < j < groups.len() ==> (#[trigger] groups[i]).start + groups[i].length
            <= (#[trigger] groups[j]).start || groups[j].start + groups[j].length
            <= groups[i].start
}

proof fn lemma_which(groups: Seq<BlockGroup>, which: int, address: u64, from: int)
    requires
        groups_apart(groups),
        0 <= from <= which < groups.len(),
        groups[which].covers(address),
    ensures
        space::group_at(groups, address, from) == Some(which),
    decreases which - from,
{
    if from < which {
        lemma_which(groups, which, address, from + 1);
    }
}

proof fn lemma_taken(items: Seq<ItemModel>, groups: Seq<BlockGroup>, which: int, nodesize: u32)
    requires
        groups_apart(groups),
        0 <= which < groups.len(),
    ensures
        forall|a: u64|
            a < u64::MAX ==> (#[trigger] runs::in_runs(
                space::taken_in(items, groups, which, nodesize),
                a,
            ) == allocated(items, groups[which], nodesize, a)),
    decreases items.len(),
{
    let all = space::taken_in(items, groups, which, nodesize);
    if items.len() > 0 {
        let front = items.drop_last();
        let last = items.last();
        let before = space::taken_in(front, groups, which, nodesize);
        lemma_taken(front, groups, which, nodesize);
        let mine = space::taken_by(last, nodesize) is Some && space::group_at(
            groups,
            last.key.objectid,
            0,
        ) == Some(which);
        laws::lemma_group_at(groups, last.key.objectid, 0);
        if groups[which].covers(last.key.objectid) {
            lemma_which(groups, which, last.key.objectid, 0);
        }
        assert forall|a: u64| a < u64::MAX implies (#[trigger] runs::in_runs(all, a)) == allocated(
            items,
            groups[which],
            nodesize,
            a,
        ) by {
            assert(runs::in_runs(before, a) == allocated(front, groups[which], nodesize, a));
            if mine {
                runs::lemma_in_pushed(before, space::taken_by(last, nodesize)->Some_0, a);
            }
            if allocated(front, groups[which], nodesize, a) {
                let i = choose|i: int|
                    0 <= i < front.len() && filed_in(#[trigger] front[i], groups[which]) && records(
                        front[i],
                        nodesize,
                        a,
                    );
                assert(items[i] == front[i]);
            }
            if allocated(items, groups[which], nodesize, a) {
                let i = choose|i: int|
                    0 <= i < items.len() && filed_in(#[trigger] items[i], groups[which]) && records(
                        items[i],
                        nodesize,
                        a,
                    );
                if i < front.len() {
                    assert(front[i] == items[i]);
                }
            }
            if filed_in(last, groups[which]) && records(last, nodesize, a) {
                assert(items[items.len() - 1] == last);
                assert(allocated(items, groups[which], nodesize, a));
            }
        }
    }
}

proof fn lemma_sorted(list: Seq<FreeExtent>, a: u64)
    ensures
        runs::in_runs(runs::by_start(list), a) == runs::in_runs(list, a),
{
    broadcast use vstd::seq_lib::group_to_multiset_ensures;

    let sorted = runs::by_start(list);
    runs::law_sorting_orders_runs(list);
    if runs::in_runs(sorted, a) {
        let i = choose|i: int| 0 <= i < sorted.len() && runs::in_run(#[trigger] sorted[i], a);
        laws::lemma_sorted_member(list, i);
        let k = choose|k: int| 0 <= k < list.len() && list[k] == sorted[i];
        assert(runs::in_run(list[k], a));
    }
    if runs::in_runs(list, a) {
        let i = choose|i: int| 0 <= i < list.len() && runs::in_run(#[trigger] list[i], a);
        assert(list.contains(list[i]));
        assert(list.to_multiset().count(list[i]) > 0);
        assert(sorted.to_multiset().count(list[i]) > 0);
        let k = choose|k: int| 0 <= k < sorted.len() && sorted[k] == list[i];
        assert(runs::in_run(sorted[k], a));
    }
}

proof fn lemma_left_free(items: Seq<ItemModel>, groups: Seq<BlockGroup>, which: int, nodesize: u32)
    requires
        groups_apart(groups),
        0 <= which < groups.len(),
        space::free_in(items, groups, which, nodesize) is Ok,
    ensures
        left_free(
            items,
            groups[which],
            nodesize,
            space::free_in(items, groups, which, nodesize)->Ok_0,
        ),
{
    let group = groups[which];
    let free = space::free_in(items, groups, which, nodesize)->Ok_0;
    let list = space::taken_in(items, groups, which, nodesize);
    laws::law_group_space_is_divided(items, groups, which, nodesize);
    lemma_taken(items, groups, which, nodesize);
    assert forall|a: u64|
        group.start <= a < group.start + group.length && a < u64::MAX implies #[trigger] held(
        free,
        a,
    ) == !allocated(items, group, nodesize, a) by {
        lemma_sorted(list, a);
        assert(runs::in_runs(free, a) != runs::in_runs(runs::by_start(list), a));
        if held(free, a) {
            let k = choose|k: int|
                0 <= k < free.len() && (#[trigger] free[k]).start <= a < free[k].start
                    + free[k].len;
            assert(runs::in_run(free[k], a));
        }
        if runs::in_runs(free, a) {
            let k = choose|k: int| 0 <= k < free.len() && runs::in_run(#[trigger] free[k], a);
            assert(free[k].start <= a < free[k].start + free[k].len);
        }
    }
}

/// The space a volume says is free in a group is the group without what the
/// keys of the extent tree record there: from `s` on, `l` bytes for a key
/// `(s, 168, l)` and a node for a key `(s, 169, _)`.
pub proof fn law_free_space_is_what_no_key_records(volume: VolumeModel, group: BlockGroup)
    requires
        space::group_free(volume, group) is Ok,
    ensures
        volume.tree_items(2) is Ok,
        left_free(
            volume.tree_items(2)->Ok_0,
            group,
            volume.sb.nodesize,
            space::group_free(volume, group)->Ok_0,
        ),
{
    lemma_left_free(volume.tree_items(2)->Ok_0, seq![group], 0, volume.sb.nodesize);
}

/// An address of a data extent is never reported free.
pub proof fn law_a_data_extent_is_not_free(
    volume: VolumeModel,
    group: BlockGroup,
    item: ItemModel,
    a: u64,
)
    requires
        space::group_free(volume, group) is Ok,
        volume.tree_items(2)->Ok_0.contains(item),
        item.key.key_type == 168,
        group.start <= item.key.objectid < group.start + group.length,
        item.key.objectid <= a < item.key.objectid + item.key.offset,
        a < u64::MAX,
    ensures
        !held(space::group_free(volume, group)->Ok_0, a),
{
    let items = volume.tree_items(2)->Ok_0;
    let free = space::group_free(volume, group)->Ok_0;
    law_free_space_is_what_no_key_records(volume, group);
    let i = choose|i: int| 0 <= i < items.len() && items[i] == item;
    assert(filed_in(items[i], group) && records(items[i], volume.sb.nodesize, a));
    assert(allocated(items, group, volume.sb.nodesize, a));
    if held(free, a) {
        let k = choose|k: int|
            0 <= k < free.len() && (#[trigger] free[k]).start <= a < free[k].start + free[k].len;
        assert(free[k].start + free[k].len <= group.start + group.length);
    }
}

/// An address of a tree block is never reported free.
pub proof fn law_a_tree_block_is_not_free(
    volume: VolumeModel,
    group: BlockGroup,
    item: ItemModel,
    a: u64,
)
    requires
        space::group_free(volume, group) is Ok,
        volume.tree_items(2)->Ok_0.contains(item),
        item.key.key_type == 169,
        group.start <= item.key.objectid < group.start + group.length,
        item.key.objectid <= a < item.key.objectid + volume.sb.nodesize,
        a < u64::MAX,
    ensures
        !held(space::group_free(volume, group)->Ok_0, a),
{
    let items = volume.tree_items(2)->Ok_0;
    let free = space::group_free(volume, group)->Ok_0;
    law_free_space_is_what_no_key_records(volume, group);
    let i = choose|i: int| 0 <= i < items.len() && items[i] == item;
    assert(filed_in(items[i], group) && records(items[i], volume.sb.nodesize, a));
    assert(allocated(items, group, volume.sb.nodesize, a));
    if held(free, a) {
        let k = choose|k: int|
            0 <= k < free.len() && (#[trigger] free[k]).start <= a < free[k].start + free[k].len;
        assert(free[k].start + free[k].len <= group.start + group.length);
    }
}

/// Asked for several groups at once, a volume answers for each as it would
/// for that group alone: with what the keys of the extent tree leave of it.
pub proof fn law_free_space_of_each_group(volume: VolumeModel, groups: Seq<BlockGroup>)
    requires
        groups_apart(groups),
        space::free_outcome(volume, groups) is Ok,
    ensures
        volume.tree_items(2) is Ok,
        ({
            let lists = space::free_outcome(volume, groups)->Ok_0;
            &&& lists.len() == groups.len()
            &&& forall|g: int|
                0 <= g < groups.len() ==> left_free(
                    volume.tree_items(2)->Ok_0,
                    groups[g],
                    volume.sb.nodesize,
                    #[trigger] lists[g],
                )
        }),
{
    let items = volume.tree_items(2)->Ok_0;
    let lists = space::free_outcome(volume, groups)->Ok_0;
    laws::lemma_all_free(items, groups, volume.sb.nodesize, 0, Seq::empty());
    assert forall|g: int| 0 <= g < groups.len() implies left_free(
        items,
        groups[g],
        volume.sb.nodesize,
        #[trigger] lists[g],
    ) by {
        assert(space::free_in(items, groups, g, volume.sb.nodesize) == Ok::<
            Seq<FreeExtent>,
            ErrorView,
        >(lists[g]));
        lemma_left_free(items, groups, g, volume.sb.nodesize);
    }
}

/// Whether an item of the extent tree describes a block group.
pub open spec fn tells_of_group(item: ItemModel) -> bool {
    item.key.key_type == 192 && item.data.len() >= 24
}

/// Whether `group` is the block group an item describes: it starts at the
/// key's objectid and is as long as the key's offset; the item itself says how
/// much of it is used and what it may hold.
pub open spec fn tells(item: ItemModel, group: BlockGroup) -> bool {
    &&& tells_of_group(item)
    &&& group.start == item.key.objectid
    &&& group.length == item.key.offset
    &&& group.used == bytes::u64_at(item.data, 0)
    &&& group.flags == bytes::u64_at(item.data, 16)
}

/// Whether some item of `items` describes `group`.
pub open spec fn told_by(items: Seq<ItemModel>, group: BlockGroup) -> bool {
    exists|i: int| 0 <= i < items.len() && tells(#[trigger] items[i], group)
}

/// Whether `item` is described by one of `groups`.
pub open spec fn listed(groups: Seq<BlockGroup>, item: ItemModel) -> bool {
    exists|k: int| 0 <= k < groups.len() && tells(item, #[trigger] groups[k])
}

proof fn lemma_group_place(groups: Seq<BlockGroup>, start: u64)
    requires
        forall|i: int, j: int|
            0 <= i < j < groups.len() ==> (#[trigger] groups[i]).start <= (
            #[trigger] groups[j]).start,
    ensures
        0 <= space::group_place(groups, start) <= groups.len(),
        forall|i: int|
            0 <= i < space::group_place(groups, start) ==> (#[trigger] groups[i]).start <= start,
        forall|i: int|
            space::group_place(groups, start) <= i < groups.len() ==> start <= (
            #[trigger] groups[i]).start,
    decreases groups.len(),
{
    if groups.len() > 0 && groups.last().start > start {
        let front = groups.drop_last();
        lemma_group_place(front, start);
        assert forall|i: int| 0 <= i < space::group_place(groups, start) implies (
        #[trigger] groups[i]).start <= start by {
            assert(groups[i] == front[i]);
        }
        assert forall|i: int| space::group_place(groups, start) <= i < groups.len() implies start
            <= (#[trigger] groups[i]).start by {
            if i < front.len() {
                assert(groups[i] == front[i]);
            }
        }
    }
}

/// How many of `items` describe a block group.
pub open spec fn group_count(items: Seq<ItemModel>) -> nat
    decreases items.len(),
{
    if items.len() == 0 {
        0
    } else {
        group_count(items.drop_last()) + if tells_of_group(items.last()) {
            1nat
        } else {
            0nat
        }
    }
}

proof fn lemma_groups(items: Seq<ItemModel>)
    ensures
        ({
            let groups = space::groups_in(items);
            &&& forall|i: int, j: int|
                0 <= i < j < groups.len() ==> (#[trigger] groups[i]).start <= (
                #[trigger] groups[j]).start
            &&& forall|k: int| 0 <= k < groups.len() ==> told_by(items, #[trigger] groups[k])
            &&& forall|i: int|
                0 <= i < items.len() && tells_of_group(#[trigger] items[i]) ==> listed(
                    groups,
                    items[i],
                )
            &&& groups.len() == group_count(items)
        }),
    decreases items.len(),
{
    if items.len() > 0 {
        let front = items.drop_last();
        let last = items.last();
        let before = space::groups_in(front);
        let groups = space::groups_in(items);
        lemma_groups(front);
        assert forall|g: BlockGroup| #[trigger] told_by(front, g) implies told_by(items, g) by {
            let i = choose|i: int| 0 <= i < front.len() && tells(#[trigger] front[i], g);
            assert(items[i] == front[i]);
        }
        let at = space::group_place(before, last.key.objectid);
        lemma_group_place(before, last.key.objectid);
        if let Some(g) = space::group_of(last) {
            assert(groups == before.insert(at, g));
            assert(tells(items[items.len() - 1], g));
            assert(told_by(items, g));
            assert forall|k: int| 0 <= k < groups.len() implies told_by(
                items,
                #[trigger] groups[k],
            ) by {
                if k < at {
                    assert(groups[k] == before[k]);
                } else if k > at {
                    assert(groups[k] == before[k - 1]);
                }
            }
            assert forall|i: int, j: int| 0 <= i < j < groups.len() implies (
            #[trigger] groups[i]).start <= (#[trigger] groups[j]).start by {
                let gi = if i < at {
                    before[i]
                } else if i == at {
                    g
                } else {
                    before[i - 1]
                };
                let gj = if j < at {
                    before[j]
                } else if j == at {
                    g
                } else {
                    before[j - 1]
                };
                assert(groups[i] == gi && groups[j] == gj);
            }
        }
        assert forall|i: int|
            0 <= i < items.len() && tells_of_group(#[trigger] items[i]) implies listed(
            groups,
            items[i],
        ) by {
            if i < front.len() {
                assert(items[i] == front[i]);
                let k = choose|k: int| 0 <= k < before.len() && tells(items[i], #[trigger] before[k]);
                if let Some(g) = space::group_of(last) {
                    if k < at {
                        assert(groups[k] == before[k]);
                    } else {
                        assert(groups[k + 1] == before[k]);
                    }
                } else {
                    assert(groups[k] == before[k]);
                }
            } else {
                assert(groups[at] == space::group_of(last)->Some_0);
            }
        }
    }
}

/// The block groups of a volume are those its extent tree describes, one for
/// each such item, in the order of their addresses.
pub proof fn law_block_groups_are_those_recorded(volume: VolumeModel)
    requires
        space::groups_outcome(volume) is Ok,
    ensures
        volume.tree_items(2) is Ok,
        ({
            let items = volume.tree_items(2)->Ok_0;
            let groups = space::groups_outcome(volume)->Ok_0;
            &&& groups.len() == group_count(items)
            &&& forall|i: int, j: int|
                0 <= i < j < groups.len() ==> (#[trigger] groups[i]).start <= (
                #[trigger] groups[j]).start
            &&& forall|k: int| 0 <= k < groups.len() ==> told_by(items, #[trigger] groups[k])
            &&& forall|i: int|
                0 <= i < items.len() && tells_of_group(#[trigger] items[i]) ==> listed(
                    groups,
                    items[i],
                )
        }),
{
    lemma_groups(volume.tree_items(2)->Ok_0);
}

proof fn lemma_metadata(groups: Seq<BlockGroup>)
    ensures
        forall|g: BlockGroup|
            #![trigger space::metadata_groups(groups).contains(g)]
            space::metadata_groups(groups).contains(g) <==> groups.contains(g) && g.flags & 4 != 0,
    decreases groups.len(),
{
    if groups.len() > 0 {
        let front = groups.drop_last();
        let last = groups.last();
        let before = space::metadata_groups(front);
        let all = space::metadata_groups(groups);
        lemma_metadata(front);
        assert forall|g: BlockGroup|
            #![trigger all.contains(g)]
            all.contains(g) <==> groups.contains(g) && g.flags & 4 != 0 by {
            if all.contains(g) {
                let k = choose|k: int| 0 <= k < all.len() && all[k] == g;
                if k < before.len() {
                    assert(before[k] == g);
                    assert(before.contains(g));
                    let i = choose|i: int| 0 <= i < front.len() && front[i] == g;
                    assert(groups[i] == g);
                } else {
                    assert(groups[groups.len() - 1] == g);
                }
            }
            if groups.contains(g) && g.flags & 4 != 0 {
                let i = choose|i: int| 0 <= i < groups.len() && groups[i] == g;
                if i < front.len() {
                    assert(front[i] == g);
                    assert(before.contains(g));
                    let k = choose|k: int| 0 <= k < before.len() && before[k] == g;
                    assert(all[k] == g);
                } else {
                    assert(all[all.len() - 1] == g);
                }
            }
        }
    }
}

/// Whether a tree block at `at` would lie on a boundary, whole inside a group
/// for metadata, and on no address that a key filed there records.
pub open spec fn has_room(items: Seq<ItemModel>, nodesize: u32, group: BlockGroup, at: u64) -> bool {
    &&& told_by(items, group)
    &&& group.flags & 4 != 0
    &&& at % (nodesize as u64) == 0
    &&& group.start <= at
    &&& at + nodesize <= group.start + group.length
    &&& forall|a: u64|
        at <= a < at + nodesize && a < u64::MAX ==> !(#[trigger] allocated(
            items,
            group,
            nodesize,
            a,
        ))
}

/// What lies on free space of a group for metadata has room.
pub(crate) proof fn lemma_free_home(volume: VolumeModel, at: u64)
    requires
        volume.sb.nodesize > 0,
        groups_apart(space::metadata_groups(space::groups_in(volume.tree_items(2)->Ok_0))),
        ({
            let items = volume.tree_items(2)->Ok_0;
            let groups = space::metadata_groups(space::groups_in(items));
            exists|g: int|
                0 <= g < groups.len() && (#[trigger] groups[g]).flags & 4 != 0 && laws::lies_free(
                    at,
                    volume.sb.nodesize as u64,
                    groups[g],
                    runs::by_start(space::taken_in(items, groups, g, volume.sb.nodesize)),
                )
        }),
    ensures
        exists|group: BlockGroup| #[trigger]
            has_room(volume.tree_items(2)->Ok_0, volume.sb.nodesize, group, at),
{
    let nodesize = volume.sb.nodesize;
    let items = volume.tree_items(2)->Ok_0;
    let groups = space::metadata_groups(space::groups_in(items));
    let g = choose|g: int|
        0 <= g < groups.len() && (#[trigger] groups[g]).flags & 4 != 0 && laws::lies_free(
            at,
            nodesize as u64,
            groups[g],
            runs::by_start(space::taken_in(items, groups, g, nodesize)),
        );
    let list = space::taken_in(items, groups, g, nodesize);
    lemma_metadata(space::groups_in(items));
    lemma_groups(items);
    assert(groups.contains(groups[g]));
    lemma_taken(items, groups, g, nodesize);
    assert forall|a: u64| at <= a < at + nodesize && a < u64::MAX implies !(#[trigger] allocated(
        items,
        groups[g],
        nodesize,
        a,
    )) by {
        lemma_sorted(list, a);
        assert(!runs::in_runs(runs::by_start(list), a));
        assert(!runs::in_runs(list, a));
    }
    assert(has_room(items, nodesize, groups[g], at));
}

/// Where a volume puts a new tree block there is room for one.
pub proof fn law_a_new_block_lies_where_no_key_records(volume: VolumeModel)
    requires
        volume.sb.nodesize > 0,
        space::block_place(volume) is Ok,
        groups_apart(space::metadata_groups(space::groups_in(volume.tree_items(2)->Ok_0))),
    ensures
        exists|group: BlockGroup| #[trigger]
            has_room(
                volume.tree_items(2)->Ok_0,
                volume.sb.nodesize,
                group,
                space::block_place(volume)->Ok_0,
            ),
{
    laws::law_a_new_block_lies_on_free_space(volume);
    lemma_free_home(volume, space::block_place(volume)->Ok_0);
}

/// Whether the runs of each list stand in address order and before those of
/// the lists behind it.
pub open spec fn in_line(lists: Seq<Seq<FreeExtent>>) -> bool {
    &&& forall|g: int, j: int, k: int|
        0 <= g < lists.len() && 0 <= j < k < lists[g].len() ==> (#[trigger] lists[g][j]).start
            + lists[g][j].len <= (#[trigger] lists[g][k]).start
    &&& forall|g: int, h: int, j: int, k: int|
        0 <= g < h < lists.len() && 0 <= j < lists[g].len() && 0 <= k < lists[h].len() ==> (
        #[trigger] lists[g][j]).start + lists[g][j].len <= (#[trigger] lists[h][k]).start
}

proof fn lemma_flattened_in_line(lists: Seq<Seq<FreeExtent>>)
    requires
        in_line(lists),
    ensures
        forall|j: int, k: int|
            0 <= j < k < space::flattened(lists).len() ==> (#[trigger] space::flattened(
                lists,
            )[j]).start + space::flattened(lists)[j].len <= (#[trigger] space::flattened(
                lists,
            )[k]).start,
    decreases lists.len(),
{
    if lists.len() > 0 {
        let front = lists.drop_last();
        assert(in_line(front)) by {
            assert forall|g: int, j: int, k: int|
                0 <= g < front.len() && 0 <= j < k < front[g].len() implies (
            #[trigger] front[g][j]).start + front[g][j].len <= (#[trigger] front[g][k]).start by {
                assert(front[g] == lists[g]);
            }
            assert forall|g: int, h: int, j: int, k: int|
                0 <= g < h < front.len() && 0 <= j < front[g].len() && 0 <= k
                    < front[h].len() implies (#[trigger] front[g][j]).start + front[g][j].len <= (
            #[trigger] front[h][k]).start by {
                assert(front[g] == lists[g] && front[h] == lists[h]);
            }
        }
        lemma_flattened_in_line(front);
        let before = space::flattened(front);
        let all = space::flattened(lists);
        let last = lists.len() - 1;
        assert forall|j: int, k: int| 0 <= j < k < all.len() implies (#[trigger] all[j]).start
            + all[j].len <= (#[trigger] all[k]).start by {
            if k < before.len() {
                assert(all[j] == before[j] && all[k] == before[k]);
            } else {
                assert(all[k] == lists[last][k - before.len()]);
                if j < before.len() {
                    assert(all[j] == before[j]);
                    let (g, i) = laws::lemma_flattened_member(front, j);
                    assert(front[g] == lists[g]);
                    assert(lists[g][i] == all[j]);
                } else {
                    assert(all[j] == lists[last][j - before.len()]);
                }
            }
        }
    }
}

proof fn lemma_in_flattened(lists: Seq<Seq<FreeExtent>>, g: int, k: int) -> (at: int)
    requires
        0 <= g < lists.len(),
        0 <= k < lists[g].len(),
    ensures
        0 <= at < space::flattened(lists).len(),
        space::flattened(lists)[at] == lists[g][k],
    decreases lists.len(),
{
    let before = space::flattened(lists.drop_last());
    if g == lists.len() - 1 {
        before.len() + k
    } else {
        lemma_in_flattened(lists.drop_last(), g, k)
    }
}

proof fn lemma_first(list: Seq<FreeExtent>, nodesize: u64, k: int) -> (at: int)
    requires
        0 <= k <= list.len(),
    ensures
        match space::first_place(list, nodesize, k) {
            Some(x) => k <= at < list.len() && runs::place_of(list[at], nodesize) == Some(x),
            None => at == list.len(),
        },
        forall|j: int| k <= j < at ==> runs::place_of(#[trigger] list[j], nodesize) is None,
    decreases list.len() - k,
{
    if k == list.len() {
        k
    } else if runs::place_of(list[k], nodesize) is Some {
        k
    } else {
        lemma_first(list, nodesize, k + 1)
    }
}

proof fn lemma_least(run: FreeExtent, nodesize: u64, x: u64)
    requires
        nodesize > 0,
        run.start <= x,
        x % nodesize == 0,
    ensures
        runs::aligned_up(run.start, nodesize) <= x,
{
    let start: int = run.start as int;
    let n: int = nodesize as int;
    let a: int = x as int;
    vstd::arithmetic::div_mod::lemma_fundamental_div_mod(start, n);
    vstd::arithmetic::div_mod::lemma_fundamental_div_mod(a, n);
    if start % n != 0 && a < start + (n - start % n) {
        let q: int = start / n;
        let p: int = a / n;
        let past: int = start % n;
        assert(false) by (nonlinear_arith)
            requires
                n > 0,
                0 < past < n,
                start == n * q + past,
                a == n * p,
                start <= a < start + (n - past),
        ;
    }
}

/// Whether a tree block at `x` would lie on a boundary and whole inside one of
/// the free runs of `lists`.
pub open spec fn fits(lists: Seq<Seq<FreeExtent>>, nodesize: u32, x: u64) -> bool {
    &&& x % (nodesize as u64) == 0
    &&& exists|g: int, k: int|
        0 <= g < lists.len() && 0 <= k < lists[g].len() && (#[trigger] lists[g][k]).start <= x
            && x + nodesize <= lists[g][k].start + lists[g][k].len
}

/// A new tree block goes to the lowest address at which one fits into a free
/// run of a group for metadata, and is refused only where none fits.
pub proof fn law_a_new_block_goes_to_the_first_fit(volume: VolumeModel)
    requires
        volume.sb.nodesize > 0,
        volume.tree_items(2) is Ok,
        groups_apart(space::metadata_groups(space::groups_in(volume.tree_items(2)->Ok_0))),
        space::free_outcome(
            volume,
            space::metadata_groups(space::groups_in(volume.tree_items(2)->Ok_0)),
        ) is Ok,
    ensures
        ({
            let lists = space::free_outcome(
                volume,
                space::metadata_groups(space::groups_in(volume.tree_items(2)->Ok_0)),
            )->Ok_0;
            match space::block_place(volume) {
                Ok(at) => fits(lists, volume.sb.nodesize, at) && forall|x: u64|
                    #[trigger] fits(lists, volume.sb.nodesize, x) && x + volume.sb.nodesize
                        <= u64::MAX ==> at <= x,
                Err(_) => forall|x: u64|
                    x + volume.sb.nodesize <= u64::MAX ==> !#[trigger] fits(
                        lists,
                        volume.sb.nodesize,
                        x,
                    ),
            }
        }),
{
    let nodesize = volume.sb.nodesize;
    let n = nodesize as u64;
    let items = volume.tree_items(2)->Ok_0;
    let groups = space::metadata_groups(space::groups_in(items));
    let lists = space::free_outcome(volume, groups)->Ok_0;
    let flat = space::flattened(lists);
    law_free_space_of_each_group(volume, groups);
    lemma_groups(items);
    lemma_metadata_in_order(space::groups_in(items));
    assert(in_line(lists)) by {
        assert forall|g: int, j: int, k: int|
            0 <= g < lists.len() && 0 <= j < k < lists[g].len() implies (
        #[trigger] lists[g][j]).start + lists[g][j].len <= (#[trigger] lists[g][k]).start by {
            assert(left_free(items, groups[g], nodesize, lists[g]));
        }
        assert forall|g: int, h: int, j: int, k: int|
            0 <= g < h < lists.len() && 0 <= j < lists[g].len() && 0 <= k < lists[h].len() implies (
        #[trigger] lists[g][j]).start + lists[g][j].len <= (#[trigger] lists[h][k]).start by {
            assert(left_free(items, groups[g], nodesize, lists[g]));
            assert(left_free(items, groups[h], nodesize, lists[h]));
            assert(groups[g].start <= groups[h].start);
            let a = lists[g][j];
            let b = lists[h][k];
            assert(a.len > 0 && groups[g].start <= a.start && a.start + a.len <= groups[g].start
                + groups[g].length);
            assert(b.len > 0 && groups[h].start <= b.start && b.start + b.len <= groups[h].start
                + groups[h].length);
        }
    }
    lemma_flattened_in_line(lists);
    let i = lemma_first(flat, n, 0);
    assert forall|x: u64|
        #[trigger] fits(lists, nodesize, x) && x + nodesize <= u64::MAX implies space::block_place(
        volume,
    ) is Ok && space::block_place(volume)->Ok_0 <= x by {
        let (g, k) = choose|g: int, k: int|
            0 <= g < lists.len() && 0 <= k < lists[g].len() && (#[trigger] lists[g][k]).start <= x
                && x + nodesize <= lists[g][k].start + lists[g][k].len;
        let j = lemma_in_flattened(lists, g, k);
        runs::law_a_block_is_placed_where_it_fits(flat[j], n);
        lemma_least(flat[j], n, x);
        assert(x % n == 0);
        assert(runs::place_of(flat[j], n) is Some);
        if i < j {
            runs::law_a_block_is_placed_where_it_fits(flat[i], n);
        }
    }
    if let Ok(at) = space::block_place(volume) {
        runs::law_a_block_is_placed_where_it_fits(flat[i], n);
        let (g, k) = laws::lemma_flattened_member(lists, i);
        assert(lists[g][k].start <= at && at + nodesize <= lists[g][k].start + lists[g][k].len);
    }
}

proof fn lemma_metadata_in_order(groups: Seq<BlockGroup>)
    requires
        forall|i: int, j: int|
            0 <= i < j < groups.len() ==> (#[trigger] groups[i]).start <= (
            #[trigger] groups[j]).start,
    ensures
        forall|i: int, j: int|
            0 <= i < j < space::metadata_groups(groups).len() ==> (#[trigger] space::metadata_groups(
                groups,
            )[i]).start <= (#[trigger] space::metadata_groups(groups)[j]).start,
    decreases groups.len(),
{
    if groups.len() > 0 {
        let front = groups.drop_last();
        let before = space::metadata_groups(front);
        let all = space::metadata_groups(groups);
        assert forall|i: int, j: int| 0 <= i < j < front.len() implies (#[trigger] front[i]).start
            <= (#[trigger] front[j]).start by {
            assert(front[i] == groups[i] && front[j] == groups[j]);
        }
        lemma_metadata_in_order(front);
        lemma_metadata(front);
        assert forall|i: int, j: int| 0 <= i < j < all.len() implies (#[trigger] all[i]).start <= (
        #[trigger] all[j]).start by {
            assert(all[i] == before[i]);
            if j < before.len() {
                assert(all[j] == before[j]);
            } else {
                assert(before.contains(before[i]));
                let m = choose|m: int| 0 <= m < front.len() && front[m] == before[i];
                assert(groups[m] == before[i]);
                assert(all[j] == groups[groups.len() - 1]);
            }
        }
    }
}

} // verus!
