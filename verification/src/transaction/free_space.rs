//! What a plan does to the free-space tree.

use vstd::prelude::*;
use vstd::slice::slice_subrange;

use crate::block_group::runs;
use crate::block_group::runs::{merge_adjacent, reached, sort_runs};
use crate::block_group::space;
use crate::block_group::{BlockGroup, FreeExtent};
use crate::btree::ItemModel;
use crate::bytes;
use crate::bytes::{copy_range, put32};
use crate::chunk::{key_type, objectid, DiskKey};
use crate::error::{Error, ErrorView, Result};
use crate::fs::Filesystem;
use crate::leaf_edit;
use crate::leaf_edit::OwnedItem;
use crate::transaction;
use crate::transaction::{Plan, Rewrite};
use crate::volume::VolumeModel;

verus! {

/// `run` with `[at, at + len)` taken out of it.
pub open spec fn carved(run: FreeExtent, at: u64, len: u64) -> Seq<FreeExtent> {
    let end: int = at + len;
    let run_end = runs::reach(run.start, run.len);
    if end <= run.start || at >= run_end {
        seq![run]
    } else {
        let head: Seq<FreeExtent> = if at > run.start {
            seq![FreeExtent { start: run.start, len: (at - run.start) as u64 }]
        } else {
            Seq::empty()
        };
        let tail: Seq<FreeExtent> = if end < run_end {
            seq![FreeExtent { start: end as u64, len: (run_end - end) as u64 }]
        } else {
            Seq::empty()
        };
        head + tail
    }
}

/// `list` with `[at, at + len)` taken out of every run.
pub open spec fn carved_all(list: Seq<FreeExtent>, at: u64, len: u64) -> Seq<FreeExtent>
    decreases list.len(),
{
    if list.len() == 0 {
        list
    } else {
        carved_all(list.drop_last(), at, len) + carved(list.last(), at, len)
    }
}

/// `list` with a block of `len` bytes at each of the addresses `from ..` that
/// `group` covers taken out.
pub open spec fn taken_out(
    list: Seq<FreeExtent>,
    group: BlockGroup,
    addresses: Seq<u64>,
    len: u64,
    from: int,
) -> Seq<FreeExtent>
    decreases addresses.len() - from,
{
    if from < 0 || from >= addresses.len() {
        list
    } else {
        taken_out(
            if group.covers(addresses[from]) {
                carved_all(list, addresses[from], len)
            } else {
                list
            },
            group,
            addresses,
            len,
            from + 1,
        )
    }
}

/// `list` with a block of `len` bytes at each of `addresses` that `group`
/// covers behind it.
pub open spec fn given_back(
    list: Seq<FreeExtent>,
    group: BlockGroup,
    addresses: Seq<u64>,
    len: u64,
) -> Seq<FreeExtent>
    decreases addresses.len(),
{
    if addresses.len() == 0 {
        list
    } else {
        let before = given_back(list, group, addresses.drop_last(), len);
        if group.covers(addresses.last()) {
            before.push(FreeExtent { start: addresses.last(), len })
        } else {
            before
        }
    }
}

/// The runs of `list` that hold anything.
pub open spec fn non_empty(list: Seq<FreeExtent>) -> Seq<FreeExtent>
    decreases list.len(),
{
    if list.len() == 0 {
        list
    } else if list.last().len > 0 {
        non_empty(list.drop_last()).push(list.last())
    } else {
        non_empty(list.drop_last())
    }
}

/// What is free in `group` after `plan`: what was free and what the plan
/// releases, joined where they touch, without what it takes.
pub open spec fn free_after(
    free: Seq<FreeExtent>,
    group: BlockGroup,
    plan: Seq<Rewrite>,
    nodesize: u64,
) -> Seq<FreeExtent> {
    non_empty(
        taken_out(
            runs::merged(
                runs::in_order(given_back(free, group, transaction::olds(plan), nodesize)),
            ),
            group,
            transaction::news(plan),
            nodesize,
            0,
        ),
    )
}

/// The item that records a free run: the key is the item.
pub open spec fn run_item(run: FreeExtent) -> ItemModel {
    ItemModel {
        key: DiskKey {
            objectid: run.start,
            key_type: key_type::FREE_SPACE_EXTENT,
            offset: run.len,
        },
        data: Seq::empty(),
    }
}

/// An info item that counts `n` runs.
pub open spec fn counted(item: ItemModel, n: nat) -> ItemModel {
    ItemModel {
        key: item.key,
        data: if item.data.len() >= 4 {
            bytes::splice(item.data, 0, bytes::u32_bytes(n as u32))
        } else {
            item.data
        },
    }
}

/// Where the items that belong to a group ending at `end` stop, from `j` on.
pub open spec fn group_stop(items: Seq<ItemModel>, j: int, end: int) -> int
    decreases items.len() - j,
{
    if j < 0 || j >= items.len() || items[j].key.key_type == key_type::FREE_SPACE_INFO
        || items[j].key.objectid >= end {
        j
    } else {
        group_stop(items, j + 1, end)
    }
}

/// Whether one of `addresses` lies in `start .. end`.
pub open spec fn any_within(addresses: Seq<u64>, start: int, end: int) -> bool {
    exists|i: int| 0 <= i < addresses.len() && start <= #[trigger] addresses[i] < end
}

/// The first of the groups `from ..` that starts at `start`.
pub open spec fn group_starting(groups: Seq<BlockGroup>, start: u64, from: int) -> Option<
    BlockGroup,
>
    decreases groups.len() - from,
{
    if from < 0 || from >= groups.len() {
        None
    } else if groups[from].start == start {
        Some(groups[from])
    } else {
        group_starting(groups, start, from + 1)
    }
}

/// The items of one group, its info item first, as `plan` leaves them. A group
/// the plan does not touch, and one that no longer exists, is carried through
/// as it is.
#[verifier::opaque]
pub open spec fn group_respaced(
    volume: VolumeModel,
    groups: Seq<BlockGroup>,
    plan: Seq<Rewrite>,
    items: Seq<ItemModel>,
) -> std::result::Result<Seq<ItemModel>, ErrorView> {
    let start = items[0].key.objectid;
    let end: int = start + items[0].key.offset;
    let moved = transaction::olds(plan) + transaction::news(plan);
    match group_starting(groups, start, 0) {
        None => Ok(items),
        Some(group) => if !any_within(moved, start as int, end) {
            Ok(items)
        } else {
            match space::group_free(volume, group) {
                Err(e) => Err(e),
                Ok(free) => {
                    let left = free_after(free, group, plan, volume.sb.nodesize as u64);
                    Ok(
                        seq![counted(items[0], left.len())] + left.map_values(
                            |r: FreeExtent| run_item(r),
                        ),
                    )
                },
            }
        },
    }
}

/// The free-space items `i ..` of a leaf as `plan` leaves them, behind `out`.
///
/// A leaf holds the items of several groups, each an info item followed by
/// that group's runs.
pub open spec fn respaced_from(
    volume: VolumeModel,
    groups: Seq<BlockGroup>,
    plan: Seq<Rewrite>,
    items: Seq<ItemModel>,
    i: int,
    out: Seq<ItemModel>,
) -> std::result::Result<Seq<ItemModel>, ErrorView>
    decreases items.len() - i,
{
    if i < 0 || i >= items.len() {
        Ok(out)
    } else if items[i].key.key_type != key_type::FREE_SPACE_INFO {
        respaced_from(volume, groups, plan, items, i + 1, out.push(items[i]))
    } else {
        let stop = group_stop(items, i + 1, items[i].key.objectid + items[i].key.offset);
        proof {
            lemma_group_stop(items, i + 1, items[i].key.objectid + items[i].key.offset);
        }
        match group_respaced(volume, groups, plan, items.subrange(i, stop)) {
            Err(e) => Err(e),
            Ok(next) => respaced_from(volume, groups, plan, items, stop, out + next),
        }
    }
}

/// The items of a group stop within the leaf.
pub proof fn lemma_group_stop(items: Seq<ItemModel>, j: int, end: int)
    requires
        0 <= j <= items.len(),
    ensures
        j <= group_stop(items, j, end) <= items.len(),
    decreases items.len() - j,
{
    if j < items.len() && items[j].key.key_type != key_type::FREE_SPACE_INFO
        && items[j].key.objectid < end {
        lemma_group_stop(items, j + 1, end);
    }
}

/// Whether one of `items` is a bitmap.
pub open spec fn has_bitmap(items: Seq<ItemModel>) -> bool {
    exists|i: int|
        0 <= i < items.len() && (#[trigger] items[i]).key.key_type == key_type::FREE_SPACE_BITMAP
}

/// The items of a free-space tree leaf as `plan` leaves them.
pub open spec fn respaced(volume: VolumeModel, plan: Seq<Rewrite>, items: Seq<ItemModel>) -> std::result::Result<
    Seq<ItemModel>,
    ErrorView,
> {
    if has_bitmap(items) {
        Err(
            ErrorView::UnsupportedFeature(
                "this free-space tree records a block group as a bitmap, and rewriting bits is not implemented"@,
            ),
        )
    } else {
        match space::groups_outcome(volume) {
            Err(e) => Err(e),
            Ok(groups) => respaced_from(volume, groups, plan, items, 0, Seq::empty()),
        }
    }
}

/// Taking a range out of a run leaves exactly the rest of it.
pub proof fn law_carving_leaves_the_rest(run: FreeExtent, at: u64, len: u64, address: u64)
    ensures
        runs::in_runs(carved(run, at, len), address) == (runs::in_run(run, address) && !(at
            <= address < at + len)),
{
    let end: int = at + len;
    let run_end = runs::reach(run.start, run.len);
    let list = carved(run, at, len);
    if end <= run.start || at >= run_end {
        assert(list[0] == run);
        if runs::in_run(run, address) {
            assert(runs::in_run(list[0], address));
        }
    } else {
        let h = FreeExtent { start: run.start, len: (at - run.start) as u64 };
        let t = FreeExtent { start: end as u64, len: (run_end - end) as u64 };
        if at > run.start {
            assert(list[0] == h);
            if end < run_end {
                assert(list[1] == t);
            }
        } else if end < run_end {
            assert(list[0] == t);
        }
        if runs::in_run(run, address) && !(at <= address < end) {
            if address < at {
                assert(runs::in_run(list[0], address));
            } else if at > run.start {
                assert(runs::in_run(list[1], address));
            } else {
                assert(runs::in_run(list[0], address));
            }
        }
    }
}

proof fn lemma_in_joined(a: Seq<FreeExtent>, b: Seq<FreeExtent>, address: u64)
    ensures
        runs::in_runs(a + b, address) == (runs::in_runs(a, address) || runs::in_runs(b, address)),
    decreases b.len(),
{
    if b.len() == 0 {
        assert(a + b =~= a);
    } else {
        let front = b.drop_last();
        lemma_in_joined(a, front, address);
        assert((a + front).push(b.last()) =~= a + b);
        assert(front.push(b.last()) =~= b);
        runs::lemma_in_pushed(a + front, b.last(), address);
        runs::lemma_in_pushed(front, b.last(), address);
    }
}

proof fn lemma_carved_all(list: Seq<FreeExtent>, at: u64, len: u64, address: u64)
    ensures
        runs::in_runs(carved_all(list, at, len), address) == (runs::in_runs(list, address) && !(at
            <= address < at + len)),
    decreases list.len(),
{
    if list.len() > 0 {
        let front = list.drop_last();
        lemma_carved_all(front, at, len, address);
        law_carving_leaves_the_rest(list.last(), at, len, address);
        lemma_in_joined(carved_all(front, at, len), carved(list.last(), at, len), address);
        assert(front.push(list.last()) =~= list);
        runs::lemma_in_pushed(front, list.last(), address);
    } else {
        assert(carved_all(list, at, len) =~= list);
    }
}

/// Whether `address` lies in a block of `len` bytes at one of the addresses
/// `from ..` that `group` covers.
pub open spec fn in_block(
    group: BlockGroup,
    addresses: Seq<u64>,
    len: u64,
    address: u64,
    from: int,
) -> bool {
    exists|i: int|
        from <= i < addresses.len() && group.covers(#[trigger] addresses[i]) && addresses[i]
            <= address < addresses[i] + len
}

proof fn lemma_taken_out(
    list: Seq<FreeExtent>,
    group: BlockGroup,
    addresses: Seq<u64>,
    len: u64,
    from: int,
    address: u64,
)
    requires
        0 <= from <= addresses.len(),
    ensures
        runs::in_runs(taken_out(list, group, addresses, len, from), address) == (runs::in_runs(
            list,
            address,
        ) && !in_block(group, addresses, len, address, from)),
    decreases addresses.len() - from,
{
    if from < addresses.len() {
        let next = if group.covers(addresses[from]) {
            carved_all(list, addresses[from], len)
        } else {
            list
        };
        lemma_carved_all(list, addresses[from], len, address);
        lemma_taken_out(next, group, addresses, len, from + 1, address);
        let here = group.covers(addresses[from]) && addresses[from] <= address < addresses[from]
            + len;
        assert(in_block(group, addresses, len, address, from) == (here || in_block(
            group,
            addresses,
            len,
            address,
            from + 1,
        )));
    }
}

proof fn lemma_given_back(
    list: Seq<FreeExtent>,
    group: BlockGroup,
    addresses: Seq<u64>,
    len: u64,
    address: u64,
)
    requires
        address < u64::MAX,
    ensures
        runs::in_runs(given_back(list, group, addresses, len), address) == (runs::in_runs(
            list,
            address,
        ) || in_block(group, addresses, len, address, 0)),
    decreases addresses.len(),
{
    if addresses.len() > 0 {
        let front = addresses.drop_last();
        lemma_given_back(list, group, front, len, address);
        let before = given_back(list, group, front, len);
        let run = FreeExtent { start: addresses.last(), len };
        runs::lemma_in_pushed(before, run, address);
        let n: int = addresses.len() - 1;
        let here = group.covers(addresses[n]) && addresses[n] <= address < addresses[n] + len;
        assert(in_block(group, addresses, len, address, 0) == (here || in_block(
            group,
            front,
            len,
            address,
            0,
        ))) by {
            if in_block(group, front, len, address, 0) {
                let i = choose|i: int|
                    0 <= i < front.len() && group.covers(#[trigger] front[i]) && front[i]
                        <= address < front[i] + len;
                assert(group.covers(addresses[i]));
            }
            if in_block(group, addresses, len, address, 0) && !here {
                let i = choose|i: int|
                    0 <= i < addresses.len() && group.covers(#[trigger] addresses[i])
                        && addresses[i] <= address < addresses[i] + len;
                assert(group.covers(front[i]));
            }
        }
    }
}

proof fn lemma_non_empty(list: Seq<FreeExtent>, address: u64)
    ensures
        runs::in_runs(non_empty(list), address) == runs::in_runs(list, address),
        forall|i: int| 0 <= i < non_empty(list).len() ==> (#[trigger] non_empty(list)[i]).len > 0,
    decreases list.len(),
{
    if list.len() > 0 {
        let front = list.drop_last();
        lemma_non_empty(front, address);
        assert(front.push(list.last()) =~= list);
        runs::lemma_in_pushed(front, list.last(), address);
        runs::lemma_in_pushed(non_empty(front), list.last(), address);
        let all = non_empty(list);
        assert forall|i: int| 0 <= i < all.len() implies (#[trigger] all[i]).len > 0 by {
            if i < non_empty(front).len() {
                assert(all[i] == non_empty(front)[i]);
            }
        }
    } else {
        assert(non_empty(list) =~= list);
    }
}

/// What a group's leaf says is free after a plan is what was free or what the
/// plan gives back, but for what it takes; and no run of it is empty.
pub proof fn law_free_space_follows_the_plan(
    free: Seq<FreeExtent>,
    group: BlockGroup,
    plan: Seq<Rewrite>,
    nodesize: u64,
    address: u64,
)
    requires
        address < u64::MAX,
    ensures
        runs::in_runs(free_after(free, group, plan, nodesize), address) == ((runs::in_runs(
            free,
            address,
        ) || in_block(group, transaction::olds(plan), nodesize, address, 0)) && !in_block(
            group,
            transaction::news(plan),
            nodesize,
            address,
            0,
        )),
        forall|i: int|
            0 <= i < free_after(free, group, plan, nodesize).len() ==> (#[trigger] free_after(
                free,
                group,
                plan,
                nodesize,
            )[i]).len > 0,
{
    let given = given_back(free, group, transaction::olds(plan), nodesize);
    let sorted = runs::in_order(given);
    let joined = runs::merged(sorted);
    lemma_given_back(free, group, transaction::olds(plan), nodesize, address);
    runs::lemma_in_order_keeps(given, address);
    runs::law_merging_keeps_coverage(sorted, address);
    lemma_taken_out(joined, group, transaction::news(plan), nodesize, 0, address);
    lemma_non_empty(
        taken_out(joined, group, transaction::news(plan), nodesize, 0),
        address,
    );
}

/// `run` with `[at, at + len)` taken out of it.
pub fn carve(run: FreeExtent, at: u64, len: u64) -> (out: Vec<FreeExtent>)
    ensures
        out@ == carved(run, at, len),
{
    let mut out: Vec<FreeExtent> = Vec::new();
    let run_end: u64 = reached(run.start, run.len);
    let end: Option<u64> = at.checked_add(len);
    let before: bool = match end {
        Some(end) => end <= run.start,
        None => false,
    };
    if before || at >= run_end {
        out.push(run);
        assert(out@ =~= carved(run, at, len));
        return out;
    }
    if at > run.start {
        out.push(FreeExtent { start: run.start, len: at - run.start });
    }
    if let Some(end) = end {
        if end < run_end {
            out.push(FreeExtent { start: end, len: run_end - end });
        }
    }
    assert(out@ =~= carved(run, at, len));
    out
}

/// Take `[at, at + len)` out of every run.
fn carve_all(list: Vec<FreeExtent>, at: u64, len: u64) -> (out: Vec<FreeExtent>)
    ensures
        out@ == carved_all(list@, at, len),
{
    let mut out: Vec<FreeExtent> = Vec::new();
    let mut i: usize = 0;
    assert(out@ =~= carved_all(list@.take(0), at, len));
    while i < list.len()
        invariant
            i <= list@.len(),
            out@ == carved_all(list@.take(i as int), at, len),
        decreases list@.len() - i,
    {
        assert(list@.take(i + 1).drop_last() =~= list@.take(i as int));
        assert(list@.take(i + 1).last() == list@[i as int]);
        let mut parts = carve(list[i], at, len);
        out.append(&mut parts);
        i = i + 1;
    }
    assert(list@.take(list@.len() as int) =~= list@);
    out
}

/// What is free in `group` after a plan that releases `released` and takes
/// `allocated`.
fn space_left(
    free: Vec<FreeExtent>,
    group: &BlockGroup,
    released: &[u64],
    allocated: &[u64],
    nodesize: u64,
    Ghost(plan): Ghost<Seq<Rewrite>>,
) -> (out: Vec<FreeExtent>)
    requires
        released@ == transaction::olds(plan),
        allocated@ == transaction::news(plan),
    ensures
        out@ == free_after(free@, *group, plan, nodesize),
{
    let ghost start = free@;
    let mut free = free;
    let mut i: usize = 0;
    assert(given_back(start, *group, released@.take(0), nodesize) == start);
    while i < released.len()
        invariant
            i <= released@.len(),
            free@ == given_back(start, *group, released@.take(i as int), nodesize),
        decreases released@.len() - i,
    {
        assert(released@.take(i + 1).drop_last() =~= released@.take(i as int));
        assert(released@.take(i + 1).last() == released@[i as int]);
        if group.contains(released[i]) {
            free.push(FreeExtent { start: released[i], len: nodesize });
        }
        i = i + 1;
    }
    assert(released@.take(released@.len() as int) =~= released@);
    let sorted = sort_runs(free.as_slice());
    let mut list = merge_adjacent(sorted);
    let ghost joined = list@;
    let mut k: usize = 0;
    while k < allocated.len()
        invariant
            k <= allocated@.len(),
            taken_out(joined, *group, allocated@, nodesize, 0) == taken_out(
                list@,
                *group,
                allocated@,
                nodesize,
                k as int,
            ),
        decreases allocated@.len() - k,
    {
        if group.contains(allocated[k]) {
            list = carve_all(list, allocated[k], nodesize);
        }
        k = k + 1;
    }
    keep_non_empty(list)
}

/// The runs that hold anything.
fn keep_non_empty(list: Vec<FreeExtent>) -> (out: Vec<FreeExtent>)
    ensures
        out@ == non_empty(list@),
{
    let mut out: Vec<FreeExtent> = Vec::new();
    let mut i: usize = 0;
    assert(out@ =~= non_empty(list@.take(0)));
    while i < list.len()
        invariant
            i <= list@.len(),
            out@ == non_empty(list@.take(i as int)),
        decreases list@.len() - i,
    {
        assert(list@.take(i + 1).drop_last() =~= list@.take(i as int));
        assert(list@.take(i + 1).last() == list@[i as int]);
        if list[i].len > 0 {
            out.push(list[i]);
        }
        i = i + 1;
    }
    assert(list@.take(list@.len() as int) =~= list@);
    out
}

/// Whether one of `addresses` lies in the `len` bytes from `start` on.
fn any_in(addresses: &[u64], start: u64, len: u64) -> (yes: bool)
    ensures
        yes == any_within(addresses@, start as int, start + len),
{
    let mut i: usize = 0;
    while i < addresses.len()
        invariant
            i <= addresses@.len(),
            forall|k: int| 0 <= k < i ==> !(start <= #[trigger] addresses@[k] < start + len),
        decreases addresses@.len() - i,
    {
        if addresses[i] >= start && addresses[i] - start < len {
            assert(start <= addresses@[i as int] < start + len);
            return true;
        }
        i = i + 1;
    }
    false
}

/// The first group that starts at `start`.
fn find_start(groups: &[BlockGroup], start: u64) -> (r: Option<BlockGroup>)
    ensures
        r == group_starting(groups@, start, 0),
{
    let mut i: usize = 0;
    while i < groups.len()
        invariant
            i <= groups@.len(),
            group_starting(groups@, start, 0) == group_starting(groups@, start, i as int),
        decreases groups@.len() - i,
    {
        if groups[i].start == start {
            return Some(groups[i]);
        }
        i = i + 1;
    }
    None
}

/// Where the items of the group at `i` stop.
fn find_stop(items: &[OwnedItem], i: usize, start: u64, len: u64) -> (stop: usize)
    requires
        i < items@.len(),
    ensures
        stop == group_stop(leaf_edit::owned_models(items@), i + 1, start + len),
        i < stop <= items@.len(),
{
    let ghost all = leaf_edit::owned_models(items@);
    assert(i < items.len());
    let mut j: usize = i + 1;
    while j < items.len() && items[j].key.key_type != key_type::FREE_SPACE_INFO && (
    items[j].key.objectid < start || items[j].key.objectid - start < len)
        invariant
            i < j <= items@.len(),
            all == leaf_edit::owned_models(items@),
            group_stop(all, i + 1, start + len) == group_stop(all, j as int, start + len),
        decreases items@.len() - j,
    {
        assert(all[j as int] == items@[j as int]@);
        j = j + 1;
    }
    proof {
        if j < items@.len() {
            assert(all[j as int] == items@[j as int]@);
        }
    }
    j
}

/// Add copies of the items `from .. to` to `out`.
fn carry(items: &[OwnedItem], from: usize, to: usize, out: &mut Vec<OwnedItem>)
    requires
        from <= to <= items@.len(),
    ensures
        leaf_edit::owned_models(final(out)@) == leaf_edit::owned_models(old(out)@)
            + leaf_edit::owned_models(items@).subrange(from as int, to as int),
{
    let ghost all = leaf_edit::owned_models(items@);
    let ghost start = leaf_edit::owned_models(out@);
    let mut k: usize = from;
    assert(start + all.subrange(from as int, from as int) =~= start);
    while k < to
        invariant
            from <= k <= to <= items@.len(),
            all == leaf_edit::owned_models(items@),
            leaf_edit::owned_models(out@) == start + all.subrange(from as int, k as int),
        decreases to - k,
    {
        let ghost before = leaf_edit::owned_models(out@);
        let copy = items[k].duplicate();
        let ghost one = copy@;
        assert(one == all[k as int]);
        out.push(copy);
        assert(leaf_edit::owned_models(out@) =~= before.push(one));
        assert(all.subrange(from as int, k + 1) =~= all.subrange(from as int, k as int).push(one));
        k = k + 1;
        assert(leaf_edit::owned_models(out@) =~= start + all.subrange(from as int, k as int));
    }
}

/// Add an info item that counts `runs`, and an item for each of them, to
/// `out`.
fn record_runs(info: &OwnedItem, list: &[FreeExtent], out: &mut Vec<OwnedItem>)
    ensures
        leaf_edit::owned_models(final(out)@) == leaf_edit::owned_models(old(out)@).push(
            counted(info@, list@.len()),
        ) + list@.map_values(|r: FreeExtent| run_item(r)),
{
    let mut data = copy_range(info.data.as_slice(), 0, info.data.len());
    assert(data@ =~= info.data@);
    if data.len() >= 4 {
        put32(data.as_mut_slice(), 0, list.len() as u32);
    }
    let head = OwnedItem { key: info.key, data };
    let ghost one = head@;
    assert(one == counted(info@, list@.len()));
    let ghost start = leaf_edit::owned_models(out@);
    out.push(head);
    let ghost opened = start.push(one);
    assert(leaf_edit::owned_models(out@) =~= opened);
    let ghost all = list@.map_values(|r: FreeExtent| run_item(r));
    let mut i: usize = 0;
    assert(opened + all.take(0) =~= opened);
    while i < list.len()
        invariant
            i <= list@.len(),
            all == list@.map_values(|r: FreeExtent| run_item(r)),
            leaf_edit::owned_models(out@) == opened + all.take(i as int),
        decreases list@.len() - i,
    {
        let run = list[i];
        let ghost before = leaf_edit::owned_models(out@);
        let item = OwnedItem {
            key: DiskKey {
                objectid: run.start,
                key_type: key_type::FREE_SPACE_EXTENT,
                offset: run.len,
            },
            data: Vec::new(),
        };
        let ghost made = item@;
        assert(made =~= run_item(run));
        out.push(item);
        assert(leaf_edit::owned_models(out@) =~= before.push(made));
        assert(all.take(i + 1) =~= all.take(i as int).push(made));
        i = i + 1;
        assert(leaf_edit::owned_models(out@) =~= opened + all.take(i as int));
    }
    assert(all.take(all.len() as int) =~= all);
}

/// Whether one of `items` is a bitmap.
fn any_bitmap(items: &[OwnedItem]) -> (yes: bool)
    ensures
        yes == has_bitmap(leaf_edit::owned_models(items@)),
{
    let ghost all = leaf_edit::owned_models(items@);
    let mut i: usize = 0;
    while i < items.len()
        invariant
            i <= items@.len(),
            all == leaf_edit::owned_models(items@),
            forall|k: int|
                0 <= k < i ==> (#[trigger] all[k]).key.key_type != key_type::FREE_SPACE_BITMAP,
        decreases items@.len() - i,
    {
        assert(all[i as int] == items@[i as int]@);
        if items[i].key.key_type == key_type::FREE_SPACE_BITMAP {
            return true;
        }
        i = i + 1;
    }
    false
}

impl<R: Fn(usize, u64, usize) -> Result<Vec<u8>>> Filesystem<R> {
    /// The items of one group as the plan leaves them.
    fn apply_group(&self, items: &[OwnedItem], groups: &[BlockGroup], plan: &Plan) -> (r: Result<
        Vec<OwnedItem>,
    >)
        requires
            self.ready(),
            items@.len() > 0,
        ensures
            self.faithful() ==> match r {
                Ok(out) => group_respaced(
                    self@.volume,
                    groups@,
                    plan@,
                    leaf_edit::owned_models(items@),
                ) == Ok::<Seq<ItemModel>, ErrorView>(leaf_edit::owned_models(out@)),
                Err(e) => group_respaced(
                    self@.volume,
                    groups@,
                    plan@,
                    leaf_edit::owned_models(items@),
                ) == Err::<Seq<ItemModel>, ErrorView>(e@),
            },
    {
        reveal(group_respaced);
        let ghost all = leaf_edit::owned_models(items@);
        let info = &items[0];
        assert(all[0] == info@);
        let released = plan.released();
        let allocated = plan.allocated();
        let mut moved = plan.released();
        let mut taken = plan.allocated();
        moved.append(&mut taken);
        assert(moved@ =~= transaction::olds(plan@) + transaction::news(plan@));
        let touched: bool = any_in(moved.as_slice(), info.key.objectid, info.key.offset);
        let found: Option<BlockGroup> = find_start(groups, info.key.objectid);
        let target: Option<BlockGroup> = if touched {
            found
        } else {
            None
        };
        let mut out: Vec<OwnedItem> = Vec::new();
        let ghost none = leaf_edit::owned_models(out@);
        match target {
            // Untouched, or a group that no longer exists: carry the whole
            // run through exactly as it was.
            None => {
                carry(items, 0, items.len(), &mut out);
                assert(none + all.subrange(0, all.len() as int) =~= all);
            },
            Some(group) => {
                // What is free now, plus what the plan releases, minus what
                // it takes.
                let free = match self.free_extents(&group) {
                    Ok(free) => free,
                    Err(e) => return Err(e),
                };
                let left = space_left(
                    free,
                    &group,
                    released.as_slice(),
                    allocated.as_slice(),
                    self.volume.sb.nodesize as u64,
                    Ghost(plan@),
                );
                record_runs(info, left.as_slice(), &mut out);
                let ghost head = counted(info@, left@.len());
                assert(none.push(head) =~= seq![head]);
            },
        }
        Ok(out)
    }

    /// Rewrite a free-space tree leaf so it describes what the plan leaves
    /// behind.
    ///
    /// A leaf is rewritten group by group, and every group in it comes out
    /// again. A leaf that records a group as a bitmap is refused: its bits
    /// would have to be rewritten rather than its extents.
    pub fn apply_free_space(&self, items: &[OwnedItem], plan: &Plan) -> (r: Result<Vec<OwnedItem>>)
        requires
            self.ready(),
        ensures
            self.faithful() ==> match r {
                Ok(out) => respaced(self@.volume, plan@, leaf_edit::owned_models(items@)) == Ok::<
                    Seq<ItemModel>,
                    ErrorView,
                >(leaf_edit::owned_models(out@)),
                Err(e) => respaced(self@.volume, plan@, leaf_edit::owned_models(items@)) == Err::<
                    Seq<ItemModel>,
                    ErrorView,
                >(e@),
            },
    {
        if any_bitmap(items) {
            return Err(
                Error::UnsupportedFeature(
                    "this free-space tree records a block group as a bitmap, and rewriting bits is not implemented".to_owned(),
                ),
            );
        }
        let groups = match self.block_groups() {
            Ok(groups) => groups,
            Err(e) => return Err(e),
        };
        let ghost all = leaf_edit::owned_models(items@);
        let mut out: Vec<OwnedItem> = Vec::new();
        assert(leaf_edit::owned_models(out@) =~= Seq::<ItemModel>::empty());
        let mut i: usize = 0;
        while i < items.len()
            invariant
                self.ready(),
                i <= items@.len(),
                all == leaf_edit::owned_models(items@),
                self.faithful() ==> respaced(self@.volume, plan@, all) == respaced_from(
                    self@.volume,
                    groups@,
                    plan@,
                    all,
                    i as int,
                    leaf_edit::owned_models(out@),
                ),
            decreases items@.len() - i,
        {
            let item = &items[i];
            assert(all[i as int] == item@);
            let ghost before = leaf_edit::owned_models(out@);
            if item.key.key_type != key_type::FREE_SPACE_INFO {
                // An extent item with no info before it: carry it.
                carry(items, i, i + 1, &mut out);
                assert(all.subrange(i as int, i + 1) =~= seq![all[i as int]]);
                assert(before + seq![all[i as int]] =~= before.push(all[i as int]));
                i = i + 1;
                continue;
            }
            let stop: usize = find_stop(items, i, item.key.objectid, item.key.offset);
            let group_items = slice_subrange(items, i, stop);
            assert(leaf_edit::owned_models(group_items@) =~= all.subrange(i as int, stop as int));
            let mut next = match self.apply_group(
                group_items,
                groups.as_slice(),
                plan,
            ) {
                Ok(next) => next,
                Err(e) => return Err(e),
            };
            let ghost added = leaf_edit::owned_models(next@);
            out.append(&mut next);
            assert(leaf_edit::owned_models(out@) =~= before + added);
            i = stop;
        }
        Ok(out)
    }
}

} // verus!
