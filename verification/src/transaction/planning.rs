//! Working out what a transaction rewrites, and where to.

use std::collections::{BTreeMap, BTreeSet};

use vstd::prelude::*;

use crate::address_set;
use crate::address_set::AddressSet;
use crate::block_group::runs;
use crate::block_group::runs::reached;
use crate::block_group::space;
use crate::block_group::space::keep_metadata;
use crate::block_group::{BlockGroup, FreeExtent};
use crate::btree;
use crate::btree::key_before;
use crate::chunk::{key_type, objectid, DiskKey};
use crate::error::{Error, ErrorView, Result};
use crate::fs::Filesystem;
use crate::text;
use crate::text::cat3;
use crate::text::Part::{Dec, Lit};
use crate::transaction;
use crate::transaction::blocks;
use crate::transaction::blocks::{Visit, VisitModel};
use crate::transaction::placements;
use crate::transaction::placements::Placement;
use crate::transaction::{Plan, Rewrite};
use crate::volume::VolumeModel;

verus! {

/// The complaint about a block no tree holds.
pub open spec fn unreachable_block(at: u64) -> ErrorView {
    ErrorView::UnsupportedFeature(
        "the block at "@ + text::dec(at as nat)
            + " is not reachable from any tree, so there is nothing above it to rewrite"@,
    )
}

/// What has to change with a block: the node that points at it, or for the
/// root of a tree the root tree leaf that names it.
pub open spec fn above(place: Placement, root_visits: Seq<VisitModel>) -> Option<u64> {
    match place.parent {
        Some(parent) => Some(parent),
        None => if place.owner != objectid::ROOT_TREE {
            placements::leaf_naming(root_visits, place.owner, 0)
        } else {
            None
        },
    }
}

/// The blocks that must be rewritten when those in `queue` change, the last
/// of them looked at first, beyond those in `touched`.
#[verifier::opaque]
pub open spec fn touched_from(
    places: Map<u64, Placement>,
    root_visits: Seq<VisitModel>,
    queue: Seq<u64>,
    touched: Seq<u64>,
) -> std::result::Result<Seq<u64>, ErrorView>
    decreases touched.to_set().complement().len(), queue.len(),
{
    if queue.len() == 0 {
        Ok(touched)
    } else {
        let at = queue.last();
        let rest = queue.drop_last();
        proof {
            address_set::lemma_one_less_outside(touched.to_set(), at);
            address_set::lemma_added_set(touched, at);
        }
        if touched.contains(at) {
            touched_from(places, root_visits, rest, touched)
        } else if !places.contains_key(at) {
            Err(unreachable_block(at))
        } else {
            touched_from(
                places,
                root_visits,
                match above(places[at], root_visits) {
                    Some(up) => rest.push(up),
                    None => rest,
                },
                address_set::added(touched, at),
            )
        }
    }
}

/// The first address from `at` on, by whole blocks, that lies in `run` whole
/// and is not in `taken`.
pub open spec fn slot_from(run: FreeExtent, nodesize: u64, at: nat, taken: Set<u64>) -> Option<u64>
    decreases runs::reach(run.start, run.len) - at,
{
    if nodesize == 0 || at + nodesize > runs::reach(run.start, run.len) {
        None
    } else if !taken.contains(at as u64) {
        Some(at as u64)
    } else {
        slot_from(run, nodesize, (at + nodesize) as nat, taken)
    }
}

/// The first free address in the runs `k ..` that is not in `taken`.
pub open spec fn slot_in(list: Seq<FreeExtent>, nodesize: u64, taken: Set<u64>, k: int) -> Option<
    u64,
>
    decreases list.len() - k,
{
    if k < 0 || k >= list.len() {
        None
    } else {
        match slot_from(list[k], nodesize, runs::aligned_up(list[k].start, nodesize), taken) {
            Some(at) => Some(at),
            None => slot_in(list, nodesize, taken, k + 1),
        }
    }
}

/// Somewhere to put a block that is free and not in `taken`.
pub open spec fn free_block(volume: VolumeModel, taken: Set<u64>) -> std::result::Result<
    u64,
    ErrorView,
> {
    let nodesize = volume.sb.nodesize as u64;
    match space::groups_outcome(volume) {
        Err(e) => Err(e),
        Ok(groups) => match space::free_outcome(volume, space::metadata_groups(groups)) {
            Err(e) => Err(e),
            Ok(lists) => match slot_in(space::flattened(lists), nodesize, taken, 0) {
                Some(at) => Ok(at),
                None => Err(
                    ErrorView::UnsupportedFeature(
                        "no metadata block group has room for another "@ + text::dec(
                            nodesize as nat,
                        )
                            + "-byte block; allocating a new block group is not implemented"@,
                    ),
                ),
            },
        },
    }
}

/// The rewrites of the blocks `k ..` of `touched`, each to a home of its own,
/// behind `before`.
pub open spec fn rewrites_from(
    volume: VolumeModel,
    places: Map<u64, Placement>,
    touched: Seq<u64>,
    k: int,
    before: Seq<Rewrite>,
) -> std::result::Result<Seq<Rewrite>, ErrorView>
    decreases touched.len() - k,
{
    if k < 0 || k >= touched.len() {
        Ok(before)
    } else {
        let old = touched[k];
        match free_block(volume, transaction::news(before).to_set()) {
            Err(e) => Err(e),
            Ok(new) => rewrites_from(
                volume,
                places,
                touched,
                k + 1,
                before.push(
                    Rewrite { old, new, owner: places[old].owner, level: places[old].level },
                ),
            ),
        }
    }
}

/// Every block that must be rewritten if those in `dirty` change.
pub open spec fn closure_of(volume: VolumeModel, dirty: Seq<u64>) -> std::result::Result<
    Seq<u64>,
    ErrorView,
> {
    touched_from(
        placements::places_of(volume),
        blocks::visits_of(volume, volume.sb.root),
        dirty,
        Seq::empty(),
    )
}

/// What a transaction that changes the blocks in `dirty` rewrites, and where
/// to.
pub open spec fn plan_outcome(volume: VolumeModel, dirty: Seq<u64>) -> std::result::Result<
    Seq<Rewrite>,
    ErrorView,
> {
    match closure_of(volume, dirty) {
        Err(e) => Err(e),
        Ok(touched) => rewrites_from(
            volume,
            placements::places_of(volume),
            touched,
            0,
            Seq::empty(),
        ),
    }
}

pub(crate) proof fn lemma_touched_step(
    places: Map<u64, Placement>,
    root_visits: Seq<VisitModel>,
    queue: Seq<u64>,
    touched: Seq<u64>,
)
    requires
        queue.len() > 0,
    ensures
        ({
            let at = queue.last();
            let rest = queue.drop_last();
            touched_from(places, root_visits, queue, touched) == if touched.contains(at) {
                touched_from(places, root_visits, rest, touched)
            } else if !places.contains_key(at) {
                Err(unreachable_block(at))
            } else {
                touched_from(
                    places,
                    root_visits,
                    match above(places[at], root_visits) {
                        Some(up) => rest.push(up),
                        None => rest,
                    },
                    address_set::added(touched, at),
                )
            }
        }),
{
    reveal_with_fuel(touched_from, 1);
}

pub(crate) proof fn lemma_touched_done(
    places: Map<u64, Placement>,
    root_visits: Seq<VisitModel>,
    touched: Seq<u64>,
)
    ensures
        touched_from(places, root_visits, Seq::empty(), touched) == Ok::<Seq<u64>, ErrorView>(
            touched,
        ),
{
    reveal_with_fuel(touched_from, 1);
}

/// The first free address in `lists` that is not in `taken`.
fn find_slot(lists: &[Vec<FreeExtent>], nodesize: u64, taken: &BTreeSet<u64>) -> (r: Option<u64>)
    requires
        nodesize > 0,
    ensures
        r == slot_in(space::flattened(space::nested(lists@)), nodesize, taken@, 0),
{
    let ghost all = space::nested(lists@);
    let ghost flat = space::flattened(all);
    let mut i: usize = 0;
    let ghost mut done: int = 0;
    proof {
        assert(all.take(0) =~= Seq::<Seq<FreeExtent>>::empty());
    }
    while i < lists.len()
        invariant
            nodesize > 0,
            i <= lists@.len(),
            all == space::nested(lists@),
            flat == space::flattened(all),
            done == space::flattened(all.take(i as int)).len(),
            slot_in(flat, nodesize, taken@, 0) == slot_in(flat, nodesize, taken@, done),
        decreases lists@.len() - i,
    {
        let list = &lists[i];
        proof {
            space::lemma_flattened_prefix(all, i as int);
            assert(all.take(i + 1).drop_last() =~= all.take(i as int));
            assert(all.take(i + 1).last() == list@);
        }
        let mut k: usize = 0;
        while k < list.len()
            invariant
                nodesize > 0,
                i < lists@.len(),
                k <= list@.len(),
                list@ == all[i as int],
                all == space::nested(lists@),
                flat == space::flattened(all),
                done == space::flattened(all.take(i as int)).len(),
                space::flattened(all.take(i + 1)) == space::flattened(all.take(i as int)) + list@,
                space::flattened(all.take(i + 1)).len() <= flat.len(),
                forall|j: int|
                    0 <= j < space::flattened(all.take(i + 1)).len() ==> #[trigger] flat[j]
                        == space::flattened(all.take(i + 1))[j],
                slot_in(flat, nodesize, taken@, 0) == slot_in(flat, nodesize, taken@, done + k),
            decreases list@.len() - k,
        {
            let run = list[k];
            assert(flat[done + k] == run);
            if let Some(at) = find_in_run(run, nodesize, taken) {
                return Some(at);
            }
            k = k + 1;
        }
        proof {
            done = done + list@.len();
        }
        i = i + 1;
    }
    proof {
        assert(all.take(all.len() as int) =~= all);
    }
    None
}

/// The first whole block of `run` that is not in `taken`.
fn find_in_run(run: FreeExtent, nodesize: u64, taken: &BTreeSet<u64>) -> (r: Option<u64>)
    requires
        nodesize > 0,
    ensures
        r == slot_from(run, nodesize, runs::aligned_up(run.start, nodesize), taken@),
{
    let end: u64 = reached(run.start, run.len);
    let past: u64 = run.start % nodesize;
    let mut at: u64 = if past == 0 {
        run.start
    } else {
        match run.start.checked_add(nodesize - past) {
            Some(at) => at,
            None => return None,
        }
    };
    let ghost first = runs::aligned_up(run.start, nodesize);
    while end >= nodesize && at <= end - nodesize
        invariant
            nodesize > 0,
            end == runs::reach(run.start, run.len),
            slot_from(run, nodesize, first, taken@) == slot_from(
                run,
                nodesize,
                at as nat,
                taken@,
            ),
            first == runs::aligned_up(run.start, nodesize),
        decreases u64::MAX - at,
    {
        if !taken.contains(&at) {
            return Some(at);
        }
        at = at + nodesize;
    }
    None
}

/// Where a leaf begins: its first key. A leaf that holds nothing begins
/// nowhere.
pub open spec fn leaf_start(v: VisitModel) -> Option<DiskKey> {
    if btree::header_of(v.bytes).level == 0 && btree::leaf_items(v.bytes).len() > 0 {
        Some(btree::leaf_items(v.bytes)[0].key)
    } else {
        None
    }
}

/// Whether the leaf `a` begins before the leaf `b`, or at the same key and
/// lies before it.
pub open spec fn leaf_not_after(a: (DiskKey, u64), b: (DiskKey, u64)) -> bool {
    btree::key_less(a.0, b.0) || (a.0 == b.0 && a.1 <= b.1)
}

/// Where a leaf belongs among `leaves` that are in order.
pub open spec fn leaf_place(leaves: Seq<(DiskKey, u64)>, leaf: (DiskKey, u64)) -> int
    decreases leaves.len(),
{
    if leaves.len() == 0 || leaf_not_after(leaves.last(), leaf) {
        leaves.len() as int
    } else {
        leaf_place(leaves.drop_last(), leaf)
    }
}

/// The leaves among `visits`, by where they begin and then by where they lie.
pub open spec fn leaves_in(visits: Seq<VisitModel>) -> Seq<(DiskKey, u64)>
    decreases visits.len(),
{
    if visits.len() == 0 {
        Seq::empty()
    } else {
        let before = leaves_in(visits.drop_last());
        match leaf_start(visits.last()) {
            Some(first) => {
                let leaf = (first, visits.last().at);
                before.insert(leaf_place(before, leaf), leaf)
            },
            None => before,
        }
    }
}

/// Which of `leaves` an insert under `key` lands in: the last one whose first
/// key is not greater, or the first when `key` precedes everything.
pub open spec fn leaf_for(leaves: Seq<(DiskKey, u64)>, key: DiskKey) -> int
    decreases leaves.len(),
{
    if leaves.len() <= 1 {
        0
    } else if !btree::key_less(key, leaves.last().0) {
        leaves.len() - 1
    } else {
        leaf_for(leaves.drop_last(), key)
    }
}

/// `out` with the leaves that inserts under the keys `from ..` land in added.
pub open spec fn landing_from(
    leaves: Seq<(DiskKey, u64)>,
    keys: Seq<DiskKey>,
    from: int,
    out: Seq<u64>,
) -> Seq<u64>
    decreases keys.len() - from,
{
    if from < 0 || from >= keys.len() {
        out
    } else {
        landing_from(
            leaves,
            keys,
            from + 1,
            address_set::added(out, leaves[leaf_for(leaves, keys[from])].1),
        )
    }
}

/// The leaves of the tree rooted at `root` that an insert under each of
/// `keys` would land in.
pub open spec fn landing_leaves(volume: VolumeModel, root: u64, keys: Seq<DiskKey>) -> Seq<u64> {
    let leaves = leaves_in(blocks::visits_of(volume, root));
    if keys.len() == 0 || leaves.len() == 0 {
        Seq::empty()
    } else {
        landing_from(leaves, keys, 0, Seq::empty())
    }
}

/// The key the extent tree files a tree block under.
pub open spec fn record_key(at: u64, level: u8) -> DiskKey {
    DiskKey { objectid: at, key_type: key_type::METADATA_ITEM, offset: level as u64 }
}

/// The keys of the records a plan takes away.
pub open spec fn old_keys(plan: Seq<Rewrite>) -> Seq<DiskKey> {
    plan.map_values(|r: Rewrite| record_key(r.old, r.level))
}

/// The keys of the records a plan adds.
pub open spec fn new_keys(plan: Seq<Rewrite>) -> Seq<DiskKey> {
    plan.map_values(|r: Rewrite| record_key(r.new, r.level))
}

/// The extent tree leaves that hold, or would hold, the records under `keys`.
pub open spec fn extent_leaves(volume: VolumeModel, keys: Seq<DiskKey>) -> std::result::Result<
    Seq<u64>,
    ErrorView,
> {
    match volume.tree_root(objectid::EXTENT_TREE) {
        Err(e) => Err(e),
        Ok(root) => Ok(landing_leaves(volume, root, keys)),
    }
}

/// Those of `addresses` that `group` covers.
pub open spec fn covered(group: BlockGroup, addresses: Seq<u64>) -> Seq<u64>
    decreases addresses.len(),
{
    if addresses.len() == 0 {
        addresses
    } else if group.covers(addresses.last()) {
        covered(group, addresses.drop_last()).push(addresses.last())
    } else {
        covered(group, addresses.drop_last())
    }
}

/// The key of a group's free-space info.
pub open spec fn info_key(group: BlockGroup) -> DiskKey {
    DiskKey { objectid: group.start, key_type: key_type::FREE_SPACE_INFO, offset: group.length }
}

/// The last key a free run at `at` can be filed under, however long it is.
pub open spec fn run_key(at: u64) -> DiskKey {
    DiskKey { objectid: at, key_type: key_type::FREE_SPACE_EXTENT, offset: u64::MAX }
}

/// The keys of free runs at `addresses`.
pub open spec fn run_keys(addresses: Seq<u64>) -> Seq<DiskKey> {
    addresses.map_values(|a: u64| run_key(a))
}

/// The keys of the free-space tree that `addresses` touch: for each group
/// that covers any of them, that of its info and those of runs at the ones it
/// covers.
pub open spec fn space_keys(groups: Seq<BlockGroup>, addresses: Seq<u64>) -> Seq<DiskKey>
    decreases groups.len(),
{
    if groups.len() == 0 {
        Seq::empty()
    } else {
        let before = space_keys(groups.drop_last(), addresses);
        let inside = covered(groups.last(), addresses);
        if inside.len() > 0 {
            before.push(info_key(groups.last())) + run_keys(inside)
        } else {
            before
        }
    }
}

/// The free-space tree leaves that describe any of `addresses`; none where
/// the volume has no free-space tree.
pub open spec fn space_leaves(volume: VolumeModel, addresses: Seq<u64>) -> std::result::Result<
    Seq<u64>,
    ErrorView,
> {
    match volume.root_if_any(objectid::FREE_SPACE_TREE) {
        Err(e) => Err(e),
        Ok(None) => Ok(Seq::empty()),
        Ok(Some(root)) => match space::groups_outcome(volume) {
            Err(e) => Err(e),
            Ok(groups) => Ok(landing_leaves(volume, root, space_keys(groups, addresses))),
        },
    }
}

/// `seed` with the leaves that record the moves of `plan` added.
pub open spec fn widened(volume: VolumeModel, seed: Seq<u64>, plan: Seq<Rewrite>) -> std::result::Result<
    Seq<u64>,
    ErrorView,
> {
    match extent_leaves(volume, old_keys(plan) + new_keys(plan)) {
        Err(e) => Err(e),
        Ok(records) => match space_leaves(
            volume,
            transaction::olds(plan) + transaction::news(plan),
        ) {
            Err(e) => Err(e),
            Ok(cache) => Ok(
                address_set::all_added(address_set::all_added(seed, records, 0), cache, 0),
            ),
        },
    }
}

/// The plan for `seed` and for whatever recording the plan's own moves
/// dirties, reached in at most `left` of `rounds` rounds.
pub open spec fn closed_from(volume: VolumeModel, seed: Seq<u64>, left: nat, rounds: usize) -> std::result::Result<
    Seq<Rewrite>,
    ErrorView,
>
    decreases left,
{
    if left == 0 {
        Err(
            ErrorView::UnsupportedFeature(
                "the transaction did not settle in "@ + text::dec(rounds as nat)
                    + " rounds: recording each round's moves keeps dirtying extent tree leaves that were not already in it. Breaking that needs reservations rather than another iteration"@,
            ),
        )
    } else {
        match plan_outcome(volume, seed) {
            Err(e) => Err(e),
            Ok(plan) => match widened(volume, seed, plan) {
                Err(e) => Err(e),
                Ok(next) => if next.len() == seed.len() {
                    Ok(plan)
                } else {
                    closed_from(volume, next, (left - 1) as nat, rounds)
                },
            },
        }
    }
}

/// The plan for the blocks in `dirty`, closed over its own bookkeeping.
pub open spec fn closed_outcome(volume: VolumeModel, dirty: Seq<u64>, rounds: usize) -> std::result::Result<
    Seq<Rewrite>,
    ErrorView,
> {
    closed_from(
        volume,
        address_set::all_added(Seq::empty(), dirty, 0),
        rounds as nat,
        rounds,
    )
}

/// The leaves among `visits`, in order.
fn collect_leaves(visits: &[Visit], Ghost(volume): Ghost<VolumeModel>) -> (out: Vec<(DiskKey, u64)>)
    requires
        blocks::verified(visits@, volume),
    ensures
        out@ == leaves_in(blocks::visit_models(visits@)),
{
    let ghost all = blocks::visit_models(visits@);
    let mut out: Vec<(DiskKey, u64)> = Vec::new();
    let mut i: usize = 0;
    assert(out@ =~= leaves_in(all.take(0)));
    while i < visits.len()
        invariant
            i <= visits@.len(),
            all == blocks::visit_models(visits@),
            blocks::verified(visits@, volume),
            out@ == leaves_in(all.take(i as int)),
        decreases visits@.len() - i,
    {
        let visit = &visits[i];
        proof {
            blocks::lemma_verified(visits@, volume, i as int);
            assert(all.take(i + 1).drop_last() =~= all.take(i as int));
            assert(all.take(i + 1).last() == visit@);
        }
        if visit.block.header.level == 0 {
            if let Some(items) = visit.block.body.items() {
                if items.len() > 0 {
                    put_leaf(&mut out, (items[0].key, visit.at));
                }
            }
        }
        i = i + 1;
    }
    assert(all.take(all.len() as int) =~= all);
    out
}

/// Put a leaf in its place.
fn put_leaf(out: &mut Vec<(DiskKey, u64)>, leaf: (DiskKey, u64))
    ensures
        final(out)@ == old(out)@.insert(leaf_place(old(out)@, leaf), leaf),
{
    let mut at: usize = out.len();
    assert(out@.take(at as int) =~= out@);
    while at > 0 && !(key_before(&out[at - 1].0, &leaf.0) || (out[at - 1].0 == leaf.0 && out[at
        - 1].1 <= leaf.1))
        invariant
            at <= out@.len(),
            out@ == old(out)@,
            leaf_place(out@, leaf) == leaf_place(out@.take(at as int), leaf),
        decreases at,
    {
        at = at - 1;
        assert(out@.take(at + 1).drop_last() =~= out@.take(at as int));
    }
    out.insert(at, leaf);
}

/// Which of `leaves` an insert under `key` lands in.
fn landing(leaves: &[(DiskKey, u64)], key: &DiskKey) -> (at: usize)
    requires
        leaves@.len() > 0,
    ensures
        at == leaf_for(leaves@, *key),
        at < leaves@.len(),
{
    let mut n: usize = leaves.len();
    assert(leaves@.take(n as int) =~= leaves@);
    while n > 1 && key_before(key, &leaves[n - 1].0)
        invariant
            1 <= n <= leaves@.len(),
            leaf_for(leaves@, *key) == leaf_for(leaves@.take(n as int), *key),
        decreases n,
    {
        n = n - 1;
        assert(leaves@.take(n + 1).drop_last() =~= leaves@.take(n as int));
    }
    n - 1
}

/// Add the keys of runs at those of `addresses` that `group` covers, behind
/// that of its info, to `keys`, if it covers any.
fn add_keys(group: &BlockGroup, addresses: &[u64], keys: &mut Vec<DiskKey>)
    ensures
        final(keys)@ == (if covered(*group, addresses@).len() > 0 {
            old(keys)@.push(info_key(*group)) + run_keys(covered(*group, addresses@))
        } else {
            old(keys)@
        }),
{
    let ghost before = keys@;
    let ghost info = info_key(*group);
    let mut any: bool = false;
    let mut i: usize = 0;
    assert(covered(*group, addresses@.take(0)) =~= Seq::<u64>::empty());
    while i < addresses.len()
        invariant
            i <= addresses@.len(),
            info == info_key(*group),
            any == (covered(*group, addresses@.take(i as int)).len() > 0),
            keys@ == (if any {
                before.push(info) + run_keys(covered(*group, addresses@.take(i as int)))
            } else {
                before
            }),
        decreases addresses@.len() - i,
    {
        let a: u64 = addresses[i];
        let ghost so_far = covered(*group, addresses@.take(i as int));
        assert(addresses@.take(i + 1).drop_last() =~= addresses@.take(i as int));
        assert(addresses@.take(i + 1).last() == a);
        if group.contains(a) {
            if !any {
                keys.push(
                    DiskKey {
                        objectid: group.start,
                        key_type: key_type::FREE_SPACE_INFO,
                        offset: group.length,
                    },
                );
                any = true;
                assert(before.push(info) + run_keys(so_far) =~= before.push(info));
            }
            keys.push(
                DiskKey { objectid: a, key_type: key_type::FREE_SPACE_EXTENT, offset: u64::MAX },
            );
            assert((before.push(info) + run_keys(so_far)).push(run_key(a)) =~= before.push(info)
                + run_keys(so_far.push(a)));
        }
        i = i + 1;
    }
    assert(addresses@.take(addresses@.len() as int) =~= addresses@);
}

/// The keys of the records a plan takes away and adds.
fn changed_keys(plan: &Plan) -> (keys: Vec<DiskKey>)
    ensures
        keys@ == old_keys(plan@) + new_keys(plan@),
{
    let mut keys: Vec<DiskKey> = Vec::new();
    let mut i: usize = 0;
    while i < plan.rewrites.len()
        invariant
            i <= plan@.len(),
            keys@ == old_keys(plan@).take(i as int),
        decreases plan@.len() - i,
    {
        let r = plan.rewrites[i];
        keys.push(
            DiskKey {
                objectid: r.old,
                key_type: key_type::METADATA_ITEM,
                offset: r.level as u64,
            },
        );
        i = i + 1;
        assert(keys@ =~= old_keys(plan@).take(i as int));
    }
    let mut k: usize = 0;
    assert(keys@ =~= old_keys(plan@) + new_keys(plan@).take(0));
    while k < plan.rewrites.len()
        invariant
            k <= plan@.len(),
            keys@ == old_keys(plan@) + new_keys(plan@).take(k as int),
        decreases plan@.len() - k,
    {
        let r = plan.rewrites[k];
        keys.push(
            DiskKey {
                objectid: r.new,
                key_type: key_type::METADATA_ITEM,
                offset: r.level as u64,
            },
        );
        k = k + 1;
        assert(keys@ =~= old_keys(plan@) + new_keys(plan@).take(k as int));
    }
    assert(keys@ =~= old_keys(plan@) + new_keys(plan@));
    keys
}

impl<R: Fn(usize, u64, usize) -> Result<Vec<u8>>> Filesystem<R> {
    /// Work out every block that must be rewritten if `dirty` change.
    ///
    /// The result has `dirty` itself, every ancestor of each up to its tree's
    /// root, and the root tree's own path: when a tree's root moves, the
    /// `ROOT_ITEM` naming it has changed. A block that is not part of any
    /// reachable tree is refused.
    pub fn plan_transaction(&self, dirty: &[u64]) -> (r: Result<Plan>)
        requires
            self.ready(),
        ensures
            self.faithful() ==> crate::error::viewed(r) == plan_outcome(self@.volume, dirty@),
    {
        let places = self.placements();
        let touched = match self.close_over(dirty, &places) {
            Ok(touched) => touched,
            Err(e) => return Err(e),
        };
        // A new home for each, all distinct and none of them somewhere
        // already in use.
        let mut plan = Plan { rewrites: Vec::new() };
        let mut taken: BTreeSet<u64> = BTreeSet::new();
        let list = touched.as_slice();
        let mut i: usize = 0;
        proof {
            assert(plan@ =~= Seq::<Rewrite>::empty());
            assert(taken@ =~= transaction::news(plan@).to_set());
        }
        while i < list.len()
            invariant
                self.ready(),
                i <= list@.len(),
                forall|k: int| 0 <= k < list@.len() ==> places@.contains_key(#[trigger] list@[k]),
                taken@ == transaction::news(plan@).to_set(),
                self.faithful() ==> places@ == placements::places_of(self@.volume),
                self.faithful() ==> plan_outcome(self@.volume, dirty@) == rewrites_from(
                    self@.volume,
                    places@,
                    list@,
                    i as int,
                    plan@,
                ),
            decreases list@.len() - i,
        {
            let old: u64 = list[i];
            assert(places@.contains_key(list@[i as int]));
            let place: Placement = match places.get(&old) {
                Some(place) => *place,
                None => Placement { parent: None, owner: 0, level: 0 },
            };
            let new: u64 = match self.next_free_block(&taken) {
                Ok(new) => new,
                Err(e) => return Err(e),
            };
            let ghost before = plan@;
            taken.insert(new);
            plan.rewrites.push(Rewrite { old, new, owner: place.owner, level: place.level });
            proof {
                let after = transaction::news(plan@);
                assert(after =~= transaction::news(before).push(new));
                assert(after.to_set() =~= transaction::news(before).to_set().insert(new)) by {
                    assert forall|x: u64| after.contains(x) == (transaction::news(before).contains(
                        x,
                    ) || x == new) by {
                        if transaction::news(before).contains(x) {
                            let k = choose|k: int|
                                0 <= k < before.len() && transaction::news(before)[k] == x;
                            assert(after[k] == x);
                        }
                        assert(after[before.len() as int] == new);
                    }
                }
            }
            i = i + 1;
        }
        Ok(plan)
    }

    /// Everything in `dirty`, plus every ancestor, plus the root tree's path
    /// to whichever `ROOT_ITEM` leaf named a root that moved.
    fn close_over(&self, dirty: &[u64], places: &BTreeMap<u64, Placement>) -> (r: Result<
        AddressSet,
    >)
        requires
            self.ready(),
        ensures
            self.faithful() ==> crate::error::viewed(r) == touched_from(
                places@,
                blocks::visits_of(self@.volume, self@.volume.sb.root),
                dirty@,
                Seq::empty(),
            ),
            r matches Ok(touched) ==> touched.ordered() && forall|k: int|
                0 <= k < touched@.len() ==> places@.contains_key(#[trigger] touched@[k]),
    {
        let mut touched = AddressSet::new();
        let mut queue: Vec<u64> = vstd::slice::slice_to_vec(dirty);
        let ghost root_visits = blocks::visits_of(self@.volume, self@.volume.sb.root);
        while queue.len() > 0
            invariant
                self.ready(),
                touched.ordered(),
                forall|k: int|
                    0 <= k < touched@.len() ==> places@.contains_key(#[trigger] touched@[k]),
                root_visits == blocks::visits_of(self@.volume, self@.volume.sb.root),
                self.faithful() ==> touched_from(places@, root_visits, dirty@, Seq::empty())
                    == touched_from(places@, root_visits, queue@, touched@),
            decreases touched@.to_set().complement().len(), queue@.len(),
        {
            let ghost before = queue@;
            let ghost known = touched@;
            let at: u64 = match queue.pop() {
                Some(at) => at,
                None => 0,
            };
            proof {
                assert(queue@ =~= before.drop_last());
                address_set::lemma_one_less_outside(known.to_set(), at);
                address_set::lemma_added_set(known, at);
                address_set::lemma_added(known, at);
                lemma_touched_step(places@, root_visits, before, known);
            }
            if touched.contains(at) {
                continue;
            }
            let place: Placement = match places.get(&at) {
                Some(place) => *place,
                None => return Err(
                    Error::UnsupportedFeature(
                        cat3(
                            Lit("the block at "),
                            Dec(at),
                            Lit(
                                " is not reachable from any tree, so there is nothing above it to rewrite",
                            ),
                        ),
                    ),
                ),
            };
            touched.insert(at);
            proof {
                assert forall|k: int| 0 <= k < touched@.len() implies places@.contains_key(
                    #[trigger] touched@[k],
                ) by {
                    assert(touched@.contains(touched@[k]));
                    if touched@[k] != at {
                        let j = choose|j: int| 0 <= j < known.len() && known[j] == touched@[k];
                        assert(places@.contains_key(known[j]));
                    }
                }
            }
            match place.parent {
                // Not a root: its parent points at it and must change.
                Some(parent) => queue.push(parent),
                None => if place.owner != objectid::ROOT_TREE {
                    // A tree's root: the root tree leaf that names it has
                    // changed.
                    if let Some(leaf) = self.root_item_leaf(place.owner) {
                        queue.push(leaf);
                    }
                },
            }
        }
        proof {
            assert(queue@ =~= Seq::<u64>::empty());
            lemma_touched_done(places@, root_visits, touched@);
        }
        Ok(touched)
    }

    /// Somewhere to put a block that is not already spoken for.
    ///
    /// [`Filesystem::find_metadata_block`] does not record what it hands out;
    /// until a transaction records its allocations, the addresses it has
    /// already chosen are held in `taken`.
    pub fn next_free_block(&self, taken: &BTreeSet<u64>) -> (r: Result<u64>)
        requires
            self.ready(),
        ensures
            self.faithful() ==> crate::error::seen(r) == free_block(self@.volume, taken@),
    {
        let nodesize: u64 = self.volume.sb.nodesize as u64;
        let groups = match self.block_groups() {
            Ok(groups) => keep_metadata(groups.as_slice()),
            Err(e) => return Err(e),
        };
        let lists = match self.free_extents_by_group(groups.as_slice()) {
            Ok(lists) => lists,
            Err(e) => return Err(e),
        };
        match find_slot(lists.as_slice(), nodesize, taken) {
            Some(at) => Ok(at),
            None => Err(
                Error::UnsupportedFeature(
                    cat3(
                        Lit("no metadata block group has room for another "),
                        Dec(nodesize),
                        Lit("-byte block; allocating a new block group is not implemented"),
                    ),
                ),
            ),
        }
    }

    /// Plan a transaction including the extent tree's own rewrite.
    ///
    /// Moving a block means recording the move, and those records live in
    /// extent tree and free-space tree leaves, which are themselves blocks
    /// that must then be rewritten. This closes the plan by iterating: each
    /// round adds the leaves that hold the records for the blocks moved so
    /// far, and plans again. When a round adds nothing the plan is closed.
    pub fn plan_transaction_closed(&self, dirty: &[u64], rounds: usize) -> (r: Result<Plan>)
        requires
            self.ready(),
        ensures
            self.faithful() ==> crate::error::viewed(r) == closed_outcome(
                self@.volume,
                dirty@,
                rounds,
            ),
    {
        let mut seed = AddressSet::new();
        seed.extend(dirty);
        let mut left: usize = rounds;
        while left > 0
            invariant
                self.ready(),
                seed.ordered(),
                self.faithful() ==> closed_outcome(self@.volume, dirty@, rounds) == closed_from(
                    self@.volume,
                    seed@,
                    left as nat,
                    rounds,
                ),
            decreases left,
        {
            let plan = match self.plan_transaction(seed.as_slice()) {
                Ok(plan) => plan,
                Err(e) => return Err(e),
            };
            // Every record that changes: the old addresses lose one, the new
            // ones gain one.
            let changed = changed_keys(&plan);
            let mut moved = plan.released();
            let mut taken = plan.allocated();
            moved.append(&mut taken);
            proof {
                assert(moved@ =~= transaction::olds(plan@) + transaction::news(plan@));
            }
            let before: usize = seed.len();
            let records = match self.extent_leaves_for(changed.as_slice()) {
                Ok(leaves) => leaves,
                Err(e) => return Err(e),
            };
            // The free-space tree tracks the same moves from the other side.
            let cache = match self.free_space_leaves_for(moved.as_slice()) {
                Ok(leaves) => leaves,
                Err(e) => return Err(e),
            };
            seed.extend(records.as_slice());
            seed.extend(cache.as_slice());
            if seed.len() == before {
                return Ok(plan);
            }
            left = left - 1;
        }
        Err(
            Error::UnsupportedFeature(
                cat3(
                    Lit("the transaction did not settle in "),
                    Dec(rounds as u64),
                    Lit(
                        " rounds: recording each round's moves keeps dirtying extent tree leaves that were not already in it. Breaking that needs reservations rather than another iteration",
                    ),
                ),
            ),
        )
    }

    /// The extent tree leaves that hold, or would hold, the records under
    /// `keys`.
    ///
    /// An insert dirties the leaf it lands in even though nothing is filed
    /// under that key yet, and which leaf that is follows the rule a descent
    /// uses: the last leaf whose first key is not greater. A leaf may begin
    /// with a reference to an extent whose record ends the leaf before, so
    /// keys are compared whole.
    pub fn extent_leaves_for(&self, keys: &[DiskKey]) -> (r: Result<AddressSet>)
        requires
            self.ready(),
        ensures
            self.faithful() ==> crate::error::viewed(r) == extent_leaves(self@.volume, keys@),
            r matches Ok(set) ==> set.ordered(),
    {
        match self.tree_root(objectid::EXTENT_TREE) {
            Ok(root) => Ok(self.leaves_holding(root, keys)),
            Err(e) => Err(e),
        }
    }

    /// The leaves of `root` that an insert under each of `keys` would land in.
    pub fn leaves_holding(&self, root: u64, keys: &[DiskKey]) -> (out: AddressSet)
        requires
            self.ready(),
        ensures
            self.faithful() ==> out@ == landing_leaves(self@.volume, root, keys@),
            out.ordered(),
    {
        let mut out = AddressSet::new();
        if keys.len() == 0 {
            return out;
        }
        // Every leaf, by its first key.
        let visits = self.for_each_tree_block(root);
        let leaves = collect_leaves(visits.as_slice(), Ghost(self@.volume));
        if leaves.len() == 0 {
            return out;
        }
        let mut i: usize = 0;
        while i < keys.len()
            invariant
                i <= keys@.len(),
                leaves@.len() > 0,
                out.ordered(),
                landing_from(leaves@, keys@, 0, Seq::empty()) == landing_from(
                    leaves@,
                    keys@,
                    i as int,
                    out@,
                ),
            decreases keys@.len() - i,
        {
            let at: usize = landing(leaves.as_slice(), &keys[i]);
            out.insert(leaves[at].1);
            i = i + 1;
        }
        out
    }

    /// The free-space tree leaves that describe any of `addresses`.
    pub fn free_space_leaves_for(&self, addresses: &[u64]) -> (r: Result<AddressSet>)
        requires
            self.ready(),
        ensures
            self.faithful() ==> crate::error::viewed(r) == space_leaves(
                self@.volume,
                addresses@,
            ),
            r matches Ok(set) ==> set.ordered(),
    {
        let root: u64 = match self.volume.root_if_any(objectid::FREE_SPACE_TREE) {
            Ok(Some(root)) => root,
            Ok(None) => return Ok(AddressSet::new()),
            Err(e) => return Err(e),
        };
        let groups = match self.block_groups() {
            Ok(groups) => groups,
            Err(e) => return Err(e),
        };
        let mut keys: Vec<DiskKey> = Vec::new();
        let mut i: usize = 0;
        assert(keys@ =~= space_keys(groups@.take(0), addresses@));
        while i < groups.len()
            invariant
                i <= groups@.len(),
                keys@ == space_keys(groups@.take(i as int), addresses@),
            decreases groups@.len() - i,
        {
            assert(groups@.take(i + 1).drop_last() =~= groups@.take(i as int));
            assert(groups@.take(i + 1).last() == groups@[i as int]);
            add_keys(&groups[i], addresses, &mut keys);
            i = i + 1;
        }
        assert(groups@.take(groups@.len() as int) =~= groups@);
        Ok(self.leaves_holding(root, keys.as_slice()))
    }
}

} // verus!
