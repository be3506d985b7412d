//! What holds of a plan as a whole.

use vstd::prelude::*;

use crate::address_set;
use crate::block_group::laws as allocation;
use crate::block_group::runs;
use crate::block_group::space;
use crate::block_group::FreeExtent;
use crate::chunk::{block_group as flags, objectid};
use crate::error::ErrorView;
use crate::transaction;
use crate::transaction::blocks;
use crate::transaction::blocks::VisitModel;
use crate::transaction::placements;
use crate::transaction::placements::Placement;
use crate::transaction::planning;
use crate::transaction::Rewrite;
use crate::volume::VolumeModel;

verus! {

/// Whether what has to change with each of `touched` is among `touched` or
/// `queue`, and each of them sits somewhere.
pub open spec fn closing(
    places: Map<u64, Placement>,
    root_visits: Seq<VisitModel>,
    touched: Seq<u64>,
    queue: Seq<u64>,
) -> bool {
    forall|x: u64| #[trigger]
        touched.contains(x) ==> places.contains_key(x) && match planning::above(
            places[x],
            root_visits,
        ) {
            Some(up) => touched.contains(up) || queue.contains(up),
            None => true,
        }
}

proof fn lemma_touched(
    places: Map<u64, Placement>,
    root_visits: Seq<VisitModel>,
    queue: Seq<u64>,
    touched: Seq<u64>,
)
    requires
        address_set::ascending(touched),
        closing(places, root_visits, touched, queue),
    ensures
        planning::touched_from(places, root_visits, queue, touched) matches Ok(all) ==> {
            &&& address_set::ascending(all)
            &&& closing(places, root_visits, all, Seq::empty())
            &&& forall|x: u64| #[trigger] touched.contains(x) ==> all.contains(x)
            &&& forall|x: u64| #[trigger] queue.contains(x) ==> all.contains(x)
        },
    decreases touched.to_set().complement().len(), queue.len(),
{
    if queue.len() == 0 {
        assert(queue =~= Seq::<u64>::empty());
        planning::lemma_touched_done(places, root_visits, touched);
    } else {
        planning::lemma_touched_step(places, root_visits, queue, touched);
        let at = queue.last();
        let rest = queue.drop_last();
        address_set::lemma_one_less_outside(touched.to_set(), at);
        address_set::lemma_added_set(touched, at);
        address_set::lemma_added(touched, at);
        if touched.contains(at) {
            assert forall|x: u64| #[trigger] touched.contains(x) implies places.contains_key(x)
                && match planning::above(places[x], root_visits) {
                Some(up) => touched.contains(up) || rest.contains(up),
                None => true,
            } by {
                if let Some(up) = planning::above(places[x], root_visits) {
                    if !touched.contains(up) {
                        let k = choose|k: int| 0 <= k < queue.len() && queue[k] == up;
                        assert(k < rest.len());
                        assert(rest[k] == up);
                    }
                }
            }
            lemma_touched(places, root_visits, rest, touched);
            lemma_queue_kept(
                queue,
                touched,
                planning::touched_from(places, root_visits, queue, touched),
                rest,
            );
        } else if places.contains_key(at) {
            let next = address_set::added(touched, at);
            let more = match planning::above(places[at], root_visits) {
                Some(up) => rest.push(up),
                None => rest,
            };
            assert forall|x: u64| #[trigger] next.contains(x) implies places.contains_key(x)
                && match planning::above(places[x], root_visits) {
                Some(up) => next.contains(up) || more.contains(up),
                None => true,
            } by {
                if x == at {
                    if let Some(up) = planning::above(places[at], root_visits) {
                        assert(more[rest.len() as int] == up);
                    }
                } else {
                    assert(touched.contains(x));
                    if let Some(up) = planning::above(places[x], root_visits) {
                        if touched.contains(up) {
                            assert(next.contains(up));
                        } else {
                            let k = choose|k: int| 0 <= k < queue.len() && queue[k] == up;
                            if k < rest.len() {
                                assert(more[k] == up);
                            } else {
                                assert(up == at);
                            }
                        }
                    }
                }
            }
            lemma_touched(places, root_visits, more, next);
            let r = planning::touched_from(places, root_visits, queue, touched);
            if let Ok(all) = r {
                assert forall|x: u64| #[trigger] touched.contains(x) implies all.contains(x) by {
                    assert(next.contains(x));
                }
                assert forall|x: u64| #[trigger] queue.contains(x) implies all.contains(x) by {
                    let k = choose|k: int| 0 <= k < queue.len() && queue[k] == x;
                    if k < rest.len() {
                        assert(more[k] == x);
                        assert(more.contains(x));
                    } else {
                        assert(next.contains(at));
                    }
                }
            }
        }
    }
}

proof fn lemma_queue_kept(
    queue: Seq<u64>,
    touched: Seq<u64>,
    r: std::result::Result<Seq<u64>, ErrorView>,
    rest: Seq<u64>,
)
    requires
        queue.len() > 0,
        rest == queue.drop_last(),
        touched.contains(queue.last()),
        r matches Ok(all) ==> (forall|x: u64| #[trigger] touched.contains(x) ==> all.contains(x))
            && (forall|x: u64| #[trigger] rest.contains(x) ==> all.contains(x)),
    ensures
        r matches Ok(all) ==> forall|x: u64| #[trigger] queue.contains(x) ==> all.contains(x),
{
    if let Ok(all) = r {
        assert forall|x: u64| #[trigger] queue.contains(x) implies all.contains(x) by {
            let k = choose|k: int| 0 <= k < queue.len() && queue[k] == x;
            if k < rest.len() {
                assert(rest[k] == x);
                assert(rest.contains(x));
            } else {
                assert(touched.contains(x));
            }
        }
    }
}

proof fn lemma_slot_from(run: FreeExtent, nodesize: u64, at: nat, taken: Set<u64>)
    requires
        nodesize > 0,
        at % (nodesize as nat) == 0,
        run.start <= at,
    ensures
        planning::slot_from(run, nodesize, at, taken) matches Some(x) ==> {
            &&& !taken.contains(x)
            &&& x % nodesize == 0
            &&& run.start <= x
            &&& x + nodesize <= runs::reach(run.start, run.len)
        },
    decreases runs::reach(run.start, run.len) - at,
{
    if at + nodesize <= runs::reach(run.start, run.len) && taken.contains(at as u64) {
        vstd::arithmetic::div_mod::lemma_mod_add_multiples_vanish(at as int, nodesize as int);
        lemma_slot_from(run, nodesize, (at + nodesize) as nat, taken);
    }
}

proof fn lemma_aligned(start: u64, nodesize: u64)
    requires
        nodesize > 0,
    ensures
        runs::aligned_up(start, nodesize) % (nodesize as nat) == 0,
        start <= runs::aligned_up(start, nodesize),
{
    if start % nodesize != 0 {
        let n: int = nodesize as int;
        let q: int = start as int / n;
        vstd::arithmetic::div_mod::lemma_fundamental_div_mod(start as int, n);
        let up: int = runs::aligned_up(start, nodesize) as int;
        assert(up == n * (q + 1)) by (nonlinear_arith)
            requires
                start as int == n * q + start as int % n,
                up == start + (n - start as int % n),
        ;
        vstd::arithmetic::div_mod::lemma_mod_multiples_basic(q + 1, n);
        assert((q + 1) * n == n * (q + 1)) by (nonlinear_arith);
    }
}

proof fn lemma_slot_in(list: Seq<FreeExtent>, nodesize: u64, taken: Set<u64>, k: int)
    requires
        nodesize > 0,
        0 <= k,
    ensures
        planning::slot_in(list, nodesize, taken, k) matches Some(x) ==> !taken.contains(x) && x
            % nodesize == 0 && exists|i: int|
            0 <= i < list.len() && (#[trigger] list[i]).start <= x && x + nodesize <= runs::reach(
                list[i].start,
                list[i].len,
            ),
    decreases list.len() - k,
{
    if k < list.len() {
        let first = runs::aligned_up(list[k].start, nodesize);
        lemma_aligned(list[k].start, nodesize);
        lemma_slot_from(list[k], nodesize, first, taken);
        if planning::slot_from(list[k], nodesize, first, taken) is None {
            lemma_slot_in(list, nodesize, taken, k + 1);
        } else {
            assert(list[k].start <= list[k].start);
        }
    }
}

/// Whether a block at `at` would lie on space that is free: on a boundary,
/// whole inside a group that may hold tree blocks, and on nothing the extent
/// tree says is taken there.
pub open spec fn free_home(volume: VolumeModel, at: u64) -> bool {
    let items = volume.tree_items(objectid::EXTENT_TREE)->Ok_0;
    let groups = space::metadata_groups(space::groups_in(items));
    exists|g: int|
        0 <= g < groups.len() && (#[trigger] groups[g]).flags & flags::METADATA != 0
            && allocation::lies_free(
            at,
            volume.sb.nodesize as u64,
            groups[g],
            runs::by_start(space::taken_in(items, groups, g, volume.sb.nodesize)),
        )
}

/// A block is given a home that is free and not promised to another.
pub proof fn law_a_home_is_free(volume: VolumeModel, taken: Set<u64>)
    requires
        volume.sb.nodesize > 0,
    ensures
        planning::free_block(volume, taken) matches Ok(at) ==> !taken.contains(at) && free_home(
            volume,
            at,
        ),
{
    let nodesize = volume.sb.nodesize as u64;
    if let Ok(at) = planning::free_block(volume, taken) {
        let items = volume.tree_items(objectid::EXTENT_TREE)->Ok_0;
        let groups = space::metadata_groups(space::groups_in(items));
        let lists = space::free_outcome(volume, groups)->Ok_0;
        let flat = space::flattened(lists);
        lemma_slot_in(flat, nodesize, taken, 0);
        let i = choose|i: int|
            0 <= i < flat.len() && (#[trigger] flat[i]).start <= at && at + nodesize
                <= runs::reach(flat[i].start, flat[i].len);
        allocation::lemma_space_in_run(volume, i, at);
    }
}

pub(crate) proof fn lemma_rewrites(
    volume: VolumeModel,
    places: Map<u64, Placement>,
    touched: Seq<u64>,
    k: int,
    before: Seq<Rewrite>,
)
    requires
        volume.sb.nodesize > 0,
        0 <= k <= touched.len(),
        before.len() == k,
        forall|i: int| 0 <= i < k ==> (#[trigger] before[i]).old == touched[i],
        forall|i: int|
            0 <= i < k ==> (#[trigger] before[i]).owner == places[touched[i]].owner
                && before[i].level == places[touched[i]].level && free_home(volume, before[i].new),
        transaction::news(before).no_duplicates(),
    ensures
        planning::rewrites_from(volume, places, touched, k, before) matches Ok(plan) ==> {
            &&& transaction::olds(plan) == touched
            &&& transaction::news(plan).no_duplicates()
            &&& forall|i: int|
                0 <= i < plan.len() ==> (#[trigger] plan[i]).owner == places[plan[i].old].owner
                    && plan[i].level == places[plan[i].old].level && free_home(
                    volume,
                    plan[i].new,
                )
        },
    decreases touched.len() - k,
{
    if k < touched.len() {
        let taken = transaction::news(before).to_set();
        law_a_home_is_free(volume, taken);
        if let Ok(new) = planning::free_block(volume, taken) {
            let old = touched[k];
            let r = Rewrite { old, new, owner: places[old].owner, level: places[old].level };
            let next = before.push(r);
            assert(transaction::news(next) =~= transaction::news(before).push(new));
            assert(!transaction::news(before).contains(new));
            lemma_rewrites(volume, places, touched, k + 1, next);
        }
    } else {
        if let Ok(plan) = planning::rewrites_from(volume, places, touched, k, before) {
            assert(transaction::olds(plan) =~= touched);
        }
    }
}

/// A plan moves everything that changes and everything above it: each block
/// that was asked for, the node that points at each block that moves, and
/// the root tree leaf that names each root that moves. No block is moved
/// twice, no two blocks get one home, and every home is free.
pub proof fn law_a_plan_is_complete(volume: VolumeModel, dirty: Seq<u64>, plan: Seq<Rewrite>)
    requires
        volume.sb.nodesize > 0,
        planning::plan_outcome(volume, dirty) == Ok::<Seq<Rewrite>, ErrorView>(plan),
    ensures
        address_set::ascending(transaction::olds(plan)),
        transaction::news(plan).no_duplicates(),
        forall|x: u64| #[trigger]
            dirty.contains(x) ==> transaction::olds(plan).contains(x),
        closing(
            placements::places_of(volume),
            blocks::visits_of(volume, volume.sb.root),
            transaction::olds(plan),
            Seq::empty(),
        ),
        forall|i: int|
            0 <= i < plan.len() ==> (#[trigger] plan[i]).owner == placements::places_of(
                volume,
            )[plan[i].old].owner && plan[i].level == placements::places_of(
                volume,
            )[plan[i].old].level && free_home(volume, plan[i].new),
{
    let places = placements::places_of(volume);
    let root_visits = blocks::visits_of(volume, volume.sb.root);
    lemma_touched(places, root_visits, dirty, Seq::empty());
    let touched = planning::closure_of(volume, dirty)->Ok_0;
    lemma_rewrites(volume, places, touched, 0, Seq::empty());
}

/// Whether a plan moves no block twice, gives no two blocks one home, and
/// gives every block a home that is free.
pub open spec fn placed_free(volume: VolumeModel, plan: Seq<Rewrite>) -> bool {
    &&& address_set::ascending(transaction::olds(plan))
    &&& transaction::news(plan).no_duplicates()
    &&& forall|i: int| 0 <= i < plan.len() ==> free_home(volume, (#[trigger] plan[i]).new)
}

/// Whether a plan moves each of `leaves`.
#[verifier::opaque]
pub open spec fn all_moved(
    plan: Seq<Rewrite>,
    leaves: std::result::Result<Seq<u64>, ErrorView>,
) -> bool {
    leaves is Ok ==> forall|leaf: u64| #[trigger]
        leaves->Ok_0.contains(leaf) ==> transaction::olds(plan).contains(leaf)
}

/// A leaf among those a plan moves is one it releases.
pub proof fn lemma_all_moved(plan: Seq<Rewrite>, leaves: Seq<u64>, leaf: u64)
    requires
        all_moved(plan, Ok::<Seq<u64>, ErrorView>(leaves)),
        leaves.contains(leaf),
    ensures
        transaction::olds(plan).contains(leaf),
{
    reveal(all_moved);
    let r = Ok::<Seq<u64>, ErrorView>(leaves);
    assert(r->Ok_0.contains(leaf));
}

proof fn lemma_closed(volume: VolumeModel, seed: Seq<u64>, left: nat, rounds: usize)
    requires
        volume.sb.nodesize > 0,
        address_set::ascending(seed),
    ensures
        planning::closed_from(volume, seed, left, rounds) matches Ok(plan) ==> {
            let moved = transaction::olds(plan) + transaction::news(plan);
            let changed = planning::old_keys(plan) + planning::new_keys(plan);
            &&& placed_free(volume, plan)
            &&& forall|x: u64| #[trigger] seed.contains(x) ==> transaction::olds(plan).contains(x)
            &&& all_moved(plan, planning::extent_leaves(volume, changed))
            &&& all_moved(plan, planning::space_leaves(volume, moved))
        },
    decreases left,
{
    if left > 0 {
        if let Ok(plan) = planning::plan_outcome(volume, seed) {
            law_a_plan_is_complete(volume, seed, plan);
            if let Ok(next) = planning::widened(volume, seed, plan) {
                let moved = transaction::olds(plan) + transaction::news(plan);
                let changed = planning::old_keys(plan) + planning::new_keys(plan);
                let records = planning::extent_leaves(volume, changed)->Ok_0;
                let cache = planning::space_leaves(volume, moved)->Ok_0;
                let mid = address_set::all_added(seed, records, 0);
                address_set::lemma_all_added(seed, records, 0);
                address_set::lemma_all_added(mid, cache, 0);
                if next.len() == seed.len() {
                    reveal(all_moved);
                    assert forall|i: int| 0 <= i < records.len() implies transaction::olds(
                        plan,
                    ).contains(#[trigger] records[i]) by {
                        assert(seed.contains(records[i]));
                    }
                    assert forall|i: int| 0 <= i < cache.len() implies transaction::olds(
                        plan,
                    ).contains(#[trigger] cache[i]) by {
                        assert(mid.contains(cache[i]));
                        assert(seed.contains(cache[i]));
                    }
                } else {
                    lemma_closed(volume, next, (left - 1) as nat, rounds);
                    if let Ok(last) = planning::closed_from(volume, seed, left, rounds) {
                        assert forall|x: u64| #[trigger] seed.contains(x) implies transaction::olds(
                            last,
                        ).contains(x) by {
                            assert(mid.contains(x));
                            assert(next.contains(x));
                        }
                    }
                }
            }
        }
    }
}

/// A closed plan rewrites its own records: every leaf that holds, or would
/// hold, the record of an address the plan releases or takes is itself among
/// the blocks the plan moves, in the extent tree and in the free-space tree;
/// and so is every block that was asked for. No block is moved twice, no two
/// get one home, and every home is free.
pub proof fn law_a_closed_plan_rewrites_its_records(
    volume: VolumeModel,
    dirty: Seq<u64>,
    rounds: usize,
)
    requires
        volume.sb.nodesize > 0,
    ensures
        planning::closed_outcome(volume, dirty, rounds) matches Ok(plan) ==> {
            let moved = transaction::olds(plan) + transaction::news(plan);
            let changed = planning::old_keys(plan) + planning::new_keys(plan);
            &&& placed_free(volume, plan)
            &&& forall|i: int|
                0 <= i < dirty.len() ==> transaction::olds(plan).contains(#[trigger] dirty[i])
            &&& all_moved(plan, planning::extent_leaves(volume, changed))
            &&& all_moved(plan, planning::space_leaves(volume, moved))
        },
{
    let seed = address_set::all_added(Seq::empty(), dirty, 0);
    address_set::lemma_all_added(Seq::empty(), dirty, 0);
    lemma_closed(volume, seed, rounds as nat, rounds);
    if let Ok(plan) = planning::closed_outcome(volume, dirty, rounds) {
        assert forall|i: int| 0 <= i < dirty.len() implies transaction::olds(plan).contains(
            #[trigger] dirty[i],
        ) by {
            assert(seed.contains(dirty[i]));
        }
    }
}

} // verus!
