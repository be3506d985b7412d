//! Why a plan moves a tree as a whole.

use vstd::prelude::*;

use crate::address_set;
use crate::block_group::space;
use crate::btree;
use crate::bytes;
use crate::chunk::{key_type, objectid};
use crate::error::ErrorView;
use crate::fs::{root_item, ROOT_ITEM_KEY};
use crate::superblock::MAX_LEVEL;
use crate::transaction;
use crate::transaction::blocks;
use crate::transaction::blocks::VisitModel;
use crate::transaction::laws;
use crate::transaction::placements;
use crate::transaction::placements::Placement;
use crate::transaction::planning;
use crate::transaction::record_laws;
use crate::transaction::relocation;
use crate::transaction::render;
use crate::transaction::Rewrite;
use crate::volume::VolumeModel;

verus! {

/// Whether the extent tree records the tree block at `at`, which lies on a
/// boundary.
pub open spec fn recorded(volume: VolumeModel, at: u64) -> bool {
    let items = volume.tree_items(objectid::EXTENT_TREE)->Ok_0;
    &&& at % (volume.sb.nodesize as u64) == 0
    &&& exists|p: int|
        0 <= p < items.len() && (#[trigger] items[p]).key.objectid == at && items[p].key.key_type
            == key_type::METADATA_ITEM
}

/// Whether the tree `owner`, as far as it is reached from `at`, is known as it
/// lies: every block of it is recorded and known as a block of that tree,
/// every child is known as the child of its node, and every root a root tree
/// leaf names is known to be named there.
pub open spec fn known(
    volume: VolumeModel,
    places: Map<u64, Placement>,
    root_visits: Seq<VisitModel>,
    owner: u64,
    at: u64,
    depth: nat,
) -> bool
    decreases MAX_LEVEL - depth,
{
    &&& recorded(volume, at)
    &&& places.contains_key(at)
    &&& places[at].owner == owner
    &&& volume.block(at) matches Ok(b) ==> {
        &&& btree::header_of(b).level == 0 && owner == objectid::ROOT_TREE ==> forall|k: int|
            0 <= k < btree::leaf_contents(b).len() ==> named_here(
                places,
                root_visits,
                at,
                #[trigger] btree::leaf_contents(b)[k],
            )
        &&& btree::header_of(b).level != 0 && depth < MAX_LEVEL ==> forall|k: int|
            #![trigger btree::node_ptrs(b)[k]]
            0 <= k < btree::node_ptrs(b).len() ==> {
                let child = btree::node_ptrs(b)[k].blockptr;
                &&& known(volume, places, root_visits, owner, child, depth + 1)
                &&& planning::above(places[child], root_visits) == Some(at)
            }
    }
}

/// Whether the root that an item names, if it names one that is known, is
/// known to be named by the leaf at `at`.
pub open spec fn named_here(
    places: Map<u64, Placement>,
    root_visits: Seq<VisitModel>,
    at: u64,
    item: btree::ItemModel,
) -> bool {
    let root = bytes::u64_at(item.data, root_item::BYTENR as int);
    item.key.key_type == ROOT_ITEM_KEY && item.data.len() > root_item::LEVEL
        && places.contains_key(root) ==> planning::above(places[root], root_visits) == Some(at)
}

/// A closed plan is a plan for some set of blocks.
pub proof fn lemma_closed_is_a_plan(
    volume: VolumeModel,
    seed: Seq<u64>,
    left: nat,
    rounds: usize,
) -> (dirty: Seq<u64>)
    ensures
        planning::closed_from(volume, seed, left, rounds) matches Ok(plan)
            ==> planning::plan_outcome(volume, dirty) == Ok::<Seq<Rewrite>, ErrorView>(plan),
    decreases left,
{
    if left == 0 {
        seed
    } else {
        match planning::plan_outcome(volume, seed) {
            Err(_) => seed,
            Ok(plan) => match planning::widened(volume, seed, plan) {
                Err(_) => seed,
                Ok(next) => if next.len() == seed.len() {
                    seed
                } else {
                    lemma_closed_is_a_plan(volume, next, (left - 1) as nat, rounds)
                },
            },
        }
    }
}

/// A block that is recorded shares no address with a home that is free.
proof fn lemma_recorded_clear(volume: VolumeModel, plan: Seq<Rewrite>, at: u64)
    requires
        volume.sb.nodesize > 0,
        laws::placed_free(volume, plan),
        record_laws::groups_apart(
            space::metadata_groups(
                space::groups_in(volume.tree_items(objectid::EXTENT_TREE)->Ok_0),
            ),
        ),
        recorded(volume, at),
    ensures
        relocation::clear_of(volume, plan, at),
{
    let n = volume.sb.nodesize as u64;
    let items = volume.tree_items(objectid::EXTENT_TREE)->Ok_0;
    let p = choose|p: int|
        0 <= p < items.len() && (#[trigger] items[p]).key.objectid == at && items[p].key.key_type
            == key_type::METADATA_ITEM;
    assert forall|i: int| 0 <= i < plan.len() implies {
        ||| at + n <= (#[trigger] plan[i]).new
        ||| plan[i].new + n <= at
    } by {
        let new = plan[i].new;
        assert(laws::free_home(volume, new));
        record_laws::lemma_home_unrecorded(volume, new, p);
        assert(new % n == 0);
        let a: int = at as int;
        let b: int = new as int;
        let m: int = n as int;
        assert(a + m <= b || b + m <= a) by (nonlinear_arith)
            requires
                a % m == 0,
                b % m == 0,
                m > 0,
                a != b,
        {
            let p: int = a / m;
            let q: int = b / m;
            assert(a == m * p && b == m * q);
            assert(p != q);
            if p < q {
                assert(m * (p + 1) <= m * q);
            } else {
                assert(m * (q + 1) <= m * p);
            }
        }
    }
}

proof fn lemma_moved_is_released(plan: Seq<Rewrite>, at: u64)
    requires
        render::moved_to(plan, at) is Some,
    ensures
        transaction::olds(plan).contains(at),
    decreases plan.len(),
{
    let last = plan.len() - 1;
    if plan.last().old == at {
        assert(transaction::olds(plan)[last] == at);
    } else {
        let front = plan.drop_last();
        lemma_moved_is_released(front, at);
        let i = choose|i: int| 0 <= i < front.len() && transaction::olds(front)[i] == at;
        assert(transaction::olds(plan)[i] == at);
    }
}

/// What a plan touches it touches with whatever is above it.
proof fn lemma_above_moved(
    places: Map<u64, Placement>,
    root_visits: Seq<VisitModel>,
    plan: Seq<Rewrite>,
    at: u64,
    up: u64,
)
    requires
        laws::closing(places, root_visits, transaction::olds(plan), Seq::empty()),
        render::moved_to(plan, at) is Some,
        planning::above(places[at], root_visits) == Some(up),
    ensures
        render::moved_to(plan, up) is Some,
{
    lemma_moved_is_released(plan, at);
    assert(transaction::olds(plan).contains(at));
    record_laws::lemma_released_is_moved(plan, up);
}

proof fn lemma_moves_whole(
    volume: VolumeModel,
    plan: Seq<Rewrite>,
    generation: u64,
    places: Map<u64, Placement>,
    root_visits: Seq<VisitModel>,
    owner: u64,
    at: u64,
    depth: nat,
)
    requires
        volume.sb.nodesize > 0,
        laws::placed_free(volume, plan),
        laws::closing(places, root_visits, transaction::olds(plan), Seq::empty()),
        forall|i: int|
            0 <= i < plan.len() ==> (#[trigger] plan[i]).owner == places[plan[i].old].owner,
        record_laws::groups_apart(
            space::metadata_groups(
                space::groups_in(volume.tree_items(objectid::EXTENT_TREE)->Ok_0),
            ),
        ),
        known(volume, places, root_visits, owner, at, depth),
    ensures
        relocation::moves_whole(volume, plan, generation, owner, at, depth),
    decreases MAX_LEVEL - depth,
{
    lemma_recorded_clear(volume, plan, at);
    if let Ok(b) = volume.block(at) {
        if btree::header_of(b).level == 0 {
            let items = btree::leaf_contents(b);
            let f = relocation::carried(owner, plan, generation);
            if render::moved_to(plan, at) is None {
                assert forall|k: int| 0 <= k < items.len() implies f(#[trigger] items[k])
                    == items[k] by {
                    let item = items[k];
                    let root = bytes::u64_at(item.data, root_item::BYTENR as int);
                    if owner == objectid::ROOT_TREE && item.key.key_type == ROOT_ITEM_KEY
                        && item.data.len() > root_item::LEVEL && render::moved_to(
                        plan,
                        root,
                    ) is Some {
                        assert(named_here(places, root_visits, at, item));
                        lemma_moved_is_released(plan, root);
                        assert(transaction::olds(plan).contains(root));
                        lemma_above_moved(places, root_visits, plan, root, at);
                    }
                }
            }
        } else if depth < MAX_LEVEL {
            let ptrs = btree::node_ptrs(b);
            assert forall|k: int| #![trigger ptrs[k]] 0 <= k < ptrs.len() implies {
                &&& relocation::moves_whole(
                    volume,
                    plan,
                    generation,
                    owner,
                    ptrs[k].blockptr,
                    depth + 1,
                )
                &&& render::moved_to(plan, ptrs[k].blockptr) is Some ==> render::moved_to(
                    plan,
                    at,
                ) is Some
            } by {
                let child = ptrs[k].blockptr;
                lemma_moves_whole(
                    volume,
                    plan,
                    generation,
                    places,
                    root_visits,
                    owner,
                    child,
                    depth + 1,
                );
                if render::moved_to(plan, child) is Some {
                    lemma_above_moved(places, root_visits, plan, child, at);
                }
            }
        }
    }
}

/// A plan moves a tree as a whole where the volume knows the tree as it lies:
/// no block of it shares an address with a home the plan gives out, and a
/// block that moves takes along the node that points at it, or the root tree
/// leaf that names it.
pub proof fn law_a_plan_moves_a_tree_whole(
    volume: VolumeModel,
    dirty: Seq<u64>,
    plan: Seq<Rewrite>,
    generation: u64,
    owner: u64,
    root: u64,
)
    requires
        volume.sb.nodesize > 0,
        planning::plan_outcome(volume, dirty) == Ok::<Seq<Rewrite>, ErrorView>(plan),
        record_laws::groups_apart(
            space::metadata_groups(
                space::groups_in(volume.tree_items(objectid::EXTENT_TREE)->Ok_0),
            ),
        ),
        known(
            volume,
            placements::places_of(volume),
            blocks::visits_of(volume, volume.sb.root),
            owner,
            root,
            0,
        ),
    ensures
        relocation::moves_whole(volume, plan, generation, owner, root, 0),
{
    laws::law_a_plan_is_complete(volume, dirty, plan);
    lemma_moves_whole(
        volume,
        plan,
        generation,
        placements::places_of(volume),
        blocks::visits_of(volume, volume.sb.root),
        owner,
        root,
        0,
    );
}

/// A closed plan moves a tree as a whole where a plan does.
pub proof fn law_a_closed_plan_moves_a_tree_whole(
    volume: VolumeModel,
    dirty: Seq<u64>,
    rounds: usize,
    plan: Seq<Rewrite>,
    generation: u64,
    owner: u64,
    root: u64,
)
    requires
        volume.sb.nodesize > 0,
        planning::closed_outcome(volume, dirty, rounds) == Ok::<Seq<Rewrite>, ErrorView>(plan),
        record_laws::groups_apart(
            space::metadata_groups(
                space::groups_in(volume.tree_items(objectid::EXTENT_TREE)->Ok_0),
            ),
        ),
        known(
            volume,
            placements::places_of(volume),
            blocks::visits_of(volume, volume.sb.root),
            owner,
            root,
            0,
        ),
    ensures
        relocation::moves_whole(volume, plan, generation, owner, root, 0),
{
    let seed = lemma_closed_is_a_plan(
        volume,
        address_set::all_added(Seq::empty(), dirty, 0),
        rounds as nat,
        rounds,
    );
    law_a_plan_moves_a_tree_whole(volume, seed, plan, generation, owner, root);
}

/// What a block-by-block walk visits is as it lies.
proof fn lemma_visits_read(
    volume: VolumeModel,
    stack: Seq<(u64, Option<u64>)>,
    seen: Set<u64>,
)
    ensures
        forall|i: int|
            0 <= i < blocks::visits_from(volume, stack, seen).len() ==> volume.block(
                (#[trigger] blocks::visits_from(volume, stack, seen)[i]).at,
            ) == Ok::<Seq<u8>, ErrorView>(blocks::visits_from(volume, stack, seen)[i].bytes),
    decreases seen.complement().len(), stack.len(),
{
    if stack.len() == 0 {
        assert(stack =~= Seq::<(u64, Option<u64>)>::empty());
        blocks::lemma_done(volume, seen);
    } else {
        let (at, parent) = stack.last();
        let rest = stack.drop_last();
        blocks::lemma_step(volume, stack, seen);
        address_set::lemma_one_less_outside(seen, at);
        if at == 0 || seen.contains(at) {
            lemma_visits_read(volume, rest, seen);
        } else if volume.block(at) is Err {
            lemma_visits_read(volume, rest, seen.insert(at));
        } else {
            let b = volume.block(at)->Ok_0;
            let more = rest + blocks::children_of(b, at);
            let later = blocks::visits_from(volume, more, seen.insert(at));
            let all = blocks::visits_from(volume, stack, seen);
            lemma_visits_read(volume, more, seen.insert(at));
            assert forall|i: int| 0 <= i < all.len() implies volume.block((#[trigger] all[i]).at)
                == Ok::<Seq<u8>, ErrorView>(all[i].bytes) by {
                if i > 0 {
                    assert(all[i] == later[i - 1]);
                }
            }
        }
    }
}

/// Whether every block is known by the level it has.
pub open spec fn levels_right(volume: VolumeModel, places: Map<u64, Placement>) -> bool {
    forall|x: u64| #[trigger]
        places.contains_key(x) ==> (volume.block(x) matches Ok(b) ==> btree::header_of(b).level
            == places[x].level)
}

proof fn lemma_noted_levels(
    volume: VolumeModel,
    visits: Seq<VisitModel>,
    from: int,
    out: Map<u64, Placement>,
    roots: Seq<u64>,
)
    requires
        0 <= from,
        levels_right(volume, out),
        forall|i: int|
            0 <= i < visits.len() ==> volume.block((#[trigger] visits[i]).at) == Ok::<
                Seq<u8>,
                ErrorView,
            >(visits[i].bytes),
    ensures
        levels_right(volume, placements::noted(visits, from, out, roots).0),
    decreases visits.len() - from,
{
    if from < visits.len() {
        let v = visits[from];
        let next = out.insert(v.at, placements::place_of(v));
        lemma_noted_levels(
            volume,
            visits,
            from + 1,
            next,
            placements::roots_at(v, next.dom(), roots),
        );
    }
}

proof fn lemma_placed_levels(volume: VolumeModel, roots: Seq<u64>, out: Map<u64, Placement>)
    requires
        levels_right(volume, out),
    ensures
        levels_right(volume, placements::placed_from(volume, roots, out)),
    decreases
            out.dom().complement().len(),
            placements::known_count(roots, out.dom()),
            roots.len(),
{
    reveal_with_fuel(placements::placed_from, 1);
    if roots.len() > 0 {
        let root = roots.last();
        let rest = roots.drop_last();
        if root == 0 {
            lemma_placed_levels(volume, rest, out);
        } else {
            let visits = blocks::visits_of(volume, root);
            let (next, found) = placements::noted(visits, 0, out, Seq::empty());
            blocks::lemma_first_visit(volume, root);
            placements::lemma_progress(visits, root, roots, out);
            lemma_visits_read(volume, seq![(root, None)], Set::empty());
            lemma_noted_levels(volume, visits, 0, out, Seq::empty());
            lemma_placed_levels(volume, rest + found, next);
        }
    }
}

/// A plan names every block by its own level, and takes no address that a
/// pointer cannot name unless a group that may hold tree blocks starts there.
pub proof fn law_a_plan_is_well_placed(volume: VolumeModel, dirty: Seq<u64>, plan: Seq<Rewrite>)
    requires
        volume.sb.nodesize > 0,
        planning::plan_outcome(volume, dirty) == Ok::<Seq<Rewrite>, ErrorView>(plan),
        ({
            let items = volume.tree_items(objectid::EXTENT_TREE)->Ok_0;
            let groups = space::metadata_groups(space::groups_in(items));
            forall|g: int| 0 <= g < groups.len() ==> (#[trigger] groups[g]).start > 0
        }),
    ensures
        relocation::well_placed(volume, plan),
{
    let places = placements::places_of(volume);
    laws::law_a_plan_is_complete(volume, dirty, plan);
    lemma_placed_levels(volume, seq![volume.sb.root], Map::empty());
    assert forall|i: int| 0 <= i < plan.len() implies (#[trigger] plan[i]).new != 0 && (
    volume.block(plan[i].old) matches Ok(b) ==> btree::header_of(b).level == plan[i].level) by {
        assert(laws::free_home(volume, plan[i].new));
        assert(transaction::olds(plan)[i] == plan[i].old);
        assert(transaction::olds(plan).contains(plan[i].old));
        assert(places.contains_key(plan[i].old));
    }
}

} // verus!
