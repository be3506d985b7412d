//! What a plan moves and what is recorded of it.

use vstd::prelude::*;

use crate::address_set;
use crate::block_group::key_laws;
use crate::block_group::space;
use crate::block_group::BlockGroup;
use crate::btree;
use crate::btree::{Image, ItemModel};
use crate::bytes;
use crate::chunk::DiskKey;
use crate::error::ErrorView;
use crate::transaction;
use crate::transaction::blocks;
use crate::transaction::blocks::VisitModel;
use crate::transaction::laws;
use crate::transaction::placements;
use crate::transaction::placements::Placement;
use crate::transaction::planning;
use crate::transaction::record_laws;
use crate::transaction::relocation;
use crate::transaction::render;
use crate::transaction::Rewrite;
use crate::volume::VolumeModel;

verus! {

/// Whether `x` is the record of a tree block that lies at `at`, belongs to
/// tree `owner` and was written in `generation`: filed under the address and
/// the level, with one reference, the mark of a tree block, and the owner as
/// what refers to it.
pub open spec fn records_block(
    x: ItemModel,
    at: u64,
    level: u8,
    generation: u64,
    owner: u64,
) -> bool {
    &&& x.key.objectid == at
    &&& x.key.key_type == 169
    &&& x.key.offset == level
    &&& x.data.len() == 33
    &&& bytes::u64_at(x.data, 0) == 1
    &&& bytes::u64_at(x.data, 8) == generation
    &&& bytes::u64_at(x.data, 16) == 2
    &&& x.data[24] == 176
    &&& bytes::u64_at(x.data, 25) == owner
}

proof fn lemma_number_behind(a: Seq<u8>, v: u64, c: Seq<u8>)
    ensures
        bytes::u64_at(a + bytes::u64_bytes(v) + c, a.len() as int) == v,
        bytes::u64_bytes(v).len() == 8,
{
    bytes::laws::law_a_written_number_is_read(v, 0);
    let all = a + bytes::u64_bytes(v) + c;
    bytes::lemma_u64_local(bytes::u64_bytes(v), all, 0, a.len() as int);
}

proof fn lemma_record(r: Rewrite, generation: u64)
    ensures
        records_block(record_laws::new_item(r, generation), r.new, r.level, generation, r.owner),
{
    let x = record_laws::new_item(r, generation);
    let one = bytes::u64_bytes(1);
    let gen = bytes::u64_bytes(generation);
    let flag = bytes::u64_bytes(2);
    let kind = seq![176u8];
    let owner = bytes::u64_bytes(r.owner);
    let none = Seq::<u8>::empty();
    lemma_number_behind(none, 1, gen + flag + kind + owner);
    lemma_number_behind(one, generation, flag + kind + owner);
    lemma_number_behind(one + gen, 2, kind + owner);
    lemma_number_behind(one + gen + flag + kind, r.owner, none);
    assert(x.data =~= none + one + (gen + flag + kind + owner));
    assert(x.data =~= one + gen + (flag + kind + owner));
    assert(x.data =~= one + gen + flag + (kind + owner));
    assert(x.data =~= one + gen + flag + kind + owner + none);
}

/// Once a closed plan has been carried out, the extent tree has the record of
/// each block at its new address and none at its old one, unless that is
/// another's new address; every other item is there as it was, and there is
/// no other.
pub proof fn law_the_extent_tree_records_each_move(
    volume: VolumeModel,
    dirty: Seq<u64>,
    rounds: usize,
    plan: Seq<Rewrite>,
    generation: u64,
    after: Image,
    root: u64,
)
    requires
        record_laws::extents_sound(volume, root),
        record_laws::extents_moved(volume, dirty, rounds, plan, generation, after, root),
    ensures
        ({
            let before = volume.walk(root).items;
            let s = btree::walk_from(
                after,
                volume.geometry(),
                relocation::relocated(plan, root),
                None,
                0,
            );
            &&& s.fault is None
            &&& forall|i: int|
                0 <= i < plan.len() ==> exists|x: ItemModel| #[trigger]
                    s.items.contains(x) && records_block(
                        x,
                        (#[trigger] plan[i]).new,
                        plan[i].level,
                        generation,
                        plan[i].owner,
                    )
            &&& forall|x: ItemModel| #[trigger]
                before.contains(x) && !releases(plan, x.key) ==> s.items.contains(x)
            &&& forall|x: ItemModel| #[trigger]
                s.items.contains(x) ==> (before.contains(x) && !releases(plan, x.key)) || exists|
                    i: int,
                |
                    0 <= i < plan.len() && records_block(
                        x,
                        (#[trigger] plan[i]).new,
                        plan[i].level,
                        generation,
                        plan[i].owner,
                    )
        }),
{
    let before = volume.walk(root).items;
    let s = btree::walk_from(
        after,
        volume.geometry(),
        relocation::relocated(plan, root),
        None,
        0,
    );
    record_laws::law_the_extent_tree_follows_the_plan(
        volume,
        dirty,
        rounds,
        plan,
        generation,
        after,
        root,
    );
    assert forall|i: int| 0 <= i < plan.len() implies exists|x: ItemModel| #[trigger]
        s.items.contains(x) && records_block(
            x,
            (#[trigger] plan[i]).new,
            plan[i].level,
            generation,
            plan[i].owner,
        ) by {
        let x = record_laws::new_item(plan[i], generation);
        lemma_record(plan[i], generation);
        assert(record_laws::recorded_after(before, plan, generation, x));
        assert(s.items.contains(x));
    }
    assert forall|x: ItemModel| #[trigger]
        before.contains(x) && !releases(plan, x.key) implies s.items.contains(x) by {
        assert forall|i: int| 0 <= i < plan.len() implies x.key != render::old_record(
            #[trigger] plan[i],
            generation,
        ).filed_under() by {}
        assert(record_laws::recorded_after(before, plan, generation, x));
    }
    assert forall|x: ItemModel| #[trigger] s.items.contains(x) implies (before.contains(x)
        && !releases(plan, x.key)) || exists|i: int|
        0 <= i < plan.len() && records_block(
            x,
            (#[trigger] plan[i]).new,
            plan[i].level,
            generation,
            plan[i].owner,
        ) by {
        assert(record_laws::recorded_after(before, plan, generation, x));
        if exists|i: int|
            0 <= i < plan.len() && x == record_laws::new_item(#[trigger] plan[i], generation) {
            let i = choose|i: int|
                0 <= i < plan.len() && x == record_laws::new_item(#[trigger] plan[i], generation);
            lemma_record(plan[i], generation);
        } else {
            if releases(plan, x.key) {
                let i = choose|i: int|
                    0 <= i < plan.len() && x.key.objectid == (#[trigger] plan[i]).old
                        && x.key.key_type == 169 && x.key.offset == plan[i].level;
                assert(x.key == render::old_record(plan[i], generation).filed_under());
            }
        }
    }
}

/// Whether `key` is that of the record of a block's old address.
pub open spec fn releases(plan: Seq<Rewrite>, key: DiskKey) -> bool {
    exists|i: int|
        0 <= i < plan.len() && key.objectid == (#[trigger] plan[i]).old && key.key_type == 169
            && key.offset == plan[i].level
}

/// Whether every one of `all` was asked for or stands above another of them.
pub open spec fn called_for(
    places: Map<u64, Placement>,
    root_visits: Seq<VisitModel>,
    asked: Seq<u64>,
    all: Seq<u64>,
) -> bool {
    forall|x: u64| #[trigger]
        all.contains(x) ==> asked.contains(x) || exists|y: u64| #[trigger]
            all.contains(y) && planning::above(places[y], root_visits) == Some(x)
}

proof fn lemma_called_for(
    places: Map<u64, Placement>,
    root_visits: Seq<VisitModel>,
    asked: Seq<u64>,
    queue: Seq<u64>,
    touched: Seq<u64>,
)
    requires
        address_set::ascending(touched),
        called_for(places, root_visits, asked, touched),
        forall|x: u64| #[trigger]
            queue.contains(x) ==> asked.contains(x) || exists|y: u64| #[trigger]
                touched.contains(y) && planning::above(places[y], root_visits) == Some(x),
    ensures
        planning::touched_from(places, root_visits, queue, touched) matches Ok(all) ==> called_for(
            places,
            root_visits,
            asked,
            all,
        ),
    decreases touched.to_set().complement().len(), queue.len(),
{
    if queue.len() == 0 {
        assert(queue =~= Seq::<u64>::empty());
        planning::lemma_touched_done(places, root_visits, touched);
    } else {
        planning::lemma_touched_step(places, root_visits, queue, touched);
        let at = queue.last();
        let rest = queue.drop_last();
        address_set::lemma_one_less_outside(touched.to_set(), at);
        address_set::lemma_added_set(touched, at);
        address_set::lemma_added(touched, at);
        assert forall|x: u64| #[trigger] rest.contains(x) implies queue.contains(x) by {
            let k = choose|k: int| 0 <= k < rest.len() && rest[k] == x;
            assert(queue[k] == x);
        }
        assert(queue.contains(at)) by {
            assert(queue[queue.len() - 1] == at);
        }
        if touched.contains(at) {
            lemma_called_for(places, root_visits, asked, rest, touched);
        } else if places.contains_key(at) {
            let next = address_set::added(touched, at);
            let more = match planning::above(places[at], root_visits) {
                Some(up) => rest.push(up),
                None => rest,
            };
            assert forall|x: u64| #[trigger] touched.contains(x) implies next.contains(x) by {}
            assert(next.contains(at));
            assert forall|x: u64| #[trigger] next.contains(x) implies asked.contains(x)
                || exists|y: u64| #[trigger]
                next.contains(y) && planning::above(places[y], root_visits) == Some(x) by {
                if !asked.contains(x) {
                    assert(touched.contains(x) || x == at);
                    let y = choose|y: u64| #[trigger]
                        touched.contains(y) && planning::above(places[y], root_visits) == Some(x);
                    assert(next.contains(y));
                }
            }
            assert forall|x: u64| #[trigger] more.contains(x) implies asked.contains(x)
                || exists|y: u64| #[trigger]
                next.contains(y) && planning::above(places[y], root_visits) == Some(x) by {
                let k = choose|k: int| 0 <= k < more.len() && more[k] == x;
                if k < rest.len() {
                    assert(rest[k] == x);
                    assert(rest.contains(x));
                    if !asked.contains(x) {
                        let y = choose|y: u64| #[trigger]
                            touched.contains(y) && planning::above(places[y], root_visits) == Some(
                                x,
                            );
                        assert(next.contains(y));
                    }
                } else {
                    assert(next.contains(at));
                }
            }
            lemma_called_for(places, root_visits, asked, more, next);
        }
    }
}

/// A plan moves nothing without a reason: each block it moves was asked for,
/// or points at or names another that it moves.
pub proof fn law_a_plan_moves_no_more_than_it_has_to(
    volume: VolumeModel,
    dirty: Seq<u64>,
    plan: Seq<Rewrite>,
)
    requires
        volume.sb.nodesize > 0,
        planning::plan_outcome(volume, dirty) == Ok::<Seq<Rewrite>, ErrorView>(plan),
    ensures
        called_for(
            placements::places_of(volume),
            blocks::visits_of(volume, volume.sb.root),
            dirty,
            transaction::olds(plan),
        ),
{
    let places = placements::places_of(volume);
    let root_visits = blocks::visits_of(volume, volume.sb.root);
    lemma_called_for(places, root_visits, dirty, dirty, Seq::empty());
    let touched = planning::closure_of(volume, dirty)->Ok_0;
    laws::lemma_rewrites(volume, places, touched, 0, Seq::empty());
}

/// Whether a tree block at `at` would lie on a boundary, inside a group for
/// metadata, and where no key of the extent tree records anything.
#[verifier::opaque]
pub open spec fn roomy(volume: VolumeModel, at: u64) -> bool {
    exists|group: BlockGroup| #[trigger]
        key_laws::has_room(volume.tree_items(2)->Ok_0, volume.sb.nodesize, group, at)
}

proof fn lemma_roomy(volume: VolumeModel, at: u64)
    requires
        volume.sb.nodesize > 0,
        laws::free_home(volume, at),
        key_laws::groups_apart(
            space::metadata_groups(space::groups_in(volume.tree_items(2)->Ok_0)),
        ),
    ensures
        roomy(volume, at),
{
    reveal(roomy);
    key_laws::lemma_free_home(volume, at);
}

proof fn lemma_apart(plan: Seq<Rewrite>)
    requires
        address_set::ascending(transaction::olds(plan)),
        transaction::news(plan).no_duplicates(),
    ensures
        forall|i: int, j: int|
            0 <= i < j < plan.len() ==> (#[trigger] plan[i]).new != (#[trigger] plan[j]).new,
        forall|i: int, j: int|
            0 <= i < j < plan.len() ==> (#[trigger] plan[i]).old < (#[trigger] plan[j]).old,
{
    let news = transaction::news(plan);
    let olds = transaction::olds(plan);
    assert forall|i: int, j: int| 0 <= i < j < plan.len() implies (#[trigger] plan[i]).new != (
    #[trigger] plan[j]).new by {
        assert(news[i] == plan[i].new && news[j] == plan[j].new);
    }
    assert forall|i: int, j: int| 0 <= i < j < plan.len() implies (#[trigger] plan[i]).old < (
    #[trigger] plan[j]).old by {
        assert(olds[i] == plan[i].old && olds[j] == plan[j].old);
    }
}

proof fn lemma_homes(volume: VolumeModel, plan: Seq<Rewrite>, i: int)
    requires
        volume.sb.nodesize > 0,
        key_laws::groups_apart(
            space::metadata_groups(space::groups_in(volume.tree_items(2)->Ok_0)),
        ),
        laws::placed_free(volume, plan),
        0 <= i < plan.len(),
    ensures
        roomy(volume, plan[i].new),
{
    assert(laws::free_home(volume, plan[i].new));
    lemma_roomy(volume, plan[i].new);
}

/// Every block a plan moves gets a home where no key of the extent tree
/// records anything; no two get the same, and none is moved twice.
pub proof fn law_every_home_is_unrecorded(volume: VolumeModel, dirty: Seq<u64>, rounds: usize, i: int)
    requires
        volume.sb.nodesize > 0,
        key_laws::groups_apart(
            space::metadata_groups(space::groups_in(volume.tree_items(2)->Ok_0)),
        ),
        planning::closed_outcome(volume, dirty, rounds) matches Ok(plan) && 0 <= i < plan.len(),
    ensures
        ({
            let plan = planning::closed_outcome(volume, dirty, rounds)->Ok_0;
            &&& roomy(volume, plan[i].new)
            &&& forall|j: int, k: int|
                0 <= j < k < plan.len() ==> (#[trigger] plan[j]).new != (#[trigger] plan[k]).new
            &&& forall|j: int, k: int|
                0 <= j < k < plan.len() ==> (#[trigger] plan[j]).old < (#[trigger] plan[k]).old
        }),
{
    let plan = planning::closed_outcome(volume, dirty, rounds)->Ok_0;
    laws::law_a_closed_plan_rewrites_its_records(volume, dirty, rounds);
    lemma_homes(volume, plan, i);
    lemma_apart(plan);
}

} // verus!
