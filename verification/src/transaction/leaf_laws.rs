//! Which leaves the records of a plan belong in.

use vstd::prelude::*;

use crate::block_group::space;
use crate::block_group::BlockGroup;
use crate::btree;
use crate::btree::layout_laws as layout;
use crate::chunk::DiskKey;
use crate::error::ErrorView;
use crate::transaction::blocks;
use crate::transaction::blocks::VisitModel;
use crate::transaction::leaf_lists;
use crate::transaction::planning;
use crate::transaction::Rewrite;
use crate::volume::VolumeModel;

verus! {

/// Whether a block that was visited lies at `at` and is a leaf whose first key
/// is `first`.
pub open spec fn leaf_at(visits: Seq<VisitModel>, first: DiskKey, at: u64) -> bool {
    exists|i: int|
        0 <= i < visits.len() && (#[trigger] visits[i]).at == at && visits[i].bytes[100] == 0
            && layout::count(visits[i].bytes) > 0 && layout::entry(visits[i].bytes, 0).key == first
}

/// Whether a leaf comes at or before another, by first key and then by
/// address.
pub open spec fn comes_by(first: DiskKey, at: u64, other: DiskKey, there: u64) -> bool {
    btree::key_less(first, other) || (first == other && at <= there)
}

/// Whether of the leaves visited the one at `at` is where `key` belongs: the
/// last that does not begin behind it, or the first of all where every one
/// does.
pub open spec fn takes(visits: Seq<VisitModel>, key: DiskKey, at: u64) -> bool {
    exists|first: DiskKey| #[trigger]
        leaf_at(visits, first, at) && {
            ||| !btree::key_less(key, first) && forall|other: DiskKey, there: u64| #[trigger]
                leaf_at(visits, other, there) && !btree::key_less(key, other) ==> comes_by(
                    other,
                    there,
                    first,
                    at,
                )
            ||| forall|other: DiskKey, there: u64| #[trigger]
                leaf_at(visits, other, there) ==> btree::key_less(key, other) && comes_by(
                    first,
                    at,
                    other,
                    there,
                )
        }
}

proof fn lemma_leaf_at(visits: Seq<VisitModel>, first: DiskKey, at: u64)
    ensures
        leaf_at(visits, first, at) <==> leaf_lists::begins(visits, (first, at)),
{
    assert forall|i: int| 0 <= i < visits.len() implies (planning::leaf_start(
        #[trigger] visits[i],
    ) == Some(first) <==> visits[i].bytes[100] == 0 && layout::count(visits[i].bytes) > 0
        && layout::entry(visits[i].bytes, 0).key == first) by {
        let b = visits[i].bytes;
        layout::law_a_block_holds_what_it_lists(b);
        if layout::count(b) > 0 {
            assert(btree::leaf_contents(b)[0] == layout::entry(b, 0));
            assert(btree::leaf_contents(b)[0].key == btree::leaf_items(b)[0].key);
        }
    }
    if leaf_at(visits, first, at) {
        let i = choose|i: int|
            0 <= i < visits.len() && (#[trigger] visits[i]).at == at && visits[i].bytes[100] == 0
                && layout::count(visits[i].bytes) > 0 && layout::entry(visits[i].bytes, 0).key
                == first;
        assert(planning::leaf_start(visits[i]) == Some(first));
    }
    if leaf_lists::begins(visits, (first, at)) {
        let i = choose|i: int|
            0 <= i < visits.len() && planning::leaf_start(#[trigger] visits[i]) == Some(first)
                && visits[i].at == at;
        assert(visits[i].at == at);
    }
}

proof fn lemma_takes(visits: Seq<VisitModel>, key: DiskKey)
    requires
        planning::leaves_in(visits).len() > 0,
    ensures
        forall|at: u64| #[trigger]
            takes(visits, key, at) <==> at == planning::leaves_in(visits)[planning::leaf_for(
                planning::leaves_in(visits),
                key,
            )].1,
{
    let leaves = planning::leaves_in(visits);
    let p = planning::leaf_for(leaves, key);
    leaf_lists::lemma_leaves_in(visits);
    leaf_lists::lemma_leaf_for(leaves, key);
    let (f, a) = leaves[p];
    assert(leaves.contains((f, a)));
    lemma_leaf_at(visits, f, a);
    assert(leaf_at(visits, f, a));
    assert forall|other: DiskKey, there: u64| #[trigger] leaf_at(visits, other, there) implies {
        &&& !btree::key_less(key, f) && !btree::key_less(key, other) ==> comes_by(
            other,
            there,
            f,
            a,
        )
        &&& btree::key_less(key, f) ==> btree::key_less(key, other) && comes_by(f, a, other, there)
    } by {
        lemma_leaf_at(visits, other, there);
        assert(leaves.contains((other, there)));
        let j = choose|j: int| 0 <= j < leaves.len() && leaves[j] == (other, there);
        if j < p {
            assert(planning::leaf_not_after(leaves[j], leaves[p]));
        } else if p < j {
            assert(planning::leaf_not_after(leaves[p], leaves[j]));
        }
    }
    assert(takes(visits, key, a));
    assert forall|at: u64| #[trigger] takes(visits, key, at) implies at == a by {
        let first = choose|first: DiskKey| #[trigger]
            leaf_at(visits, first, at) && {
                ||| !btree::key_less(key, first) && forall|other: DiskKey, there: u64| #[trigger]
                    leaf_at(visits, other, there) && !btree::key_less(key, other) ==> comes_by(
                        other,
                        there,
                        first,
                        at,
                    )
                ||| forall|other: DiskKey, there: u64| #[trigger]
                    leaf_at(visits, other, there) ==> btree::key_less(key, other) && comes_by(
                        first,
                        at,
                        other,
                        there,
                    )
            };
        assert(leaf_at(visits, first, at));
        assert(leaf_at(visits, f, a));
    }
}

/// The leaves that items under given keys go into are those each key belongs
/// in; there are none where the tree has no leaf that holds anything.
pub proof fn law_a_key_goes_where_it_belongs(
    volume: VolumeModel,
    root: u64,
    keys: Seq<DiskKey>,
    at: u64,
)
    ensures
        planning::landing_leaves(volume, root, keys).contains(at) <==> exists|i: int|
            0 <= i < keys.len() && takes(
                blocks::visits_of(volume, root),
                #[trigger] keys[i],
                at,
            ),
{
    let visits = blocks::visits_of(volume, root);
    let leaves = planning::leaves_in(visits);
    if leaves.len() == 0 {
        leaf_lists::lemma_leaves_in(visits);
        assert forall|i: int| 0 <= i < keys.len() implies !takes(visits, #[trigger] keys[i], at) by {
            if takes(visits, keys[i], at) {
                let first = choose|first: DiskKey| #[trigger] leaf_at(visits, first, at);
                assert(leaf_at(visits, first, at));
                lemma_leaf_at(visits, first, at);
                assert(leaves.contains((first, at)));
            }
        }
    } else {
        leaf_lists::lemma_landing_from(leaves, keys, 0, Seq::empty());
        assert forall|i: int| 0 <= i < keys.len() implies (takes(visits, #[trigger] keys[i], at)
            <==> leaves[planning::leaf_for(leaves, keys[i])].1 == at) by {
            lemma_takes(visits, keys[i]);
        }
    }
}

/// The records of a plan are filed in the extent tree, tree 2, under the
/// address of each block and its level, for where it was and for where it
/// goes.
pub proof fn law_a_plan_is_recorded_under_its_addresses(
    volume: VolumeModel,
    plan: Seq<Rewrite>,
    root: u64,
)
    requires
        volume.tree_root(2) == Ok::<u64, ErrorView>(root),
    ensures
        planning::old_keys(plan).len() == plan.len(),
        planning::new_keys(plan).len() == plan.len(),
        forall|i: int|
            0 <= i < plan.len() ==> {
                &&& #[trigger] planning::old_keys(plan)[i] == (DiskKey {
                    objectid: plan[i].old,
                    key_type: 169,
                    offset: plan[i].level as u64,
                })
                &&& #[trigger] planning::new_keys(plan)[i] == (DiskKey {
                    objectid: plan[i].new,
                    key_type: 169,
                    offset: plan[i].level as u64,
                })
            },
        forall|keys: Seq<DiskKey>|
            #![trigger planning::extent_leaves(volume, keys)]
            planning::extent_leaves(volume, keys) == Ok::<Seq<u64>, ErrorView>(
                planning::landing_leaves(volume, root, keys),
            ),
{
}

/// Whether `key` is one under which the free-space tree files what it says of
/// the address `a` in `group`: the group's own, or that of a run at `a`.
pub open spec fn tells_of(group: BlockGroup, a: u64, key: DiskKey) -> bool {
    group.start <= a < group.start + group.length && (key == (DiskKey {
        objectid: group.start,
        key_type: 198,
        offset: group.length,
    }) || key == (DiskKey { objectid: a, key_type: 199, offset: 0xFFFF_FFFF_FFFF_FFFF }))
}

proof fn lemma_covered(group: BlockGroup, addresses: Seq<u64>)
    ensures
        forall|a: u64| #[trigger]
            planning::covered(group, addresses).contains(a) <==> addresses.contains(a)
                && group.covers(a),
    decreases addresses.len(),
{
    if addresses.len() > 0 {
        let front = addresses.drop_last();
        let last = addresses.last();
        let before = planning::covered(group, front);
        lemma_covered(group, front);
        assert forall|a: u64| #[trigger]
            planning::covered(group, addresses).contains(a) <==> addresses.contains(a)
                && group.covers(a) by {
            assert(addresses =~= front.push(last));
            lemma_pushed(front, last, a);
            lemma_pushed(before, last, a);
            assert(before.contains(a) <==> front.contains(a) && group.covers(a));
        }
    }
}

proof fn lemma_pushed(s: Seq<u64>, last: u64, a: u64)
    ensures
        s.push(last).contains(a) <==> s.contains(a) || a == last,
{
    assert(s.push(last)[s.len() as int] == last);
    if s.contains(a) {
        let i = choose|i: int| 0 <= i < s.len() && s[i] == a;
        assert(s.push(last)[i] == a);
    }
    if s.push(last).contains(a) {
        let i = choose|i: int| 0 <= i < s.len() + 1 && s.push(last)[i] == a;
        if i < s.len() {
            assert(s[i] == a);
        }
    }
}

proof fn lemma_joined_keys(s: Seq<DiskKey>, one: DiskKey, more: Seq<DiskKey>, key: DiskKey)
    ensures
        (s.push(one) + more).contains(key) <==> s.contains(key) || key == one || more.contains(key),
{
    let t = s.push(one) + more;
    assert(t[s.len() as int] == one);
    if s.contains(key) {
        let i = choose|i: int| 0 <= i < s.len() && s[i] == key;
        assert(t[i] == key);
    }
    if more.contains(key) {
        let i = choose|i: int| 0 <= i < more.len() && more[i] == key;
        assert(t[s.len() + 1 + i] == key);
    }
    if t.contains(key) {
        let i = choose|i: int| 0 <= i < t.len() && t[i] == key;
        if i < s.len() {
            assert(s[i] == key);
        } else if i > s.len() {
            assert(more[i - s.len() - 1] == key);
        }
    }
}

/// What the free-space tree files for `addresses` it files, for each group
/// that covers one of them, under the group's key and under the address.
pub proof fn law_free_space_is_filed_by_group_and_address(
    groups: Seq<BlockGroup>,
    addresses: Seq<u64>,
    key: DiskKey,
)
    ensures
        planning::space_keys(groups, addresses).contains(key) <==> exists|group: BlockGroup, a: u64|
            groups.contains(group) && addresses.contains(a) && #[trigger] tells_of(group, a, key),
    decreases groups.len(),
{
    if groups.len() > 0 {
        let front = groups.drop_last();
        let last = groups.last();
        let before = planning::space_keys(front, addresses);
        let inside = planning::covered(last, addresses);
        law_free_space_is_filed_by_group_and_address(front, addresses, key);
        lemma_covered(last, addresses);
        lemma_joined_keys(before, planning::info_key(last), planning::run_keys(inside), key);
        assert(groups[groups.len() - 1] == last);
        if planning::space_keys(groups, addresses).contains(key) {
            if before.contains(key) {
                let (group, a) = choose|group: BlockGroup, a: u64|
                    front.contains(group) && addresses.contains(a) && #[trigger] tells_of(
                        group,
                        a,
                        key,
                    );
                let i = choose|i: int| 0 <= i < front.len() && front[i] == group;
                assert(groups[i] == group);
                assert(tells_of(group, a, key));
            } else if key == planning::info_key(last) {
                let a = inside[0];
                assert(inside.contains(a));
                assert(tells_of(last, a, key));
            } else {
                let runs = planning::run_keys(inside);
                let i = choose|i: int| 0 <= i < runs.len() && runs[i] == key;
                let a = inside[i];
                assert(inside.contains(a));
                assert(tells_of(last, a, key));
            }
        }
        if exists|group: BlockGroup, a: u64|
            groups.contains(group) && addresses.contains(a) && #[trigger] tells_of(group, a, key) {
            let (group, a) = choose|group: BlockGroup, a: u64|
                groups.contains(group) && addresses.contains(a) && #[trigger] tells_of(
                    group,
                    a,
                    key,
                );
            let i = choose|i: int| 0 <= i < groups.len() && groups[i] == group;
            if i < front.len() {
                assert(front[i] == group);
                assert(front.contains(group));
                assert(before.contains(key));
            } else {
                assert(inside.contains(a));
                let n = choose|n: int| 0 <= n < inside.len() && inside[n] == a;
                assert(planning::run_keys(inside)[n] == planning::run_key(a));
            }
        }
    }
}

/// The leaves of the free-space tree, tree 10, that describe given addresses
/// are those that what it files for them belongs in. A volume without that
/// tree has none.
pub proof fn law_free_space_goes_to_its_own_tree(
    volume: VolumeModel,
    addresses: Seq<u64>,
    groups: Seq<BlockGroup>,
)
    requires
        space::groups_outcome(volume) == Ok::<Seq<BlockGroup>, ErrorView>(groups),
    ensures
        match volume.root_if_any(10) {
            Err(e) => planning::space_leaves(volume, addresses) == Err::<Seq<u64>, ErrorView>(e),
            Ok(None) => planning::space_leaves(volume, addresses) == Ok::<Seq<u64>, ErrorView>(
                Seq::empty(),
            ),
            Ok(Some(root)) => planning::space_leaves(volume, addresses) == Ok::<
                Seq<u64>,
                ErrorView,
            >(planning::landing_leaves(volume, root, planning::space_keys(groups, addresses))),
        },
{
}

} // verus!
