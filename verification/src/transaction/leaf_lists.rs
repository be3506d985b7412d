//! The leaves of a tree, and which of them an insert lands in.

use vstd::prelude::*;

use crate::address_set;
use crate::btree;
use crate::btree::{ItemModel, KeyPtr};
use crate::chunk::DiskKey;
use crate::leaf_edit;
use crate::superblock::MAX_LEVEL;
use crate::transaction::blocks;
use crate::transaction::blocks::VisitModel;
use crate::transaction::planning;
use crate::transaction::render;
use crate::volume::VolumeModel;

verus! {

/// A leaf of a tree: where it lies and what it holds.
#[verifier::ext_equal]
pub struct LeafModel {
    pub at: u64,
    pub items: Seq<ItemModel>,
}

/// The leaves of the tree rooted at `at`, in the order a walk meets them.
pub open spec fn leaves_from(volume: VolumeModel, at: u64, depth: nat) -> Seq<LeafModel>
    decreases MAX_LEVEL - depth, 1nat, 0int,
{
    if depth >= MAX_LEVEL {
        Seq::empty()
    } else {
        match volume.block(at) {
            Err(_) => Seq::empty(),
            Ok(b) => if btree::header_of(b).level == 0 {
                seq![LeafModel { at, items: btree::leaf_contents(b) }]
            } else {
                leaves_under(volume, btree::node_ptrs(b), 0, depth)
            },
        }
    }
}

/// The leaves under the children `from ..` of a node.
pub open spec fn leaves_under(volume: VolumeModel, ptrs: Seq<KeyPtr>, from: int, depth: nat) -> Seq<
    LeafModel,
>
    decreases MAX_LEVEL - depth, 0nat, ptrs.len() - from,
{
    if from < 0 || from >= ptrs.len() || depth >= MAX_LEVEL {
        Seq::empty()
    } else {
        leaves_from(volume, ptrs[from].blockptr, depth + 1) + leaves_under(
            volume,
            ptrs,
            from + 1,
            depth,
        )
    }
}

/// What leaves hold, in order.
pub open spec fn held(leaves: Seq<LeafModel>) -> Seq<ItemModel>
    decreases leaves.len(),
{
    if leaves.len() == 0 {
        Seq::empty()
    } else {
        leaves[0].items + held(leaves.skip(1))
    }
}

/// What two lists of leaves hold one after the other.
pub proof fn lemma_held_joined(a: Seq<LeafModel>, b: Seq<LeafModel>)
    ensures
        held(a + b) == held(a) + held(b),
    decreases a.len(),
{
    if a.len() == 0 {
        assert(a + b =~= b);
        assert(held(a) + held(b) =~= held(b));
    } else {
        lemma_held_joined(a.skip(1), b);
        assert((a + b).skip(1) =~= a.skip(1) + b);
        assert(a[0].items + (held(a.skip(1)) + held(b)) =~= (a[0].items + held(a.skip(1))) + held(
            b,
        ));
    }
}

/// What leaves hold is what each of them holds.
pub proof fn lemma_held_contains(leaves: Seq<LeafModel>, x: ItemModel)
    ensures
        held(leaves).contains(x) <==> exists|i: int|
            0 <= i < leaves.len() && (#[trigger] leaves[i]).items.contains(x),
    decreases leaves.len(),
{
    if leaves.len() > 0 {
        let rest = leaves.skip(1);
        let first = leaves[0].items;
        lemma_held_contains(rest, x);
        if held(leaves).contains(x) {
            let p = choose|p: int| 0 <= p < held(leaves).len() && held(leaves)[p] == x;
            if p < first.len() {
                assert(first[p] == x);
                assert(leaves[0].items.contains(x));
            } else {
                assert(held(rest)[p - first.len()] == x);
                let i = choose|i: int|
                    0 <= i < rest.len() && (#[trigger] rest[i]).items.contains(x);
                assert(leaves[i + 1].items.contains(x));
            }
        }
        if exists|i: int| 0 <= i < leaves.len() && (#[trigger] leaves[i]).items.contains(x) {
            let i = choose|i: int|
                0 <= i < leaves.len() && (#[trigger] leaves[i]).items.contains(x);
            if i == 0 {
                let p = choose|p: int| 0 <= p < first.len() && first[p] == x;
                assert(held(leaves)[p] == x);
            } else {
                assert(rest[i - 1].items.contains(x));
                let p = choose|p: int| 0 <= p < held(rest).len() && held(rest)[p] == x;
                assert(held(leaves)[p + first.len()] == x);
            }
        }
    }
}

/// Whether the keys of leaves ascend, within each and from one to the next.
pub open spec fn ascending(leaves: Seq<LeafModel>) -> bool {
    &&& forall|i: int| 0 <= i < leaves.len() ==> leaf_edit::sorted((#[trigger] leaves[i]).items)
    &&& forall|i: int, j: int, p: int, q: int|
        #![trigger leaves[i].items[p], leaves[j].items[q]]
        0 <= i < j < leaves.len() && 0 <= p < leaves[i].items.len() && 0 <= q
            < leaves[j].items.len() ==> btree::key_less(
            leaves[i].items[p].key,
            leaves[j].items[q].key,
        )
}

/// Leaves whose contents ascend ascend.
pub proof fn lemma_sorted_leaves(leaves: Seq<LeafModel>)
    requires
        leaf_edit::sorted(held(leaves)),
    ensures
        ascending(leaves),
    decreases leaves.len(),
{
    if leaves.len() > 0 {
        let rest = leaves.skip(1);
        let first = leaves[0].items;
        let all = held(leaves);
        assert forall|a: int, b: int| 0 <= a < b < held(rest).len() implies btree::key_less(
            (#[trigger] held(rest)[a]).key,
            (#[trigger] held(rest)[b]).key,
        ) by {
            assert(all[a + first.len()] == held(rest)[a]);
            assert(all[b + first.len()] == held(rest)[b]);
        }
        lemma_sorted_leaves(rest);
        assert forall|i: int| 0 <= i < leaves.len() implies leaf_edit::sorted(
            (#[trigger] leaves[i]).items,
        ) by {
            if i == 0 {
                assert forall|a: int, b: int| 0 <= a < b < first.len() implies btree::key_less(
                    (#[trigger] first[a]).key,
                    (#[trigger] first[b]).key,
                ) by {
                    assert(all[a] == first[a]);
                    assert(all[b] == first[b]);
                }
            } else {
                assert(rest[i - 1] == leaves[i]);
            }
        }
        assert forall|i: int, j: int, p: int, q: int|
            #![trigger leaves[i].items[p], leaves[j].items[q]]
            0 <= i < j < leaves.len() && 0 <= p < leaves[i].items.len() && 0 <= q
                < leaves[j].items.len() implies btree::key_less(
            leaves[i].items[p].key,
            leaves[j].items[q].key,
        ) by {
            let x = leaves[j].items[q];
            assert(rest[j - 1] == leaves[j]);
            if i == 0 {
                assert(rest[j - 1].items.contains(x));
                lemma_held_contains(rest, x);
                let at = choose|at: int| 0 <= at < held(rest).len() && held(rest)[at] == x;
                assert(all[p] == first[p]);
                assert(all[at + first.len()] == x);
            } else {
                assert(rest[i - 1] == leaves[i]);
                assert(btree::key_less(rest[i - 1].items[p].key, rest[j - 1].items[q].key));
            }
        }
    }
}

/// What ascending leaves hold ascends.
pub proof fn lemma_leaves_sorted(leaves: Seq<LeafModel>)
    requires
        ascending(leaves),
    ensures
        leaf_edit::sorted(held(leaves)),
    decreases leaves.len(),
{
    if leaves.len() > 0 {
        let rest = leaves.skip(1);
        let first = leaves[0].items;
        let all = held(leaves);
        assert(ascending(rest)) by {
            assert forall|i: int| 0 <= i < rest.len() implies leaf_edit::sorted(
                (#[trigger] rest[i]).items,
            ) by {
                assert(rest[i] == leaves[i + 1]);
            }
            assert forall|i: int, j: int, p: int, q: int|
                #![trigger rest[i].items[p], rest[j].items[q]]
                0 <= i < j < rest.len() && 0 <= p < rest[i].items.len() && 0 <= q
                    < rest[j].items.len() implies btree::key_less(
                rest[i].items[p].key,
                rest[j].items[q].key,
            ) by {
                assert(btree::key_less(leaves[i + 1].items[p].key, leaves[j + 1].items[q].key));
            }
        }
        lemma_leaves_sorted(rest);
        assert forall|a: int, b: int| 0 <= a < b < all.len() implies btree::key_less(
            (#[trigger] all[a]).key,
            (#[trigger] all[b]).key,
        ) by {
            if b < first.len() {
                assert(leaf_edit::sorted(leaves[0].items));
                assert(all[a] == first[a] && all[b] == first[b]);
            } else {
                let x = held(rest)[b - first.len()];
                assert(all[b] == x);
                if a < first.len() {
                    assert(held(rest).contains(x));
                    lemma_held_contains(rest, x);
                    let j = choose|j: int|
                        0 <= j < rest.len() && (#[trigger] rest[j]).items.contains(x);
                    let q = choose|q: int| 0 <= q < rest[j].items.len() && rest[j].items[q] == x;
                    assert(btree::key_less(leaves[0].items[a].key, leaves[j + 1].items[q].key));
                } else {
                    assert(all[a] == held(rest)[a - first.len()]);
                }
            }
        }
    }
}

/// A walk that meets no fault gives what the leaves hold.
pub proof fn lemma_walk_is_held(volume: VolumeModel, at: u64, depth: nat)
    requires
        btree::walk_from(volume.image(), volume.geometry(), at, None, depth).fault is None,
    ensures
        btree::walk_from(volume.image(), volume.geometry(), at, None, depth).items == held(
            leaves_from(volume, at, depth),
        ),
    decreases MAX_LEVEL - depth, 1nat, 0int,
{
    reveal(VolumeModel::block);
    let b = volume.block(at)->Ok_0;
    if btree::header_of(b).level == 0 {
        let items = btree::leaf_contents(b);
        let list = leaves_from(volume, at, depth);
        assert(list =~= seq![LeafModel { at, items }]);
        assert(list.skip(1) =~= Seq::<LeafModel>::empty());
        assert(items.skip(0) =~= items);
        assert(items + held(list.skip(1)) =~= items);
    } else {
        lemma_children_are_held(volume, btree::node_ptrs(b), 0, depth);
    }
}

proof fn lemma_children_are_held(volume: VolumeModel, ptrs: Seq<KeyPtr>, from: int, depth: nat)
    requires
        0 <= from,
        btree::walk_children(
            volume.image(),
            volume.geometry(),
            ptrs,
            from,
            None,
            depth,
        ).fault is None,
    ensures
        btree::walk_children(volume.image(), volume.geometry(), ptrs, from, None, depth).items
            == held(leaves_under(volume, ptrs, from, depth)),
    decreases MAX_LEVEL - depth, 0nat, ptrs.len() - from,
{
    if from < ptrs.len() && depth < MAX_LEVEL {
        lemma_walk_is_held(volume, ptrs[from].blockptr, depth + 1);
        lemma_children_are_held(volume, ptrs, from + 1, depth);
        lemma_held_joined(
            leaves_from(volume, ptrs[from].blockptr, depth + 1),
            leaves_under(volume, ptrs, from + 1, depth),
        );
    }
}

/// Where the walk of a node's children meets no fault, neither does the walk
/// of any of them.
pub proof fn lemma_child_walk(volume: VolumeModel, ptrs: Seq<KeyPtr>, from: int, depth: nat, k: int)
    requires
        0 <= from <= k < ptrs.len(),
        depth < MAX_LEVEL,
        btree::walk_children(
            volume.image(),
            volume.geometry(),
            ptrs,
            from,
            None,
            depth,
        ).fault is None,
    ensures
        btree::walk_from(
            volume.image(),
            volume.geometry(),
            ptrs[k].blockptr,
            None,
            depth + 1,
        ).fault is None,
    decreases k - from,
{
    if from < k {
        lemma_child_walk(volume, ptrs, from + 1, depth, k);
    }
}

/// Whether the block at `x` is reached from `at`.
pub open spec fn in_tree(volume: VolumeModel, at: u64, depth: nat, x: u64) -> bool
    decreases MAX_LEVEL - depth,
{
    depth < MAX_LEVEL && volume.block(at) is Ok && {
        let b = volume.block(at)->Ok_0;
        x == at || (btree::header_of(b).level != 0 && exists|k: int|
            0 <= k < btree::node_ptrs(b).len() && in_tree(
                volume,
                (#[trigger] btree::node_ptrs(b)[k]).blockptr,
                depth + 1,
                x,
            ))
    }
}

/// The children of a block of a tree are of the tree.
proof fn lemma_children_in_tree(volume: VolumeModel, at: u64, depth: nat, x: u64, c: int)
    requires
        btree::walk_from(volume.image(), volume.geometry(), at, None, depth).fault is None,
        in_tree(volume, at, depth, x),
        volume.block(x) is Ok,
        btree::header_of(volume.block(x)->Ok_0).level != 0,
        0 <= c < btree::node_ptrs(volume.block(x)->Ok_0).len(),
    ensures
        in_tree(volume, at, depth, btree::node_ptrs(volume.block(x)->Ok_0)[c].blockptr),
    decreases MAX_LEVEL - depth,
{
    reveal(VolumeModel::block);
    let b = volume.block(at)->Ok_0;
    let ptrs = btree::node_ptrs(b);
    if x == at {
        lemma_child_walk(volume, ptrs, 0, depth, c);
        assert(in_tree(volume, ptrs[c].blockptr, depth + 1, ptrs[c].blockptr));
    } else {
        let k = choose|k: int|
            0 <= k < ptrs.len() && in_tree(
                volume,
                (#[trigger] ptrs[k]).blockptr,
                depth + 1,
                x,
            );
        lemma_child_walk(volume, ptrs, 0, depth, k);
        lemma_children_in_tree(volume, ptrs[k].blockptr, depth + 1, x, c);
    }
}

/// A leaf that is reached is one of the leaves.
proof fn lemma_leaf_listed(volume: VolumeModel, at: u64, depth: nat, x: u64)
    requires
        in_tree(volume, at, depth, x),
        volume.block(x) is Ok,
        btree::header_of(volume.block(x)->Ok_0).level == 0,
    ensures
        leaves_from(volume, at, depth).contains(
            LeafModel { at: x, items: btree::leaf_contents(volume.block(x)->Ok_0) },
        ),
    decreases MAX_LEVEL - depth,
{
    let b = volume.block(at)->Ok_0;
    let leaf = LeafModel { at: x, items: btree::leaf_contents(volume.block(x)->Ok_0) };
    if x == at {
        assert(leaves_from(volume, at, depth)[0] == leaf);
    } else {
        let ptrs = btree::node_ptrs(b);
        let k = choose|k: int|
            0 <= k < ptrs.len() && in_tree(
                volume,
                (#[trigger] ptrs[k]).blockptr,
                depth + 1,
                x,
            );
        lemma_leaf_listed(volume, ptrs[k].blockptr, depth + 1, x);
        lemma_under(volume, ptrs, 0, depth, k, leaf);
    }
}

/// The leaves under a node's child are among those under the node.
proof fn lemma_under(
    volume: VolumeModel,
    ptrs: Seq<KeyPtr>,
    from: int,
    depth: nat,
    k: int,
    leaf: LeafModel,
)
    requires
        0 <= from <= k < ptrs.len(),
        depth < MAX_LEVEL,
        leaves_from(volume, ptrs[k].blockptr, depth + 1).contains(leaf),
    ensures
        leaves_under(volume, ptrs, from, depth).contains(leaf),
    decreases k - from,
{
    let head = leaves_from(volume, ptrs[from].blockptr, depth + 1);
    let tail = leaves_under(volume, ptrs, from + 1, depth);
    if from < k {
        lemma_under(volume, ptrs, from + 1, depth, k, leaf);
        let i = choose|i: int| 0 <= i < tail.len() && tail[i] == leaf;
        assert((head + tail)[head.len() + i] == leaf);
    } else {
        let i = choose|i: int| 0 <= i < head.len() && head[i] == leaf;
        assert((head + tail)[i] == leaf);
    }
}

/// What a block-by-block walk visits is of the tree, and as it lies there.
proof fn lemma_visits_sound(
    volume: VolumeModel,
    root: u64,
    stack: Seq<(u64, Option<u64>)>,
    seen: Set<u64>,
)
    requires
        btree::walk_from(volume.image(), volume.geometry(), root, None, 0).fault is None,
        forall|i: int| 0 <= i < stack.len() ==> in_tree(volume, root, 0, (#[trigger] stack[i]).0),
    ensures
        forall|i: int|
            0 <= i < blocks::visits_from(volume, stack, seen).len() ==> {
                let v = #[trigger] blocks::visits_from(volume, stack, seen)[i];
                &&& in_tree(volume, root, 0, v.at)
                &&& volume.block(v.at) == Ok::<Seq<u8>, crate::error::ErrorView>(v.bytes)
            },
    decreases seen.complement().len(), stack.len(),
{
    if stack.len() == 0 {
        assert(stack =~= Seq::<(u64, Option<u64>)>::empty());
        blocks::lemma_done(volume, seen);
    } else {
        let (at, parent) = stack.last();
        let rest = stack.drop_last();
        assert(stack[stack.len() - 1] == (at, parent));
        blocks::lemma_step(volume, stack, seen);
        address_set::lemma_one_less_outside(seen, at);
        assert forall|i: int| 0 <= i < rest.len() implies in_tree(
            volume,
            root,
            0,
            (#[trigger] rest[i]).0,
        ) by {
            assert(rest[i] == stack[i]);
        }
        if at == 0 || seen.contains(at) {
            lemma_visits_sound(volume, root, rest, seen);
        } else if volume.block(at) is Err {
            lemma_visits_sound(volume, root, rest, seen.insert(at));
        } else {
            let b = volume.block(at)->Ok_0;
            let more = rest + blocks::children_of(b, at);
            assert forall|i: int| 0 <= i < more.len() implies in_tree(
                volume,
                root,
                0,
                (#[trigger] more[i]).0,
            ) by {
                if i < rest.len() {
                    assert(more[i] == rest[i]);
                } else {
                    lemma_children_in_tree(volume, root, 0, at, i - rest.len());
                }
            }
            lemma_visits_sound(volume, root, more, seen.insert(at));
            let later = blocks::visits_from(volume, more, seen.insert(at));
            let all = blocks::visits_from(volume, stack, seen);
            assert forall|i: int| 0 <= i < all.len() implies {
                let v = #[trigger] all[i];
                &&& in_tree(volume, root, 0, v.at)
                &&& volume.block(v.at) == Ok::<Seq<u8>, crate::error::ErrorView>(v.bytes)
            } by {
                if i > 0 {
                    assert(all[i] == later[i - 1]);
                }
            }
        }
    }
}

/// Whether one of `visits` is of the block at `at`.
pub open spec fn visited(visits: Seq<VisitModel>, at: u64) -> bool {
    exists|i: int| 0 <= i < visits.len() && (#[trigger] visits[i]).at == at
}

/// Whether the block at `at`, if there is one that reads, is among `visits`
/// or `seen`.
pub open spec fn covered_by(
    volume: VolumeModel,
    visits: Seq<VisitModel>,
    seen: Set<u64>,
    at: u64,
) -> bool {
    at == 0 || volume.block(at) is Err || visited(visits, at) || seen.contains(at)
}

proof fn lemma_visited_later(first: VisitModel, later: Seq<VisitModel>, at: u64)
    ensures
        visited(seq![first] + later, at) == (first.at == at || visited(later, at)),
{
    let all = seq![first] + later;
    assert(all[0] == first);
    if visited(later, at) {
        let i = choose|i: int| 0 <= i < later.len() && (#[trigger] later[i]).at == at;
        assert(all[i + 1].at == at);
    }
    if visited(all, at) && first.at != at {
        let i = choose|i: int| 0 <= i < all.len() && (#[trigger] all[i]).at == at;
        assert(later[i - 1].at == at);
    }
}

/// A block-by-block walk visits all it set out with, and the children of all
/// it visits.
proof fn lemma_visits_complete(volume: VolumeModel, stack: Seq<(u64, Option<u64>)>, seen: Set<u64>)
    ensures
        forall|i: int|
            0 <= i < stack.len() ==> covered_by(
                volume,
                blocks::visits_from(volume, stack, seen),
                seen,
                (#[trigger] stack[i]).0,
            ),
        forall|i: int, c: int|
            #![trigger blocks::children_of(
                blocks::visits_from(volume, stack, seen)[i].bytes,
                blocks::visits_from(volume, stack, seen)[i].at,
            )[c]]
            0 <= i < blocks::visits_from(volume, stack, seen).len() && 0 <= c < blocks::children_of(
                blocks::visits_from(volume, stack, seen)[i].bytes,
                blocks::visits_from(volume, stack, seen)[i].at,
            ).len() ==> covered_by(
                volume,
                blocks::visits_from(volume, stack, seen),
                seen,
                blocks::children_of(
                    blocks::visits_from(volume, stack, seen)[i].bytes,
                    blocks::visits_from(volume, stack, seen)[i].at,
                )[c].0,
            ),
    decreases seen.complement().len(), stack.len(),
{
    let all = blocks::visits_from(volume, stack, seen);
    if stack.len() == 0 {
        assert(stack =~= Seq::<(u64, Option<u64>)>::empty());
        blocks::lemma_done(volume, seen);
    } else {
        let (at, parent) = stack.last();
        let rest = stack.drop_last();
        blocks::lemma_step(volume, stack, seen);
        address_set::lemma_one_less_outside(seen, at);
        if at == 0 || seen.contains(at) {
            lemma_visits_complete(volume, rest, seen);
            assert forall|i: int| 0 <= i < stack.len() implies covered_by(
                volume,
                all,
                seen,
                (#[trigger] stack[i]).0,
            ) by {
                if i < rest.len() {
                    assert(rest[i] == stack[i]);
                }
            }
        } else if volume.block(at) is Err {
            lemma_visits_complete(volume, rest, seen.insert(at));
            assert forall|i: int| 0 <= i < stack.len() implies covered_by(
                volume,
                all,
                seen,
                (#[trigger] stack[i]).0,
            ) by {
                if i < rest.len() {
                    assert(rest[i] == stack[i]);
                }
            }
        } else {
            let b = volume.block(at)->Ok_0;
            let kids = blocks::children_of(b, at);
            let more = rest + kids;
            let next = seen.insert(at);
            let first = VisitModel { at, bytes: b, parent };
            let later = blocks::visits_from(volume, more, next);
            lemma_visits_complete(volume, more, next);
            assert forall|x: u64| covered_by(volume, later, next, x) implies #[trigger] covered_by(
                volume,
                all,
                seen,
                x,
            ) by {
                lemma_visited_later(first, later, x);
            }
            assert forall|i: int| 0 <= i < stack.len() implies covered_by(
                volume,
                all,
                seen,
                (#[trigger] stack[i]).0,
            ) by {
                if i < rest.len() {
                    assert(more[i] == stack[i]);
                    assert(covered_by(volume, later, next, more[i].0));
                } else {
                    lemma_visited_later(first, later, at);
                }
            }
            assert forall|i: int, c: int|
                #![trigger blocks::children_of(all[i].bytes, all[i].at)[c]]
                0 <= i < all.len() && 0 <= c < blocks::children_of(
                    all[i].bytes,
                    all[i].at,
                ).len() implies covered_by(
                volume,
                all,
                seen,
                blocks::children_of(all[i].bytes, all[i].at)[c].0,
            ) by {
                if i == 0 {
                    assert(more[rest.len() + c] == kids[c]);
                    assert(covered_by(volume, later, next, more[rest.len() + c].0));
                } else {
                    assert(all[i] == later[i - 1]);
                    assert(covered_by(
                        volume,
                        later,
                        next,
                        blocks::children_of(later[i - 1].bytes, later[i - 1].at)[c].0,
                    ));
                }
            }
        }
    }
}

/// Every leaf under a visited block is visited.
proof fn lemma_leaves_visited(volume: VolumeModel, root: u64, at: u64, depth: nat, i: int)
    requires
        btree::walk_from(volume.image(), volume.geometry(), root, None, 0).fault is None,
        visited(blocks::visits_of(volume, root), at),
        0 <= i < leaves_from(volume, at, depth).len(),
    ensures
        visited(blocks::visits_of(volume, root), leaves_from(volume, at, depth)[i].at),
        volume.block(leaves_from(volume, at, depth)[i].at) matches Ok(b) && btree::header_of(
            b,
        ).level == 0 && btree::leaf_contents(b) == leaves_from(volume, at, depth)[i].items,
    decreases MAX_LEVEL - depth, 1nat, 0int,
{
    let b = volume.block(at)->Ok_0;
    if btree::header_of(b).level != 0 {
        let ptrs = btree::node_ptrs(b);
        assert forall|k: int| 0 <= k < ptrs.len() implies visited(
            blocks::visits_of(volume, root),
            (#[trigger] ptrs[k]).blockptr,
        ) || volume.block(ptrs[k].blockptr) is Err by {
            lemma_child_visited(volume, root, at, k);
        }
        lemma_under_visited(volume, root, ptrs, 0, depth, i);
    }
}

proof fn lemma_child_visited(volume: VolumeModel, root: u64, at: u64, k: int)
    requires
        btree::walk_from(volume.image(), volume.geometry(), root, None, 0).fault is None,
        visited(blocks::visits_of(volume, root), at),
        volume.block(at) is Ok,
        btree::header_of(volume.block(at)->Ok_0).level != 0,
        0 <= k < btree::node_ptrs(volume.block(at)->Ok_0).len(),
    ensures
        visited(
            blocks::visits_of(volume, root),
            btree::node_ptrs(volume.block(at)->Ok_0)[k].blockptr,
        ) || volume.block(btree::node_ptrs(volume.block(at)->Ok_0)[k].blockptr) is Err,
{
    reveal(VolumeModel::block);
    let b = volume.block(at)->Ok_0;
    let stack: Seq<(u64, Option<u64>)> = seq![(root, None)];
    let visits = blocks::visits_of(volume, root);
    assert(in_tree(volume, root, 0, root));
    lemma_visits_sound(volume, root, stack, Set::empty());
    lemma_visits_complete(volume, stack, Set::empty());
    let n = choose|n: int| 0 <= n < visits.len() && (#[trigger] visits[n]).at == at;
    assert(visits[n].bytes == b);
    assert(blocks::children_of(b, at)[k].0 == btree::node_ptrs(b)[k].blockptr);
    btree::law_parsed_block_is_sound(
        b,
        at,
        volume.geometry(),
        btree::block_intact(b, volume.geometry()),
    );
}

proof fn lemma_under_visited(
    volume: VolumeModel,
    root: u64,
    ptrs: Seq<KeyPtr>,
    from: int,
    depth: nat,
    i: int,
)
    requires
        btree::walk_from(volume.image(), volume.geometry(), root, None, 0).fault is None,
        0 <= from,
        forall|k: int|
            0 <= k < ptrs.len() ==> visited(
                blocks::visits_of(volume, root),
                (#[trigger] ptrs[k]).blockptr,
            ) || volume.block(ptrs[k].blockptr) is Err,
        0 <= i < leaves_under(volume, ptrs, from, depth).len(),
    ensures
        visited(blocks::visits_of(volume, root), leaves_under(volume, ptrs, from, depth)[i].at),
        volume.block(leaves_under(volume, ptrs, from, depth)[i].at) matches Ok(b)
            && btree::header_of(b).level == 0 && btree::leaf_contents(b) == leaves_under(
            volume,
            ptrs,
            from,
            depth,
        )[i].items,
    decreases MAX_LEVEL - depth, 0nat, ptrs.len() - from,
{
    let head = leaves_from(volume, ptrs[from].blockptr, depth + 1);
    let tail = leaves_under(volume, ptrs, from + 1, depth);
    if i < head.len() {
        assert(visited(blocks::visits_of(volume, root), ptrs[from].blockptr));
        lemma_leaves_visited(volume, root, ptrs[from].blockptr, depth + 1, i);
        assert(leaves_under(volume, ptrs, from, depth)[i] == head[i]);
    } else {
        lemma_under_visited(volume, root, ptrs, from + 1, depth, i - head.len());
        assert(leaves_under(volume, ptrs, from, depth)[i] == tail[i - head.len()]);
    }
}

proof fn lemma_leaf_place(leaves: Seq<(DiskKey, u64)>, leaf: (DiskKey, u64))
    ensures
        0 <= planning::leaf_place(leaves, leaf) <= leaves.len(),
        planning::leaf_place(leaves, leaf) > 0 ==> planning::leaf_not_after(
            leaves[planning::leaf_place(leaves, leaf) - 1],
            leaf,
        ),
        forall|i: int|
            planning::leaf_place(leaves, leaf) <= i < leaves.len() ==> !planning::leaf_not_after(
                #[trigger] leaves[i],
                leaf,
            ),
    decreases leaves.len(),
{
    if leaves.len() > 0 && !planning::leaf_not_after(leaves.last(), leaf) {
        let front = leaves.drop_last();
        lemma_leaf_place(front, leaf);
        assert forall|i: int|
            planning::leaf_place(leaves, leaf) <= i < leaves.len() implies !planning::leaf_not_after(
            #[trigger] leaves[i],
            leaf,
        ) by {
            if i < front.len() {
                assert(front[i] == leaves[i]);
            }
        }
    }
}

/// Whether leaves are in the order in which they begin.
pub open spec fn in_place(leaves: Seq<(DiskKey, u64)>) -> bool {
    forall|i: int, j: int|
        0 <= i < j < leaves.len() ==> planning::leaf_not_after(
            #[trigger] leaves[i],
            #[trigger] leaves[j],
        )
}

/// Whether one of `visits` is of a leaf that begins as `leaf` does.
pub open spec fn begins(visits: Seq<VisitModel>, leaf: (DiskKey, u64)) -> bool {
    exists|i: int|
        0 <= i < visits.len() && planning::leaf_start(#[trigger] visits[i]) == Some(leaf.0)
            && visits[i].at == leaf.1
}

/// The leaves of a block-by-block walk are those that begin somewhere, in
/// order.
pub(crate) proof fn lemma_leaves_in(visits: Seq<VisitModel>)
    ensures
        in_place(planning::leaves_in(visits)),
        forall|leaf: (DiskKey, u64)| #[trigger]
            planning::leaves_in(visits).contains(leaf) <==> begins(visits, leaf),
    decreases visits.len(),
{
    let all = planning::leaves_in(visits);
    if visits.len() > 0 {
        let front = visits.drop_last();
        let before = planning::leaves_in(front);
        let last = visits.last();
        lemma_leaves_in(front);
        assert forall|leaf: (DiskKey, u64)| begins(visits, leaf) <==> begins(front, leaf) || (
        planning::leaf_start(last) == Some(leaf.0) && last.at == leaf.1) by {
            if begins(front, leaf) {
                let i = choose|i: int|
                    0 <= i < front.len() && planning::leaf_start(#[trigger] front[i]) == Some(
                        leaf.0,
                    ) && front[i].at == leaf.1;
                assert(visits[i] == front[i]);
            }
            if begins(visits, leaf) {
                let i = choose|i: int|
                    0 <= i < visits.len() && planning::leaf_start(#[trigger] visits[i]) == Some(
                        leaf.0,
                    ) && visits[i].at == leaf.1;
                if i < front.len() {
                    assert(visits[i] == front[i]);
                }
            }
            assert(visits[visits.len() - 1] == last);
        }
        if let Some(first) = planning::leaf_start(last) {
            let leaf = (first, last.at);
            let at = planning::leaf_place(before, leaf);
            lemma_leaf_place(before, leaf);
            assert(all == before.insert(at, leaf));
            assert forall|i: int, j: int| 0 <= i < j < all.len() implies planning::leaf_not_after(
                #[trigger] all[i],
                #[trigger] all[j],
            ) by {
                let a = if i < at {
                    before[i]
                } else if i == at {
                    leaf
                } else {
                    before[i - 1]
                };
                let b = if j < at {
                    before[j]
                } else if j == at {
                    leaf
                } else {
                    before[j - 1]
                };
                assert(all[i] == a && all[j] == b);
                if j == at && i < at - 1 {
                    assert(planning::leaf_not_after(before[i], before[at - 1]));
                }
            }
            assert forall|x: (DiskKey, u64)| #[trigger]
                all.contains(x) <==> before.contains(x) || x == leaf by {
                assert(all[at] == leaf);
                if before.contains(x) {
                    let k = choose|k: int| 0 <= k < before.len() && before[k] == x;
                    if k < at {
                        assert(all[k] == x);
                    } else {
                        assert(all[k + 1] == x);
                    }
                }
                if all.contains(x) && x != leaf {
                    let k = choose|k: int| 0 <= k < all.len() && all[k] == x;
                    if k < at {
                        assert(before[k] == x);
                    } else {
                        assert(before[k - 1] == x);
                    }
                }
            }
        }
    }
}

pub(crate) proof fn lemma_leaf_for(leaves: Seq<(DiskKey, u64)>, key: DiskKey)
    requires
        leaves.len() > 0,
    ensures
        0 <= planning::leaf_for(leaves, key) < leaves.len(),
        planning::leaf_for(leaves, key) > 0 ==> !btree::key_less(
            key,
            leaves[planning::leaf_for(leaves, key)].0,
        ),
        forall|i: int|
            planning::leaf_for(leaves, key) < i < leaves.len() ==> btree::key_less(
                key,
                (#[trigger] leaves[i]).0,
            ),
    decreases leaves.len(),
{
    if leaves.len() > 1 && btree::key_less(key, leaves.last().0) {
        let front = leaves.drop_last();
        lemma_leaf_for(front, key);
        assert forall|i: int| planning::leaf_for(leaves, key) < i < leaves.len() implies btree::key_less(
            key,
            (#[trigger] leaves[i]).0,
        ) by {
            if i < front.len() {
                assert(front[i] == leaves[i]);
            }
        }
    }
}

pub(crate) proof fn lemma_landing_from(
    leaves: Seq<(DiskKey, u64)>,
    keys: Seq<DiskKey>,
    from: int,
    out: Seq<u64>,
)
    requires
        0 <= from <= keys.len(),
        address_set::ascending(out),
    ensures
        forall|x: u64| #[trigger]
            planning::landing_from(leaves, keys, from, out).contains(x) <==> out.contains(x)
                || exists|i: int|
                from <= i < keys.len() && leaves[planning::leaf_for(
                    leaves,
                    #[trigger] keys[i],
                )].1 == x,
    decreases keys.len() - from,
{
    if from < keys.len() {
        let one = leaves[planning::leaf_for(leaves, keys[from])].1;
        let next = address_set::added(out, one);
        address_set::lemma_added(out, one);
        lemma_landing_from(leaves, keys, from + 1, next);
        assert forall|x: u64| #[trigger]
            planning::landing_from(leaves, keys, from, out).contains(x) <==> out.contains(x)
                || exists|i: int|
                from <= i < keys.len() && leaves[planning::leaf_for(
                    leaves,
                    #[trigger] keys[i],
                )].1 == x by {
            assert(planning::landing_from(leaves, keys, from, out) == planning::landing_from(
                leaves,
                keys,
                from + 1,
                next,
            ));
            assert(next.contains(x) == (out.contains(x) || x == one));
        }
    }
}

/// Whether an insert under `key` belongs in the leaf `i` of `leaves`: the last
/// one whose first key is not greater, or the first that holds anything when
/// `key` precedes everything.
pub open spec fn lands_at(leaves: Seq<LeafModel>, key: DiskKey, i: int) -> bool {
    &&& 0 <= i < leaves.len()
    &&& leaves[i].items.len() > 0
    &&& forall|j: int|
        i < j < leaves.len() && (#[trigger] leaves[j]).items.len() > 0 ==> btree::key_less(
            key,
            leaves[j].items[0].key,
        )
    &&& !btree::key_less(key, leaves[i].items[0].key) || forall|j: int|
        0 <= j < i ==> (#[trigger] leaves[j]).items.len() == 0
}

/// No two leaves of an ascending tree that hold anything lie at one address.
pub proof fn lemma_leaves_apart(volume: VolumeModel, root: u64, i: int, j: int)
    requires
        root != 0,
        volume.walk(root).fault is None,
        leaf_edit::sorted(volume.walk(root).items),
        0 <= i < leaves_from(volume, root, 0).len(),
        0 <= j < leaves_from(volume, root, 0).len(),
        leaves_from(volume, root, 0)[i].items.len() > 0,
        leaves_from(volume, root, 0)[i].at == leaves_from(volume, root, 0)[j].at,
    ensures
        i == j,
{
    let list = leaves_from(volume, root, 0);
    lemma_walk_is_held(volume, root, 0);
    lemma_sorted_leaves(list);
    lemma_root_visited(volume, root);
    lemma_leaves_visited(volume, root, root, 0, i);
    lemma_leaves_visited(volume, root, root, 0, j);
    assert(list[i].items == list[j].items);
    if i < j {
        assert(btree::key_less(list[i].items[0].key, list[j].items[0].key));
    } else if j < i {
        assert(btree::key_less(list[j].items[0].key, list[i].items[0].key));
    }
}

proof fn lemma_root_visited(volume: VolumeModel, root: u64)
    requires
        root != 0,
        volume.walk(root).fault is None,
    ensures
        visited(blocks::visits_of(volume, root), root),
{
    reveal(VolumeModel::block);
    let stack: Seq<(u64, Option<u64>)> = seq![(root, None)];
    lemma_visits_complete(volume, stack, Set::empty());
    assert(covered_by(volume, blocks::visits_of(volume, root), Set::empty(), stack[0].0));
}

/// The leaves a block-by-block walk finds that hold anything are those of the
/// tree that do.
proof fn lemma_leaves_match(volume: VolumeModel, root: u64, leaf: (DiskKey, u64))
    requires
        root != 0,
        volume.walk(root).fault is None,
    ensures
        planning::leaves_in(blocks::visits_of(volume, root)).contains(leaf) <==> exists|i: int|
            0 <= i < leaves_from(volume, root, 0).len() && (#[trigger] leaves_from(
                volume,
                root,
                0,
            )[i]).at == leaf.1 && leaves_from(volume, root, 0)[i].items.len() > 0 && leaves_from(
                volume,
                root,
                0,
            )[i].items[0].key == leaf.0,
{
    let visits = blocks::visits_of(volume, root);
    let list = leaves_from(volume, root, 0);
    let stack: Seq<(u64, Option<u64>)> = seq![(root, None)];
    lemma_leaves_in(visits);
    lemma_root_visited(volume, root);
    assert(in_tree(volume, root, 0, root)) by {
        reveal(VolumeModel::block);
    }
    lemma_visits_sound(volume, root, stack, Set::empty());
    if begins(visits, leaf) {
        let n = choose|n: int|
            0 <= n < visits.len() && planning::leaf_start(#[trigger] visits[n]) == Some(leaf.0)
                && visits[n].at == leaf.1;
        lemma_leaf_listed(volume, root, 0, visits[n].at);
        let found = LeafModel { at: leaf.1, items: btree::leaf_contents(visits[n].bytes) };
        assert(list.contains(found));
        let i = choose|i: int| 0 <= i < list.len() && list[i] == found;
        assert(list[i].at == leaf.1);
    }
    if exists|i: int|
        0 <= i < list.len() && (#[trigger] list[i]).at == leaf.1 && list[i].items.len() > 0
            && list[i].items[0].key == leaf.0 {
        let i = choose|i: int|
            0 <= i < list.len() && (#[trigger] list[i]).at == leaf.1 && list[i].items.len() > 0
                && list[i].items[0].key == leaf.0;
        lemma_leaves_visited(volume, root, root, 0, i);
        let n = choose|n: int| 0 <= n < visits.len() && (#[trigger] visits[n]).at == leaf.1;
        assert(planning::leaf_start(visits[n]) == Some(leaf.0));
    }
}

/// In a tree whose walk ascends and gives anything, an insert lands in one
/// leaf: the last whose first key is not greater, or the first when the key
/// precedes everything.
pub proof fn lemma_landing(volume: VolumeModel, root: u64, key: DiskKey) -> (at: int)
    requires
        root != 0,
        volume.walk(root).fault is None,
        leaf_edit::sorted(volume.walk(root).items),
        volume.walk(root).items.len() > 0,
    ensures
        lands_at(leaves_from(volume, root, 0), key, at),
        forall|leaf: u64| #[trigger]
            render::belongs(volume, root, leaf, key) <==> leaf == leaves_from(
                volume,
                root,
                0,
            )[at].at,
        forall|keys: Seq<DiskKey>|
            keys.contains(key) ==> #[trigger] planning::landing_leaves(
                volume,
                root,
                keys,
            ).contains(leaves_from(volume, root, 0)[at].at),
{
    let list = leaves_from(volume, root, 0);
    let leaves = planning::leaves_in(blocks::visits_of(volume, root));
    lemma_walk_is_held(volume, root, 0);
    lemma_sorted_leaves(list);
    lemma_leaves_in(blocks::visits_of(volume, root));
    // Some leaf holds something.
    let x = held(list)[0];
    assert(held(list).contains(x));
    lemma_held_contains(list, x);
    let some = choose|i: int| 0 <= i < list.len() && (#[trigger] list[i]).items.contains(x);
    assert(list[some].items.len() > 0);
    lemma_leaves_match(volume, root, (list[some].items[0].key, list[some].at));
    assert(leaves.len() > 0);
    lemma_leaf_for(leaves, key);
    let p = planning::leaf_for(leaves, key);
    assert(leaves.contains(leaves[p]));
    lemma_leaves_match(volume, root, leaves[p]);
    let at = choose|i: int|
        0 <= i < list.len() && (#[trigger] list[i]).at == leaves[p].1 && list[i].items.len() > 0
            && list[i].items[0].key == leaves[p].0;
    assert forall|j: int| at < j < list.len() && (#[trigger] list[j]).items.len()
        > 0 implies btree::key_less(key, list[j].items[0].key) by {
        let entry = (list[j].items[0].key, list[j].at);
        lemma_leaves_match(volume, root, entry);
        let q = choose|q: int| 0 <= q < leaves.len() && leaves[q] == entry;
        assert(btree::key_less(list[at].items[0].key, list[j].items[0].key));
        if q < p {
            assert(planning::leaf_not_after(leaves[q], leaves[p]));
        }
    }
    if btree::key_less(key, list[at].items[0].key) {
        assert forall|j: int| 0 <= j < at implies (#[trigger] list[j]).items.len() == 0 by {
            if list[j].items.len() > 0 {
                let entry = (list[j].items[0].key, list[j].at);
                lemma_leaves_match(volume, root, entry);
                let q = choose|q: int| 0 <= q < leaves.len() && leaves[q] == entry;
                assert(btree::key_less(list[j].items[0].key, list[at].items[0].key));
                if q > 0 {
                    assert(planning::leaf_not_after(leaves[0], leaves[q]));
                }
            }
        }
    }
    assert forall|leaf: u64| #[trigger] render::belongs(volume, root, leaf, key) <==> leaf
        == list[at].at by {
        reveal(render::belongs);
        let one = seq![key];
        lemma_landing_from(leaves, one, 0, Seq::empty());
        assert(one[0] == key);
    }
    assert forall|keys: Seq<DiskKey>| keys.contains(key) implies #[trigger] planning::landing_leaves(
        volume,
        root,
        keys,
    ).contains(list[at].at) by {
        lemma_landing_from(leaves, keys, 0, Seq::empty());
        let i = choose|i: int| 0 <= i < keys.len() && keys[i] == key;
        assert(leaves[planning::leaf_for(leaves, keys[i])].1 == list[at].at);
    }
    at
}

} // verus!
