//! What a transaction does to the trees whose blocks it moves.

use vstd::prelude::*;

use crate::btree;
use crate::btree::{Image, ItemModel, KeyPtr, Stream};
use crate::bytes;
use crate::chunk;
use crate::chunk::objectid;
use crate::commit;
use crate::commit::PlacedBlock;
use crate::device;
use crate::device_write;
use crate::device_write::ActionModel;
use crate::error::ErrorView;
use crate::fs::{root_item, FilesystemModel, ROOT_ITEM_KEY};
use crate::super_write::Commit;
use crate::superblock::MAX_LEVEL;
use crate::transaction::leaf_lists;
use crate::transaction::leaf_lists::LeafModel;
use crate::transaction::render;
use crate::transaction::Rewrite;
use crate::tree_write;
use crate::volume;
use crate::volume::VolumeModel;

verus! {

/// Where a block is once a plan has been carried out.
pub open spec fn relocated(plan: Seq<Rewrite>, at: u64) -> u64 {
    match render::moved_to(plan, at) {
        Some(to) => to,
        None => at,
    }
}

/// Whether a plan's rewrites name blocks by their own level and take no
/// address that a pointer cannot name.
pub open spec fn well_placed(volume: VolumeModel, plan: Seq<Rewrite>) -> bool {
    forall|i: int|
        0 <= i < plan.len() ==> (#[trigger] plan[i]).new != 0 && (volume.block(
            plan[i].old,
        ) matches Ok(b) ==> btree::header_of(b).level == plan[i].level)
}

/// Whether `after` is what lies on the volume once a plan has been carried
/// out: at each new address the new copy of what lies at the old one, and
/// every other block where and as it was.
pub open spec fn carried_out(
    volume: VolumeModel,
    plan: Seq<Rewrite>,
    generation: u64,
    after: Image,
) -> bool {
    &&& forall|i: int|
        0 <= i < plan.len() ==> copied(volume, plan, generation, after, #[trigger] plan[i])
    &&& forall|a: u64|
        clear_of(volume, plan, a) && volume.block(a) is Ok ==> #[trigger] after(a)
            == (volume.image())(a)
}

/// Whether a block at `at` shares no address with any that a plan takes.
pub open spec fn clear_of(volume: VolumeModel, plan: Seq<Rewrite>, at: u64) -> bool {
    forall|i: int|
        0 <= i < plan.len() ==> {
            ||| at + volume.sb.nodesize <= (#[trigger] plan[i]).new
            ||| plan[i].new + volume.sb.nodesize <= at
        }
}

/// Whether the new copy of a rewrite's block lies at its new address.
pub open spec fn copied(
    volume: VolumeModel,
    plan: Seq<Rewrite>,
    generation: u64,
    after: Image,
    r: Rewrite,
) -> bool {
    &&& volume.block(r.old) is Ok
    &&& after(r.new) is Ok
    &&& render::render_refusal(volume, r, plan, generation) is None
    &&& render::is_copy(
        after(r.new)->Ok_0,
        volume.sb,
        volume,
        r,
        volume.block(r.old)->Ok_0,
        plan,
        generation,
    )
}

/// An item of tree `owner` as a plan leaves it: in the root tree a
/// `ROOT_ITEM` names its tree's root where that went, anywhere else an item
/// is what it was.
pub open spec fn carried(owner: u64, plan: Seq<Rewrite>, generation: u64) -> spec_fn(
    ItemModel,
) -> ItemModel {
    |i: ItemModel|
        if owner == objectid::ROOT_TREE {
            render::root_renamed(i, plan, generation)
        } else {
            i
        }
}

/// Whether a plan moves the tree `owner`, as far as it is reached from `at`,
/// as a whole: none of its blocks shares an address with a new one, a block
/// that moves moves as a block of that tree and takes the node above it
/// along, and a leaf that stays has no item that changes.
pub open spec fn moves_whole(
    volume: VolumeModel,
    plan: Seq<Rewrite>,
    generation: u64,
    owner: u64,
    at: u64,
    depth: nat,
) -> bool
    decreases MAX_LEVEL - depth,
{
    &&& clear_of(volume, plan, at)
    &&& forall|i: int|
        0 <= i < plan.len() && (#[trigger] plan[i]).old == at ==> plan[i].owner == owner
    &&& volume.block(at) matches Ok(b) ==> {
        &&& btree::header_of(b).level == 0 && render::moved_to(plan, at) is None ==> forall|k: int|
            0 <= k < btree::leaf_contents(b).len() ==> carried(owner, plan, generation)(
                #[trigger] btree::leaf_contents(b)[k],
            ) == btree::leaf_contents(b)[k]
        &&& btree::header_of(b).level != 0 && depth < MAX_LEVEL ==> forall|k: int|
            #![trigger btree::node_ptrs(b)[k]]
            0 <= k < btree::node_ptrs(b).len() ==> {
                &&& moves_whole(
                    volume,
                    plan,
                    generation,
                    owner,
                    btree::node_ptrs(b)[k].blockptr,
                    depth + 1,
                )
                &&& render::moved_to(plan, btree::node_ptrs(b)[k].blockptr) is Some
                    ==> render::moved_to(plan, at) is Some
            }
    }
}

/// A block that a plan moves is one of its rewrites.
proof fn lemma_moved(plan: Seq<Rewrite>, at: u64)
    ensures
        render::moved_to(plan, at) matches Some(to) ==> exists|i: int|
            0 <= i < plan.len() && (#[trigger] plan[i]).old == at && plan[i].new == to,
    decreases plan.len(),
{
    if plan.len() > 0 {
        let last = plan.len() - 1;
        if plan.last().old == at {
            assert(plan[last].old == at);
        } else {
            lemma_moved(plan.drop_last(), at);
            if let Some(to) = render::moved_to(plan.drop_last(), at) {
                let i = choose|i: int|
                    0 <= i < plan.drop_last().len() && (#[trigger] plan.drop_last()[i]).old == at
                        && plan.drop_last()[i].new == to;
                assert(plan[i] == plan.drop_last()[i]);
            }
        }
    }
}

proof fn lemma_no_null_child(ptrs: Seq<KeyPtr>, logical: u64, from: int, k: int)
    requires
        0 <= from <= k < ptrs.len(),
        btree::ptrs_error(ptrs, logical, from) is None,
    ensures
        ptrs[k].blockptr != 0,
    decreases k - from,
{
    if from < k {
        lemma_no_null_child(ptrs, logical, from + 1, k);
    }
}

/// A rendered block reads back: at its new address it passes every check a
/// tree block faces, under its old level and owner and the new generation. A
/// leaf holds its items as the plan leaves them, a node points at its children
/// where they went.
pub proof fn law_a_rendered_block_reads_back(
    volume: VolumeModel,
    plan: Seq<Rewrite>,
    generation: u64,
    r: Rewrite,
    copy: Seq<u8>,
)
    requires
        well_placed(volume, plan),
        volume.block(r.old) matches Ok(b) && btree::header_of(b).level == r.level,
        render::render_refusal(volume, r, plan, generation) is None,
        render::is_copy(
            copy,
            volume.sb,
            volume,
            r,
            volume.block(r.old)->Ok_0,
            plan,
            generation,
        ),
    ensures
        ({
            let b = volume.block(r.old)->Ok_0;
            let geom = volume.geometry();
            &&& btree::block_error(copy, r.new, geom, btree::block_intact(copy, geom)) is None
            &&& btree::header_of(copy).level == r.level
            &&& btree::header_of(copy).owner == r.owner
            &&& btree::header_of(copy).generation == generation
            &&& r.level == 0 ==> render::leaf_rendered(
                volume,
                r,
                btree::leaf_contents(b),
                plan,
                generation,
            ) == Ok::<Seq<ItemModel>, ErrorView>(btree::leaf_contents(copy))
            &&& r.level != 0 ==> btree::node_ptrs(copy) == render::ptrs_rendered(
                b,
                plan,
                generation,
            )
        }),
{
    reveal(VolumeModel::block);
    let b = volume.block(r.old)->Ok_0;
    let geom = volume.geometry();
    btree::law_parsed_block_is_sound(b, r.old, geom, btree::block_intact(b, geom));
    if r.level == 0 {
        let items = render::leaf_rendered(
            volume,
            r,
            btree::leaf_contents(b),
            plan,
            generation,
        )->Ok_0;
        let id = choose|id: tree_write::BlockIdentity| #[trigger]
            render::identifies(id, r, generation, b) && tree_write::is_leaf_block(
                copy,
                volume.sb,
                id,
                items,
            );
        tree_write::law_built_leaf_reads_back(copy, volume.sb, id, items);
    } else {
        let old = btree::node_ptrs(b);
        let ptrs = render::ptrs_rendered(b, plan, generation);
        let id = choose|id: tree_write::BlockIdentity| #[trigger]
            render::identifies(id, r, generation, b) && tree_write::is_node_block(
                copy,
                volume.sb,
                id,
                ptrs,
            );
        assert forall|k: int| 0 <= k < ptrs.len() implies (#[trigger] ptrs[k]).blockptr != 0 by {
            lemma_no_null_child(old, r.old, 0, k);
            lemma_moved(plan, old[k].blockptr);
        }
        tree_write::law_built_node_reads_back(copy, volume.sb, id, ptrs);
    }
}

/// What a leaf of tree `owner` holds once a plan has been carried out.
pub open spec fn leaf_after(
    volume: VolumeModel,
    plan: Seq<Rewrite>,
    generation: u64,
    owner: u64,
    leaf: LeafModel,
) -> Seq<ItemModel> {
    match render::moved_to(plan, leaf.at) {
        Some(to) => render::leaf_rendered(
            volume,
            Rewrite { old: leaf.at, new: to, owner, level: 0 },
            leaf.items,
            plan,
            generation,
        )->Ok_0,
        None => leaf.items,
    }
}

/// Leaves of tree `owner` once a plan has been carried out.
pub open spec fn leaves_after(
    volume: VolumeModel,
    plan: Seq<Rewrite>,
    generation: u64,
    owner: u64,
    leaves: Seq<LeafModel>,
) -> Seq<LeafModel> {
    leaves.map_values(
        |l: LeafModel|
            LeafModel {
                at: relocated(plan, l.at),
                items: leaf_after(volume, plan, generation, owner, l),
            },
    )
}

/// The new copy of a leaf is what the plan makes of the leaf.
proof fn lemma_leaf_rendered(
    volume: VolumeModel,
    plan: Seq<Rewrite>,
    generation: u64,
    r: Rewrite,
    to: u64,
    items: Seq<ItemModel>,
)
    ensures
        render::leaf_rendered(volume, r, items, plan, generation) == render::leaf_rendered(
            volume,
            Rewrite { old: r.old, new: to, owner: r.owner, level: 0 },
            items,
            plan,
            generation,
        ),
{
    reveal(render::leaf_rendered);
}

/// The block at an address of a tree that moves as a whole, after the plan.
proof fn lemma_block_after(
    volume: VolumeModel,
    plan: Seq<Rewrite>,
    generation: u64,
    after: Image,
    owner: u64,
    at: u64,
    depth: nat,
) -> (copy: Seq<u8>)
    requires
        well_placed(volume, plan),
        carried_out(volume, plan, generation, after),
        moves_whole(volume, plan, generation, owner, at, depth),
        depth < MAX_LEVEL,
        volume.block(at) is Ok,
    ensures
        ({
            let b = volume.block(at)->Ok_0;
            &&& btree::block_at(after, volume.geometry(), relocated(plan, at)) == Ok::<
                Seq<u8>,
                ErrorView,
            >(copy)
            &&& btree::header_of(copy).level == btree::header_of(b).level
            &&& btree::header_of(b).level == 0 ==> btree::leaf_contents(copy) == leaf_after(
                volume,
                plan,
                generation,
                owner,
                LeafModel { at, items: btree::leaf_contents(b) },
            )
            &&& btree::header_of(b).level != 0 ==> {
                &&& btree::node_ptrs(copy).len() == btree::node_ptrs(b).len()
                &&& forall|k: int|
                    0 <= k < btree::node_ptrs(b).len() ==> (#[trigger] btree::node_ptrs(
                        copy,
                    )[k]).blockptr == relocated(plan, btree::node_ptrs(b)[k].blockptr)
            }
        }),
{
    reveal(VolumeModel::block);
    let b = volume.block(at)->Ok_0;
    match render::moved_to(plan, at) {
        None => {
            assert(after(at) == (volume.image())(at));
            if btree::header_of(b).level != 0 {
                assert forall|k: int| 0 <= k < btree::node_ptrs(b).len() implies (
                #[trigger] btree::node_ptrs(b)[k]).blockptr == relocated(
                    plan,
                    btree::node_ptrs(b)[k].blockptr,
                ) by {
                    assert(render::moved_to(plan, btree::node_ptrs(b)[k].blockptr) is None);
                }
            }
            b
        },
        Some(to) => {
            lemma_moved(plan, at);
            let i = choose|i: int|
                0 <= i < plan.len() && (#[trigger] plan[i]).old == at && plan[i].new == to;
            let r = plan[i];
            assert(copied(volume, plan, generation, after, plan[i]));
            let copy = after(to)->Ok_0;
            law_a_rendered_block_reads_back(volume, plan, generation, r, copy);
            if r.level == 0 {
                lemma_leaf_rendered(volume, plan, generation, r, to, btree::leaf_contents(b));
            } else {
                assert forall|k: int| 0 <= k < btree::node_ptrs(b).len() implies (
                #[trigger] btree::node_ptrs(copy)[k]).blockptr == relocated(
                    plan,
                    btree::node_ptrs(b)[k].blockptr,
                ) by {
                    assert(btree::node_ptrs(copy)[k] == render::ptr_moved(
                        btree::node_ptrs(b)[k],
                        plan,
                        generation,
                    ));
                }
            }
            copy
        },
    }
}

proof fn lemma_walk_after(
    volume: VolumeModel,
    plan: Seq<Rewrite>,
    generation: u64,
    after: Image,
    owner: u64,
    at: u64,
    depth: nat,
)
    requires
        well_placed(volume, plan),
        carried_out(volume, plan, generation, after),
        moves_whole(volume, plan, generation, owner, at, depth),
        btree::walk_from(volume.image(), volume.geometry(), at, None, depth).fault is None,
    ensures
        ({
            let s = btree::walk_from(
                after,
                volume.geometry(),
                relocated(plan, at),
                None,
                depth,
            );
            let leaves = leaf_lists::leaves_from(volume, at, depth);
            &&& s.fault is None
            &&& s.items == leaf_lists::held(
                leaves_after(volume, plan, generation, owner, leaves),
            )
        }),
    decreases MAX_LEVEL - depth, 1nat, 0int,
{
    reveal(VolumeModel::block);
    let b = volume.block(at)->Ok_0;
    let copy = lemma_block_after(volume, plan, generation, after, owner, at, depth);
    let leaves = leaf_lists::leaves_from(volume, at, depth);
    let moved = leaves_after(volume, plan, generation, owner, leaves);
    if btree::header_of(b).level == 0 {
        let items = btree::leaf_contents(copy);
        assert(leaves =~= seq![LeafModel { at, items: btree::leaf_contents(b) }]);
        assert(moved =~= seq![LeafModel { at: relocated(plan, at), items }]);
        assert(items.skip(0) =~= items);
        assert(moved.skip(1) =~= Seq::<LeafModel>::empty());
        assert(moved[0].items + leaf_lists::held(moved.skip(1)) =~= items);
    } else {
        let ptrs = btree::node_ptrs(b);
        assert forall|k: int| 0 <= k < ptrs.len() implies moves_whole(
            volume,
            plan,
            generation,
            owner,
            (#[trigger] ptrs[k]).blockptr,
            depth + 1,
        ) by {}
        lemma_children_after(
            volume,
            plan,
            generation,
            after,
            owner,
            ptrs,
            btree::node_ptrs(copy),
            0,
            depth,
        );
    }
}

proof fn lemma_children_after(
    volume: VolumeModel,
    plan: Seq<Rewrite>,
    generation: u64,
    after: Image,
    owner: u64,
    ptrs: Seq<KeyPtr>,
    copies: Seq<KeyPtr>,
    from: int,
    depth: nat,
)
    requires
        well_placed(volume, plan),
        carried_out(volume, plan, generation, after),
        0 <= from,
        depth < MAX_LEVEL,
        forall|k: int|
            0 <= k < ptrs.len() ==> moves_whole(
                volume,
                plan,
                generation,
                owner,
                (#[trigger] ptrs[k]).blockptr,
                depth + 1,
            ),
        copies.len() == ptrs.len(),
        forall|k: int|
            0 <= k < ptrs.len() ==> (#[trigger] copies[k]).blockptr == relocated(
                plan,
                ptrs[k].blockptr,
            ),
        btree::walk_children(volume.image(), volume.geometry(), ptrs, from, None, depth).fault is None,
    ensures
        ({
            let s = btree::walk_children(after, volume.geometry(), copies, from, None, depth);
            let leaves = leaf_lists::leaves_under(volume, ptrs, from, depth);
            &&& s.fault is None
            &&& s.items == leaf_lists::held(
                leaves_after(volume, plan, generation, owner, leaves),
            )
        }),
    decreases MAX_LEVEL - depth, 0nat, ptrs.len() - from,
{
    let leaves = leaf_lists::leaves_under(volume, ptrs, from, depth);
    let moved = leaves_after(volume, plan, generation, owner, leaves);
    if from < ptrs.len() {
        let head = leaf_lists::leaves_from(volume, ptrs[from].blockptr, depth + 1);
        let tail = leaf_lists::leaves_under(volume, ptrs, from + 1, depth);
        assert(copies[from].blockptr == relocated(plan, ptrs[from].blockptr));
        lemma_walk_after(
            volume,
            plan,
            generation,
            after,
            owner,
            ptrs[from].blockptr,
            depth + 1,
        );
        lemma_children_after(
            volume,
            plan,
            generation,
            after,
            owner,
            ptrs,
            copies,
            from + 1,
            depth,
        );
        let moved_head = leaves_after(volume, plan, generation, owner, head);
        let moved_tail = leaves_after(volume, plan, generation, owner, tail);
        assert(moved =~= moved_head + moved_tail);
        leaf_lists::lemma_held_joined(moved_head, moved_tail);
    } else {
        assert(moved =~= Seq::<LeafModel>::empty());
    }
}

/// A tree that moves is its leaves as the plan leaves them: walked from where
/// its root went it meets no fault, and gives what they hold, leaf by leaf in
/// the order they were in.
pub proof fn law_a_moved_tree_is_its_leaves_rendered(
    volume: VolumeModel,
    plan: Seq<Rewrite>,
    generation: u64,
    after: Image,
    owner: u64,
    root: u64,
)
    requires
        well_placed(volume, plan),
        carried_out(volume, plan, generation, after),
        moves_whole(volume, plan, generation, owner, root, 0),
        volume.walk(root).fault is None,
    ensures
        btree::walk_from(after, volume.geometry(), relocated(plan, root), None, 0) == (Stream {
            items: leaf_lists::held(
                leaves_after(
                    volume,
                    plan,
                    generation,
                    owner,
                    leaf_lists::leaves_from(volume, root, 0),
                ),
            ),
            fault: None,
        }),
{
    lemma_walk_after(volume, plan, generation, after, owner, root, 0);
}

/// What moving as a whole says of each leaf: one that moves is rendered
/// without a refusal, one that stays has no item that changes.
pub proof fn lemma_leaf_of_moved_tree(
    volume: VolumeModel,
    plan: Seq<Rewrite>,
    generation: u64,
    after: Image,
    owner: u64,
    at: u64,
    depth: nat,
    i: int,
)
    requires
        well_placed(volume, plan),
        carried_out(volume, plan, generation, after),
        moves_whole(volume, plan, generation, owner, at, depth),
        0 <= i < leaf_lists::leaves_from(volume, at, depth).len(),
    ensures
        leaf_stands(
            volume,
            plan,
            generation,
            owner,
            leaf_lists::leaves_from(volume, at, depth)[i],
        ),
    decreases MAX_LEVEL - depth, 1nat, 0int,
{
    reveal(VolumeModel::block);
    let b = volume.block(at)->Ok_0;
    let leaf = leaf_lists::leaves_from(volume, at, depth)[i];
    if btree::header_of(b).level == 0 {
        if let Some(to) = render::moved_to(plan, at) {
            lemma_moved(plan, at);
            let k = choose|k: int|
                0 <= k < plan.len() && (#[trigger] plan[k]).old == at && plan[k].new == to;
            assert(copied(volume, plan, generation, after, plan[k]));
            lemma_leaf_rendered(volume, plan, generation, plan[k], to, leaf.items);
        }
    } else {
        let ptrs = btree::node_ptrs(b);
        assert forall|k: int| 0 <= k < ptrs.len() implies moves_whole(
            volume,
            plan,
            generation,
            owner,
            (#[trigger] ptrs[k]).blockptr,
            depth + 1,
        ) by {}
        lemma_leaf_under_moved(volume, plan, generation, after, owner, ptrs, 0, depth, i);
    }
}

/// Whether a leaf of tree `owner` is rendered without a refusal if it moves,
/// and has no item that changes if it does not.
pub open spec fn leaf_stands(
    volume: VolumeModel,
    plan: Seq<Rewrite>,
    generation: u64,
    owner: u64,
    leaf: LeafModel,
) -> bool {
    match render::moved_to(plan, leaf.at) {
        Some(to) => render::leaf_rendered(
            volume,
            Rewrite { old: leaf.at, new: to, owner, level: 0 },
            leaf.items,
            plan,
            generation,
        ) is Ok,
        None => forall|k: int|
            0 <= k < leaf.items.len() ==> carried(owner, plan, generation)(
                #[trigger] leaf.items[k],
            ) == leaf.items[k],
    }
}

proof fn lemma_leaf_under_moved(
    volume: VolumeModel,
    plan: Seq<Rewrite>,
    generation: u64,
    after: Image,
    owner: u64,
    ptrs: Seq<KeyPtr>,
    from: int,
    depth: nat,
    i: int,
)
    requires
        well_placed(volume, plan),
        carried_out(volume, plan, generation, after),
        0 <= from,
        depth < MAX_LEVEL,
        forall|k: int|
            0 <= k < ptrs.len() ==> moves_whole(
                volume,
                plan,
                generation,
                owner,
                (#[trigger] ptrs[k]).blockptr,
                depth + 1,
            ),
        0 <= i < leaf_lists::leaves_under(volume, ptrs, from, depth).len(),
    ensures
        leaf_stands(
            volume,
            plan,
            generation,
            owner,
            leaf_lists::leaves_under(volume, ptrs, from, depth)[i],
        ),
    decreases MAX_LEVEL - depth, 0nat, ptrs.len() - from,
{
    let all = leaf_lists::leaves_under(volume, ptrs, from, depth);
    let head = leaf_lists::leaves_from(volume, ptrs[from].blockptr, depth + 1);
    let tail = leaf_lists::leaves_under(volume, ptrs, from + 1, depth);
    if i < head.len() {
        assert(moves_whole(volume, plan, generation, owner, ptrs[from].blockptr, depth + 1));
        lemma_leaf_of_moved_tree(
            volume,
            plan,
            generation,
            after,
            owner,
            ptrs[from].blockptr,
            depth + 1,
            i,
        );
        assert(all[i] == head[i]);
    } else {
        lemma_leaf_under_moved(
            volume,
            plan,
            generation,
            after,
            owner,
            ptrs,
            from + 1,
            depth,
            i - head.len(),
        );
        assert(all[i] == tail[i - head.len()]);
    }
}

/// What a walk gives after the plan, of what it gave before.
pub open spec fn stream_carried(
    s: Stream,
    owner: u64,
    plan: Seq<Rewrite>,
    generation: u64,
) -> Stream {
    Stream { items: s.items.map_values(carried(owner, plan, generation)), fault: None }
}

/// Where every leaf keeps its items but for the roots it names, so do all
/// together.
proof fn lemma_leaves_carried(
    volume: VolumeModel,
    plan: Seq<Rewrite>,
    generation: u64,
    owner: u64,
    leaves: Seq<LeafModel>,
)
    requires
        owner != objectid::EXTENT_TREE,
        owner != objectid::FREE_SPACE_TREE,
        forall|i: int|
            0 <= i < leaves.len() ==> leaf_stands(
                volume,
                plan,
                generation,
                owner,
                #[trigger] leaves[i],
            ),
    ensures
        leaf_lists::held(leaves_after(volume, plan, generation, owner, leaves))
            == leaf_lists::held(leaves).map_values(carried(owner, plan, generation)),
    decreases leaves.len(),
{
    let f = carried(owner, plan, generation);
    let moved = leaves_after(volume, plan, generation, owner, leaves);
    if leaves.len() > 0 {
        let rest = leaves.skip(1);
        let items = leaves[0].items;
        assert forall|i: int| 0 <= i < rest.len() implies leaf_stands(
            volume,
            plan,
            generation,
            owner,
            #[trigger] rest[i],
        ) by {
            assert(rest[i] == leaves[i + 1]);
        }
        lemma_leaves_carried(volume, plan, generation, owner, rest);
        assert(moved.skip(1) =~= leaves_after(volume, plan, generation, owner, rest));
        assert(leaf_stands(volume, plan, generation, owner, leaves[0]));
        assert(moved[0].items =~= items.map_values(f)) by {
            reveal(render::leaf_rendered);
            if owner == objectid::ROOT_TREE {
                assert(items.map_values(|x: ItemModel| render::root_renamed(x, plan, generation))
                    =~= items.map_values(f));
            }
        }
        assert((items + leaf_lists::held(rest)).map_values(f) =~= items.map_values(f)
            + leaf_lists::held(rest).map_values(f));
    } else {
        assert(leaf_lists::held(leaves).map_values(f) =~= leaf_lists::held(moved));
    }
}

/// A tree that moves holds afterwards what it held: walked from where its
/// root went, it gives the same items in the same order, but that the root
/// tree names the roots that moved where they went. The two trees that record
/// where blocks lie follow the plan, and are left out here.
pub proof fn law_a_moved_tree_holds_what_it_held(
    volume: VolumeModel,
    plan: Seq<Rewrite>,
    generation: u64,
    after: Image,
    owner: u64,
    root: u64,
)
    requires
        well_placed(volume, plan),
        carried_out(volume, plan, generation, after),
        owner != objectid::EXTENT_TREE,
        owner != objectid::FREE_SPACE_TREE,
        moves_whole(volume, plan, generation, owner, root, 0),
        volume.walk(root).fault is None,
    ensures
        btree::walk_from(after, volume.geometry(), relocated(plan, root), None, 0)
            == stream_carried(volume.walk(root), owner, plan, generation),
        owner != objectid::ROOT_TREE ==> btree::walk_from(
            after,
            volume.geometry(),
            relocated(plan, root),
            None,
            0,
        ) == volume.walk(root),
{
    let leaves = leaf_lists::leaves_from(volume, root, 0);
    law_a_moved_tree_is_its_leaves_rendered(volume, plan, generation, after, owner, root);
    leaf_lists::lemma_walk_is_held(volume, root, 0);
    assert forall|i: int| 0 <= i < leaves.len() implies leaf_stands(
        volume,
        plan,
        generation,
        owner,
        #[trigger] leaves[i],
    ) by {
        lemma_leaf_of_moved_tree(volume, plan, generation, after, owner, root, 0, i);
    }
    lemma_leaves_carried(volume, plan, generation, owner, leaves);
    if owner != objectid::ROOT_TREE {
        let f = carried(owner, plan, generation);
        assert(volume.walk(root).items.map_values(f) =~= volume.walk(root).items);
    }
}

/// Every tree is found where its root went: after the plan, the root tree,
/// walked from where its own root went, names for each tree the new address of
/// its root, or the old one where that did not move.
pub proof fn law_moved_trees_are_found(
    volume: VolumeModel,
    plan: Seq<Rewrite>,
    generation: u64,
    after: Image,
    tree: u64,
)
    requires
        well_placed(volume, plan),
        carried_out(volume, plan, generation, after),
        moves_whole(volume, plan, generation, objectid::ROOT_TREE, volume.sb.root, 0),
        volume.walk(volume.sb.root).fault is None,
        forall|i: int|
            0 <= i < volume.walk(volume.sb.root).items.len() && (#[trigger] volume.walk(
                volume.sb.root,
            ).items[i]).key.key_type == ROOT_ITEM_KEY ==> volume.walk(
                volume.sb.root,
            ).items[i].data.len() > root_item::LEVEL,
        volume.tree_root(tree) is Ok,
    ensures
        volume::root_target(
            btree::walk_from(
                after,
                volume.geometry(),
                relocated(plan, volume.sb.root),
                None,
                0,
            ),
            tree,
        ) == Ok::<u64, ErrorView>(relocated(plan, volume.tree_root(tree)->Ok_0)),
{
    let root = volume.sb.root;
    let s = volume.walk(root);
    let f = carried(objectid::ROOT_TREE, plan, generation);
    let pass = volume::passes_root(tree);
    law_a_moved_tree_holds_what_it_held(
        volume,
        plan,
        generation,
        after,
        objectid::ROOT_TREE,
        root,
    );
    let moved = s.items.map_values(f);
    assert forall|i: int| 0 <= i < s.items.len() implies pass(#[trigger] moved[i]) == pass(
        s.items[i],
    ) by {
        lemma_renamed(s.items[i], plan, generation);
    }
    lemma_seen_alike(s.items, moved, pass);
    let n: int = btree::seen_count(s.items, pass) - 1;
    btree::lemma_seen(s.items, pass);
    lemma_renamed(s.items[n], plan, generation);
    assert(!pass(s.items[n]));
    let j = choose|j: int| 0 <= j < s.items.len() && !pass(#[trigger] s.items[j]);
    assert(!pass(moved[j]));
}

/// Renaming a root leaves an item's key and length, and a `ROOT_ITEM` that
/// can hold a level then names where the root went.
proof fn lemma_renamed(item: ItemModel, plan: Seq<Rewrite>, generation: u64)
    ensures
        render::root_renamed(item, plan, generation).key == item.key,
        render::root_renamed(item, plan, generation).data.len() == item.data.len(),
        item.key.key_type == ROOT_ITEM_KEY && item.data.len() > root_item::LEVEL ==> bytes::u64_at(
            render::root_renamed(item, plan, generation).data,
            root_item::BYTENR as int,
        ) == relocated(plan, bytes::u64_at(item.data, root_item::BYTENR as int)),
{
    let at: int = root_item::BYTENR as int;
    if item.key.key_type == ROOT_ITEM_KEY && item.data.len() > root_item::LEVEL {
        if let Some(to) = render::moved_to(plan, bytes::u64_at(item.data, at)) {
            let named = bytes::splice(item.data, at, bytes::u64_bytes(to));
            bytes::lemma_u64_round_trip(item.data, at, to);
            bytes::lemma_u64_round_trip(named, root_item::GENERATION as int, generation);
            bytes::lemma_u64_local(
                named,
                render::root_renamed(item, plan, generation).data,
                at,
                at,
            );
        }
    }
}

/// A visitor that cannot tell two walks apart sees as much of each.
proof fn lemma_seen_alike(
    a: Seq<ItemModel>,
    b: Seq<ItemModel>,
    pass: spec_fn(ItemModel) -> bool,
)
    requires
        a.len() == b.len(),
        forall|i: int| 0 <= i < a.len() ==> pass(#[trigger] b[i]) == pass(a[i]),
    ensures
        btree::seen_count(a, pass) == btree::seen_count(b, pass),
    decreases a.len(),
{
    if a.len() > 0 {
        let x = a.drop_first();
        let y = b.drop_first();
        assert forall|i: int| 0 <= i < x.len() implies pass(#[trigger] y[i]) == pass(x[i]) by {
            assert(pass(b[i + 1]) == pass(a[i + 1]));
        }
        lemma_seen_alike(x, y, pass);
        assert(pass(b[0]) == pass(a[0]));
    }
}

/// Committing the rendering of a plan carries the plan out, as long as the
/// commit writes no byte of the device twice and none of a block that shares
/// no address with those the plan takes.
pub proof fn law_a_committed_plan_is_carried_out(
    fs: FilesystemModel,
    plan: Seq<Rewrite>,
    generation: u64,
    blocks: Seq<PlacedBlock>,
    commit: Commit,
    content: Seq<u8>,
    actions: Seq<ActionModel>,
)
    requires
        chunk::divisible(fs.volume.map),
        fs.volume.ids == Seq::<u64>::empty(),
        content.len() <= u64::MAX,
        fs.volume.disk == device_write::holding(content),
        fs.writable == Some(content.len() as u64),
        render::first_refusal(fs.volume, plan, generation, 0) is None,
        render::rendered(blocks, fs.volume, plan, generation, plan.len() as int),
        commit::commit_outcome(fs, commit::placed_models(blocks), commit) == Ok::<
            Seq<ActionModel>,
            ErrorView,
        >(actions),
        device_write::apart(actions),
        forall|a: u64|
            clear_of(fs.volume, plan, a) && fs.volume.block(a) is Ok
                ==> #[trigger] device_write::avoids(
                fs.volume.map,
                a,
                fs.volume.sb.nodesize as nat,
                actions,
            ),
    ensures
        carried_out(
            fs.volume,
            plan,
            generation,
            device::pool_image(
                device_write::holding(device_write::performed(content, actions)),
                Seq::empty(),
                fs.volume.map,
                fs.volume.sb.nodesize,
            ),
        ),
{
    let volume = fs.volume;
    let nodesize = volume.sb.nodesize;
    let placed = commit::placed_models(blocks);
    let after = device::pool_image(
        device_write::holding(device_write::performed(content, actions)),
        Seq::empty(),
        volume.map,
        nodesize,
    );
    assert forall|i: int| 0 <= i < plan.len() implies copied(
        volume,
        plan,
        generation,
        after,
        #[trigger] plan[i],
    ) by {
        assert(render::renders(blocks[i], volume, plan[i], plan, generation));
        commit::law_committed_blocks_are_read_back(fs, placed, commit, content, actions, i);
        assert(placed[i] == blocks[i]@);
        lemma_no_refusal(volume, plan, generation, 0, i);
    }
    assert forall|a: u64| clear_of(volume, plan, a) && volume.block(a) is Ok implies #[trigger] after(
        a,
    ) == (volume.image())(a) by {
        assert(device_write::avoids(volume.map, a, nodesize as nat, actions));
        device_write::law_what_is_not_written_reads_as_before(
            volume.map,
            a,
            nodesize as nat,
            content,
            actions,
        );
    }
}

/// Where no rewrite of a plan is refused, none is.
proof fn lemma_no_refusal(volume: VolumeModel, plan: Seq<Rewrite>, generation: u64, k: int, i: int)
    requires
        0 <= k <= i < plan.len(),
        render::first_refusal(volume, plan, generation, k) is None,
    ensures
        render::render_refusal(volume, plan[i], plan, generation) is None,
    decreases i - k,
{
    if k < i {
        lemma_no_refusal(volume, plan, generation, k + 1, i);
    }
}

} // verus!
