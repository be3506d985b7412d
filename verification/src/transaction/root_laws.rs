//! What the bytes of a volume say once a plan has been carried out.

use vstd::prelude::*;

use crate::btree;
use crate::btree::{Image, ItemModel};
use crate::bytes;
use crate::superblock::SuperblockModel;
use crate::transaction::relocation;
use crate::transaction::render;
use crate::transaction::Rewrite;
use crate::tree_write;
use crate::volume::VolumeModel;

verus! {

/// Whether a plan moves the block at `at`.
pub open spec fn moves(plan: Seq<Rewrite>, at: u64) -> bool {
    exists|k: int| 0 <= k < plan.len() && (#[trigger] plan[k]).old == at
}

/// Whether a plan moves the block at `at` to `to`.
pub open spec fn moves_to(plan: Seq<Rewrite>, at: u64, to: u64) -> bool {
    exists|k: int| 0 <= k < plan.len() && (#[trigger] plan[k]).old == at && plan[k].new == to
}

proof fn lemma_moved_to(plan: Seq<Rewrite>, at: u64)
    ensures
        moves(plan, at) == (render::moved_to(plan, at) is Some),
        render::moved_to(plan, at) matches Some(to) ==> moves_to(plan, at, to),
    decreases plan.len(),
{
    if plan.len() > 0 {
        let front = plan.drop_last();
        lemma_moved_to(front, at);
        if plan.last().old == at {
            assert(plan[plan.len() - 1].old == at);
        } else {
            if moves(plan, at) {
                let k = choose|k: int| 0 <= k < plan.len() && (#[trigger] plan[k]).old == at;
                assert(front[k].old == at);
            }
            if moves(front, at) {
                let k = choose|k: int| 0 <= k < front.len() && (#[trigger] front[k]).old == at;
                assert(plan[k].old == at);
            }
            if let Some(to) = render::moved_to(front, at) {
                let k = choose|k: int|
                    0 <= k < front.len() && (#[trigger] front[k]).old == at && front[k].new == to;
                assert(plan[k] == front[k]);
            }
        }
    }
}

/// Whether an item is a `ROOT_ITEM` that holds all a root is found by.
pub open spec fn names_a_root(item: ItemModel) -> bool {
    item.key.key_type == 132 && item.data.len() >= 239
}

/// Whether the `ROOT_ITEM` `y` follows the one it was, `x`, whose root block a
/// plan moved: its bytenr is where that block went, its generation is that
/// of the transaction and stands in the header of the block it names, and no
/// other byte changed.
pub open spec fn follows(
    x: ItemModel,
    y: ItemModel,
    plan: Seq<Rewrite>,
    generation: u64,
    after: Image,
) -> bool {
    let to = bytes::u64_at(y.data, 176);
    &&& y.key == x.key
    &&& y.data.len() == x.data.len()
    &&& moves_to(plan, bytes::u64_at(x.data, 176), to)
    &&& bytes::u64_at(y.data, 160) == generation
    &&& after(to) is Ok
    &&& bytes::u64_at(after(to)->Ok_0, 80) == bytes::u64_at(y.data, 160)
    &&& bytes::u64_at(after(to)->Ok_0, 48) == to
    &&& forall|j: int|
        0 <= j < x.data.len() && !(160 <= j < 168) && !(176 <= j < 184) ==> #[trigger] y.data[j]
            == x.data[j]
}

proof fn lemma_follows(
    volume: VolumeModel,
    plan: Seq<Rewrite>,
    generation: u64,
    after: Image,
    x: ItemModel,
)
    requires
        relocation::well_placed(volume, plan),
        relocation::carried_out(volume, plan, generation, after),
        names_a_root(x),
        moves(plan, bytes::u64_at(x.data, 176)),
    ensures
        follows(x, render::root_renamed(x, plan, generation), plan, generation, after),
{
    let old = bytes::u64_at(x.data, 176);
    lemma_moved_to(plan, old);
    let to = render::moved_to(plan, old)->Some_0;
    let y = render::root_renamed(x, plan, generation);
    let named = bytes::splice(x.data, 176, bytes::u64_bytes(to));
    bytes::lemma_u64_round_trip(x.data, 176, to);
    bytes::lemma_u64_round_trip(named, 160, generation);
    bytes::lemma_u64_local(named, y.data, 176, 176);
    let k = choose|k: int|
        0 <= k < plan.len() && (#[trigger] plan[k]).old == old && plan[k].new == to;
    assert(relocation::copied(volume, plan, generation, after, plan[k]));
    relocation::law_a_rendered_block_reads_back(
        volume,
        plan,
        generation,
        plan[k],
        after(to)->Ok_0,
    );
    law_a_rendered_block_says_whose_it_is(
        volume,
        plan,
        generation,
        plan[k],
        after(to)->Ok_0,
    );
}

/// After a plan has been carried out the root tree, walked from where its root
/// went, holds the items it held, in their order; a `ROOT_ITEM` whose root
/// block moved names where that went and the generation it was written in, and
/// every other item is what it was, byte for byte.
pub proof fn law_the_root_tree_follows_the_plan(
    volume: VolumeModel,
    plan: Seq<Rewrite>,
    generation: u64,
    after: Image,
    root: u64,
)
    requires
        relocation::well_placed(volume, plan),
        relocation::carried_out(volume, plan, generation, after),
        relocation::moves_whole(volume, plan, generation, 1, root, 0),
        volume.walk(root).fault is None,
    ensures
        ({
            let before = volume.walk(root).items;
            let s = btree::walk_from(
                after,
                volume.geometry(),
                relocation::relocated(plan, root),
                None,
                0,
            );
            &&& s.fault is None
            &&& s.items.len() == before.len()
            &&& forall|i: int|
                #![trigger s.items[i]]
                0 <= i < before.len() ==> if names_a_root(before[i]) && moves(
                    plan,
                    bytes::u64_at(before[i].data, 176),
                ) {
                    follows(before[i], s.items[i], plan, generation, after)
                } else {
                    s.items[i] == before[i]
                }
        }),
{
    let before = volume.walk(root).items;
    let s = btree::walk_from(
        after,
        volume.geometry(),
        relocation::relocated(plan, root),
        None,
        0,
    );
    relocation::law_a_moved_tree_holds_what_it_held(volume, plan, generation, after, 1, root);
    assert forall|i: int|
        #![trigger s.items[i]]
        0 <= i < before.len() implies if names_a_root(before[i]) && moves(
        plan,
        bytes::u64_at(before[i].data, 176),
    ) {
        follows(before[i], s.items[i], plan, generation, after)
    } else {
        s.items[i] == before[i]
    } by {
        let x = before[i];
        assert(s.items[i] == render::root_renamed(x, plan, generation));
        lemma_moved_to(plan, bytes::u64_at(x.data, 176));
        if names_a_root(x) && moves(plan, bytes::u64_at(x.data, 176)) {
            lemma_follows(volume, plan, generation, after, x);
        }
    }
}

/// Whether the header of the block `b` says what a block of tree `owner`
/// written at `at` in `generation` says: a checksum of all behind its field,
/// the filesystem's UUID, its own address, that it is written and uses mixed
/// back references, and its level.
pub open spec fn signed(
    b: Seq<u8>,
    sb: SuperblockModel,
    at: u64,
    owner: u64,
    generation: u64,
    level: u8,
    chunk_tree_uuid: Seq<u8>,
    nritems: nat,
) -> bool {
    &&& b.len() == sb.nodesize
    &&& b.subrange(0, 32) == sb.csum_type.field(b.subrange(32, b.len() as int))
    &&& b.subrange(32, 48) == sb.node_uuid()
    &&& bytes::u64_at(b, 48) == at
    &&& bytes::u64_at(b, 56) == 0x0100_0000_0000_0001
    &&& b.subrange(64, 80) == chunk_tree_uuid
    &&& bytes::u64_at(b, 80) == generation
    &&& bytes::u64_at(b, 88) == owner
    &&& bytes::u32_at(b, 96) == nritems as u32
    &&& b[100] == level
}

/// The new copy of a block says of itself where it lies, to which tree it
/// belongs and when it was written, and keeps the level and the chunk tree's
/// UUID of the block it replaces.
pub proof fn law_a_rendered_block_says_whose_it_is(
    volume: VolumeModel,
    plan: Seq<Rewrite>,
    generation: u64,
    r: Rewrite,
    copy: Seq<u8>,
)
    requires
        volume.block(r.old) matches Ok(b) && btree::header_of(b).level == r.level,
        render::is_copy(
            copy,
            volume.sb,
            volume,
            r,
            volume.block(r.old)->Ok_0,
            plan,
            generation,
        ),
    ensures
        ({
            let b = volume.block(r.old)->Ok_0;
            signed(
                copy,
                volume.sb,
                r.new,
                r.owner,
                generation,
                b[100],
                b.subrange(64, 80),
                if b[100] != 0 {
                    bytes::u32_at(b, 96) as nat
                } else {
                    render::leaf_rendered(
                        volume,
                        r,
                        btree::leaf_contents(b),
                        plan,
                        generation,
                    )->Ok_0.len()
                },
            )
        }),
{
    let b = volume.block(r.old)->Ok_0;
    let h = btree::header_of(copy);
    if btree::header_of(b).level == 0 {
        let items = render::leaf_rendered(
            volume,
            r,
            btree::leaf_contents(b),
            plan,
            generation,
        )->Ok_0;
        let id = choose|id: tree_write::BlockIdentity| #[trigger]
            render::identifies(id, r, generation, b) && tree_write::is_leaf_block(
                copy,
                volume.sb,
                id,
                items,
            );
        assert(h.nritems == items.len() as u32);
    } else {
        let ptrs = render::ptrs_rendered(b, plan, generation);
        let id = choose|id: tree_write::BlockIdentity| #[trigger]
            render::identifies(id, r, generation, b) && tree_write::is_node_block(
                copy,
                volume.sb,
                id,
                ptrs,
            );
        assert(h.nritems == ptrs.len() as u32);
    }
    assert(h.csum == copy.subrange(0, 32));
    assert(h.fsid == copy.subrange(32, 48));
    assert(h.chunk_tree_uuid == copy.subrange(64, 80));
    assert(btree::header_of(b).chunk_tree_uuid == b.subrange(64, 80));
}

/// Whether the pointer at position `at` of a node's copy follows the one of
/// the node: under the same key, at where its child went and under the
/// transaction's generation, or what it was where its child stayed.
pub open spec fn pointer_follows(
    b: Seq<u8>,
    copy: Seq<u8>,
    plan: Seq<Rewrite>,
    generation: u64,
    at: int,
) -> bool {
    let child = bytes::u64_at(b, at + 17);
    &&& bytes::u64_at(copy, at) == bytes::u64_at(b, at)
    &&& copy[at + 8] == b[at + 8]
    &&& bytes::u64_at(copy, at + 9) == bytes::u64_at(b, at + 9)
    &&& if moves(plan, child) {
        &&& moves_to(plan, child, bytes::u64_at(copy, at + 17))
        &&& bytes::u64_at(copy, at + 25) == generation
    } else {
        &&& bytes::u64_at(copy, at + 17) == child
        &&& bytes::u64_at(copy, at + 25) == bytes::u64_at(b, at + 25)
    }
}

/// The new copy of a node has its pointers in their places, each at where its
/// child is after the plan, and nothing behind them.
pub proof fn law_a_rendered_node_points_where_its_children_went(
    volume: VolumeModel,
    plan: Seq<Rewrite>,
    generation: u64,
    r: Rewrite,
    copy: Seq<u8>,
)
    requires
        volume.block(r.old) matches Ok(b) && btree::header_of(b).level == r.level,
        r.level != 0,
        render::is_copy(
            copy,
            volume.sb,
            volume,
            r,
            volume.block(r.old)->Ok_0,
            plan,
            generation,
        ),
    ensures
        ({
            let b = volume.block(r.old)->Ok_0;
            let n = bytes::u32_at(b, 96);
            &&& forall|k: int|
                0 <= k < n ==> #[trigger] pointer_follows(b, copy, plan, generation, 101 + k * 33)
            &&& forall|j: int| 101 + n * 33 <= j < copy.len() ==> #[trigger] copy[j] == 0
        }),
{
    let b = volume.block(r.old)->Ok_0;
    let n = bytes::u32_at(b, 96);
    let old = btree::node_ptrs(b);
    let ptrs = render::ptrs_rendered(b, plan, generation);
    let id = choose|id: tree_write::BlockIdentity| #[trigger]
        render::identifies(id, r, generation, b) && tree_write::is_node_block(
            copy,
            volume.sb,
            id,
            ptrs,
        );
    assert forall|k: int| 0 <= k < n implies #[trigger] pointer_follows(
        b,
        copy,
        plan,
        generation,
        101 + k * 33,
    ) by {
        let at = 101 + k * 33;
        let p = btree::key_ptr_at(copy, btree::HEADER_SIZE + k * btree::KEY_PTR_SIZE);
        assert(p == ptrs[k]);
        assert(ptrs[k] == render::ptr_moved(old[k], plan, generation));
        assert(old[k] == btree::key_ptr_at(b, at));
        lemma_moved_to(plan, old[k].blockptr);
    }
}

} // verus!
