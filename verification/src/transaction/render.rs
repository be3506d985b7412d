//! Turning a plan into the blocks it says to write.

use vstd::prelude::*;

use crate::btree;
use crate::btree::{ItemModel, KeyPtr, TreeBlock};
use crate::bytes;
use crate::bytes::{copy_range, le64, put64};
use crate::chunk::{objectid, DiskKey};
use crate::commit::PlacedBlock;
use crate::error::{ErrorView, Result};
use crate::extent_write;
use crate::extent_write::{record_tree_block, TreeBlockAllocation};
use crate::fs::{root_item, Filesystem, ROOT_ITEM_KEY};
use crate::leaf_edit;
use crate::leaf_edit::{borrow_all, delete, insert, OwnedItem};
use crate::superblock::SuperblockModel;
use crate::transaction::free_space;
use crate::transaction::planning;
use crate::transaction::{Plan, Rewrite};
use crate::tree_write;
use crate::tree_write::{
    build_leaf, build_node, chunk_tree_uuid_of, flags_for_new_block, BlockIdentity,
};
use crate::volume::VolumeModel;

verus! {

/// Where a plan moves the block at `at`, if it moves it.
pub open spec fn moved_to(plan: Seq<Rewrite>, at: u64) -> Option<u64>
    decreases plan.len(),
{
    if plan.len() == 0 {
        None
    } else if plan.last().old == at {
        Some(plan.last().new)
    } else {
        moved_to(plan.drop_last(), at)
    }
}

/// A key pointer as a plan leaves it: a child that moved is pointed at where
/// it went.
pub open spec fn ptr_moved(p: KeyPtr, plan: Seq<Rewrite>, generation: u64) -> KeyPtr {
    match moved_to(plan, p.blockptr) {
        Some(to) => KeyPtr { key: p.key, blockptr: to, generation },
        None => p,
    }
}

/// An item of a root tree leaf as a plan leaves it: a `ROOT_ITEM` whose tree's
/// root moved names where it went, under the new generation.
pub open spec fn root_renamed(item: ItemModel, plan: Seq<Rewrite>, generation: u64) -> ItemModel {
    let at = bytes::u64_at(item.data, root_item::BYTENR as int);
    if item.key.key_type != ROOT_ITEM_KEY || item.data.len() < root_item::LEVEL + 1 {
        item
    } else {
        match moved_to(plan, at) {
            Some(to) => ItemModel {
                key: item.key,
                data: bytes::splice(
                    bytes::splice(item.data, root_item::BYTENR as int, bytes::u64_bytes(to)),
                    root_item::GENERATION as int,
                    bytes::u64_bytes(generation),
                ),
            },
            None => item,
        }
    }
}

/// Whether an insert under `key` lands in the leaf at `leaf`.
#[verifier::opaque]
pub open spec fn belongs(volume: VolumeModel, root: u64, leaf: u64, key: DiskKey) -> bool {
    planning::landing_leaves(volume, root, seq![key]).contains(leaf)
}

/// The record of a rewrite's old address, as far as its key goes.
pub open spec fn old_record(r: Rewrite, generation: u64) -> TreeBlockAllocation {
    TreeBlockAllocation { bytenr: r.old, level: r.level, generation, owner: r.owner }
}

/// The record of a rewrite's new address.
pub open spec fn new_record(r: Rewrite, generation: u64) -> TreeBlockAllocation {
    TreeBlockAllocation { bytenr: r.new, level: r.level, generation, owner: r.owner }
}

/// `items` without the records of what the rewrites `k ..` release, as far as
/// they belong in the leaf. One that is missing is an error: the extent tree
/// does not say what the plan believes.
pub open spec fn released_from(
    volume: VolumeModel,
    root: u64,
    leaf: u64,
    plan: Seq<Rewrite>,
    generation: u64,
    items: Seq<ItemModel>,
    k: int,
) -> std::result::Result<Seq<ItemModel>, ErrorView>
    decreases plan.len() - k,
{
    if k < 0 || k >= plan.len() {
        Ok(items)
    } else if !belongs(volume, root, leaf, old_record(plan[k], generation).filed_under()) {
        released_from(volume, root, leaf, plan, generation, items, k + 1)
    } else {
        match leaf_edit::delete_outcome(items, old_record(plan[k], generation).filed_under()) {
            Err(e) => Err(e),
            Ok(next) => released_from(volume, root, leaf, plan, generation, next, k + 1),
        }
    }
}

/// Whether one of `items` is filed under `key`.
pub open spec fn any_under(items: Seq<ItemModel>, key: DiskKey) -> bool {
    exists|i: int| 0 <= i < items.len() && (#[trigger] items[i]).key == key
}

/// `items` with the records of what the rewrites `k ..` take, as far as they
/// belong in the leaf and are not there already.
pub open spec fn recorded_from(
    volume: VolumeModel,
    root: u64,
    leaf: u64,
    plan: Seq<Rewrite>,
    generation: u64,
    items: Seq<ItemModel>,
    k: int,
) -> std::result::Result<Seq<ItemModel>, ErrorView>
    decreases plan.len() - k,
{
    if k < 0 || k >= plan.len() {
        Ok(items)
    } else if !belongs(volume, root, leaf, new_record(plan[k], generation).filed_under()) {
        recorded_from(volume, root, leaf, plan, generation, items, k + 1)
    } else {
        let record = new_record(plan[k], generation);
        if volume.sb.incompat_flags & extent_write::INCOMPAT_SKINNY_METADATA == 0 {
            Err(extent_write::no_skinny())
        } else if any_under(items, record.filed_under()) {
            recorded_from(volume, root, leaf, plan, generation, items, k + 1)
        } else {
            match leaf_edit::insert_outcome(
                volume.sb.nodesize,
                items,
                (ItemModel { key: record.filed_under(), data: record.record() }),
            ) {
                Err(e) => Err(e),
                Ok(next) => recorded_from(volume, root, leaf, plan, generation, next, k + 1),
            }
        }
    }
}

/// The items of the extent tree leaf at `leaf` as a plan leaves them.
/// Releases come first, so the leaf is at its smallest before anything is
/// added to it.
#[verifier::opaque]
pub open spec fn records_applied(
    volume: VolumeModel,
    leaf: u64,
    items: Seq<ItemModel>,
    plan: Seq<Rewrite>,
    generation: u64,
) -> std::result::Result<Seq<ItemModel>, ErrorView> {
    match volume.tree_root(objectid::EXTENT_TREE) {
        Err(e) => Err(e),
        Ok(root) => match released_from(volume, root, leaf, plan, generation, items, 0) {
            Err(e) => Err(e),
            Ok(next) => recorded_from(volume, root, leaf, plan, generation, next, 0),
        },
    }
}

/// The items of a leaf as a plan leaves them. An extent tree leaf records
/// what is allocated, a free-space tree leaf the complement, a root tree leaf
/// names other trees' roots; any other leaf keeps its items exactly.
#[verifier::opaque]
pub open spec fn leaf_rendered(
    volume: VolumeModel,
    r: Rewrite,
    items: Seq<ItemModel>,
    plan: Seq<Rewrite>,
    generation: u64,
) -> std::result::Result<Seq<ItemModel>, ErrorView> {
    if r.owner == objectid::EXTENT_TREE {
        records_applied(volume, r.old, items, plan, generation)
    } else if r.owner == objectid::FREE_SPACE_TREE {
        free_space::respaced(volume, plan, items)
    } else if r.owner == objectid::ROOT_TREE {
        Ok(items.map_values(|i: ItemModel| root_renamed(i, plan, generation)))
    } else {
        Ok(items)
    }
}

/// Whether `id` is what the new copy of the block `b` says about itself.
pub open spec fn identifies(id: BlockIdentity, r: Rewrite, generation: u64, b: Seq<u8>) -> bool {
    &&& id.bytenr == r.new
    &&& id.owner == r.owner
    &&& id.generation == generation
    &&& id.level == r.level
    &&& id.flags == 0x0100_0000_0000_0001
    &&& id.chunk_tree_uuid@ == btree::header_of(b).chunk_tree_uuid
}

/// The children of the node `b` as a plan leaves them.
pub open spec fn ptrs_rendered(b: Seq<u8>, plan: Seq<Rewrite>, generation: u64) -> Seq<KeyPtr> {
    btree::node_ptrs(b).map_values(|p: KeyPtr| ptr_moved(p, plan, generation))
}

/// Why the new copy of the block `b` cannot be built.
pub open spec fn copy_refusal(
    volume: VolumeModel,
    r: Rewrite,
    b: Seq<u8>,
    plan: Seq<Rewrite>,
    generation: u64,
) -> Option<ErrorView> {
    if btree::header_of(b).level != 0 {
        tree_write::node_refusal(ptrs_rendered(b, plan, generation), volume.sb.nodesize)
    } else {
        match leaf_rendered(volume, r, btree::leaf_contents(b), plan, generation) {
            Err(e) => Some(e),
            Ok(items) => tree_write::leaf_refusal(items, volume.sb.nodesize),
        }
    }
}

/// Whether `copy` is the new copy of the block `b`.
pub open spec fn is_copy(
    copy: Seq<u8>,
    sb: SuperblockModel,
    volume: VolumeModel,
    r: Rewrite,
    b: Seq<u8>,
    plan: Seq<Rewrite>,
    generation: u64,
) -> bool {
    exists|id: BlockIdentity| #[trigger]
        identifies(id, r, generation, b) && if btree::header_of(b).level != 0 {
            tree_write::is_node_block(copy, sb, id, ptrs_rendered(b, plan, generation))
        } else {
            leaf_rendered(volume, r, btree::leaf_contents(b), plan, generation) matches Ok(items)
                && tree_write::is_leaf_block(copy, sb, id, items)
        }
}

/// Why the block of rewrite `r` cannot be rendered.
pub open spec fn render_refusal(
    volume: VolumeModel,
    r: Rewrite,
    plan: Seq<Rewrite>,
    generation: u64,
) -> Option<ErrorView> {
    match volume.block(r.old) {
        Err(e) => Some(e),
        Ok(b) => copy_refusal(volume, r, b, plan, generation),
    }
}

/// The first refusal among the rewrites `k ..`.
pub open spec fn first_refusal(volume: VolumeModel, plan: Seq<Rewrite>, generation: u64, k: int) -> Option<
    ErrorView,
>
    decreases plan.len() - k,
{
    if k < 0 || k >= plan.len() {
        None
    } else {
        match render_refusal(volume, plan[k], plan, generation) {
            Some(e) => Some(e),
            None => first_refusal(volume, plan, generation, k + 1),
        }
    }
}

/// Whether a placed block is the rendering of the rewrite `r`: at its new
/// address, and the new copy of what lies at its old one.
pub open spec fn renders(
    placed: PlacedBlock,
    volume: VolumeModel,
    r: Rewrite,
    plan: Seq<Rewrite>,
    generation: u64,
) -> bool {
    &&& placed.logical == r.new
    &&& volume.block(r.old) is Ok
    &&& is_copy(
        placed.bytes@,
        volume.sb,
        volume,
        r,
        volume.block(r.old)->Ok_0,
        plan,
        generation,
    )
}

/// Whether `out` is the rendering of the first `n` rewrites of a plan.
pub open spec fn rendered(
    out: Seq<PlacedBlock>,
    volume: VolumeModel,
    plan: Seq<Rewrite>,
    generation: u64,
    n: int,
) -> bool {
    &&& out.len() == n
    &&& forall|i: int|
        0 <= i < n ==> renders(#[trigger] out[i], volume, plan[i], plan, generation)
}

/// Where the first rewrite from `k` on that moves `root` takes it.
pub open spec fn root_moved(plan: Seq<Rewrite>, root: u64, k: int) -> Option<u64>
    decreases plan.len() - k,
{
    if k < 0 || k >= plan.len() {
        None
    } else if plan[k].old == root {
        Some(plan[k].new)
    } else {
        root_moved(plan, root, k + 1)
    }
}

/// Where a plan moves the block at `at`, if it moves it.
fn find_moved(plan: &Plan, at: u64) -> (r: Option<u64>)
    ensures
        r == moved_to(plan@, at),
{
    let mut n: usize = plan.rewrites.len();
    assert(plan@.take(n as int) =~= plan@);
    while n > 0
        invariant
            n <= plan@.len(),
            moved_to(plan@, at) == moved_to(plan@.take(n as int), at),
        decreases n,
    {
        assert(plan@.take(n as int).last() == plan@[n - 1]);
        if plan.rewrites[n - 1].old == at {
            return Some(plan.rewrites[n - 1].new);
        }
        n = n - 1;
        assert(plan@.take(n + 1).drop_last() =~= plan@.take(n as int));
    }
    None
}

/// The children of a node as the plan leaves them.
fn move_ptrs(ptrs: &[KeyPtr], plan: &Plan, generation: u64) -> (out: Vec<KeyPtr>)
    ensures
        out@ == ptrs@.map_values(|p: KeyPtr| ptr_moved(p, plan@, generation)),
{
    let ghost all = ptrs@.map_values(|p: KeyPtr| ptr_moved(p, plan@, generation));
    let mut out: Vec<KeyPtr> = Vec::new();
    let mut i: usize = 0;
    while i < ptrs.len()
        invariant
            i <= ptrs@.len(),
            all == ptrs@.map_values(|p: KeyPtr| ptr_moved(p, plan@, generation)),
            out@ == all.take(i as int),
        decreases ptrs@.len() - i,
    {
        let p = ptrs[i];
        let next: KeyPtr = match find_moved(plan, p.blockptr) {
            Some(to) => KeyPtr { key: p.key, blockptr: to, generation },
            None => p,
        };
        out.push(next);
        assert(all[i as int] == next);
        i = i + 1;
        assert(out@ =~= all.take(i as int));
    }
    assert(out@ =~= all);
    out
}

/// The items of a verified leaf, each with its data.
fn take_items(block: &TreeBlock) -> (out: Vec<OwnedItem>)
    requires
        block.decoded(),
        block.header.level == 0,
        forall|i: int|
            0 <= i < btree::leaf_items(block@).len() ==> btree::LEAF_DATA_OFFSET + (
            #[trigger] btree::leaf_items(block@)[i]).offset + btree::leaf_items(block@)[i].size
                <= block@.len(),
    ensures
        leaf_edit::owned_models(out@) == btree::leaf_contents(block@),
{
    let mut out: Vec<OwnedItem> = Vec::new();
    let ghost all = btree::leaf_contents(block@);
    if let Some(items) = block.body.items() {
        let mut i: usize = 0;
        while i < items.len()
            invariant
                i <= items@.len(),
                items@ == btree::leaf_items(block@),
                all == btree::leaf_contents(block@),
                out@.len() == i,
                forall|k: int| 0 <= k < i ==> (#[trigger] out@[k])@ == all[k],
                forall|k: int|
                    0 <= k < btree::leaf_items(block@).len() ==> btree::LEAF_DATA_OFFSET + (
                    #[trigger] btree::leaf_items(block@)[k]).offset + btree::leaf_items(
                        block@,
                    )[k].size <= block@.len(),
            decreases items@.len() - i,
        {
            let item = &items[i];
            assert(btree::LEAF_DATA_OFFSET + btree::leaf_items(block@)[i as int].offset
                + btree::leaf_items(block@)[i as int].size <= block@.len());
            let data = match block.item_data(item) {
                Some(data) => copy_range(data, 0, data.len()),
                None => Vec::new(),
            };
            assert(data@ =~= btree::item_bytes(block@, *item));
            out.push(OwnedItem { key: item.key, data });
            i = i + 1;
        }
    }
    assert(leaf_edit::owned_models(out@) =~= all);
    out
}

/// Point the `ROOT_ITEM`s of a root tree leaf at where the roots they name
/// went.
fn rename_roots(items: Vec<OwnedItem>, plan: &Plan, generation: u64) -> (out: Vec<OwnedItem>)
    ensures
        leaf_edit::owned_models(out@) == leaf_edit::owned_models(items@).map_values(
            |i: ItemModel| root_renamed(i, plan@, generation),
        ),
{
    let ghost all = leaf_edit::owned_models(items@);
    let mut out: Vec<OwnedItem> = Vec::new();
    let mut i: usize = 0;
    while i < items.len()
        invariant
            i <= items@.len(),
            all == leaf_edit::owned_models(items@),
            out@.len() == i,
            forall|k: int|
                0 <= k < i ==> (#[trigger] out@[k])@ == root_renamed(all[k], plan@, generation),
        decreases items@.len() - i,
    {
        let mut item = items[i].duplicate();
        let ghost was = item@;
        assert(was == all[i as int]);
        if item.key.key_type == ROOT_ITEM_KEY && item.data.len() >= root_item::LEVEL + 1 {
            let at: u64 = le64(item.data.as_slice(), root_item::BYTENR);
            if let Some(to) = find_moved(plan, at) {
                let mut data = copy_range(item.data.as_slice(), 0, item.data.len());
                assert(data@ =~= was.data);
                put64(data.as_mut_slice(), root_item::BYTENR, to);
                put64(data.as_mut_slice(), root_item::GENERATION, generation);
                item = OwnedItem { key: item.key, data };
            }
        }
        assert(item@ == root_renamed(was, plan@, generation));
        out.push(item);
        i = i + 1;
    }
    assert(leaf_edit::owned_models(out@) =~= all.map_values(
        |i: ItemModel| root_renamed(i, plan@, generation),
    ));
    out
}

/// Whether one of `items` is filed under `key`.
fn holds_key(items: &[OwnedItem], key: &crate::chunk::DiskKey) -> (yes: bool)
    ensures
        yes == any_under(leaf_edit::owned_models(items@), *key),
{
    let ghost all = leaf_edit::owned_models(items@);
    let mut i: usize = 0;
    while i < items.len()
        invariant
            i <= items@.len(),
            all == leaf_edit::owned_models(items@),
            forall|k: int| 0 <= k < i ==> (#[trigger] all[k]).key != *key,
        decreases items@.len() - i,
    {
        assert(all[i as int] == items@[i as int]@);
        if items[i].key == *key {
            return true;
        }
        i = i + 1;
    }
    false
}

/// What a list of items, or the error in its place, holds.
pub open spec fn items_seen(r: Result<Vec<OwnedItem>>) -> std::result::Result<
    Seq<ItemModel>,
    ErrorView,
> {
    match r {
        Ok(items) => Ok(leaf_edit::owned_models(items@)),
        Err(e) => Err(e@),
    }
}

impl<R: Fn(usize, u64, usize) -> Result<Vec<u8>>> Filesystem<R> {
    /// Whether an insert under `key` lands in the leaf at `leaf`.
    ///
    /// By the rule a descent uses, not by whether the leaf's existing keys
    /// bracket the key: a newly allocated address is usually past every key
    /// in the tree.
    fn lands_in(&self, root: u64, leaf: u64, key: &DiskKey) -> (yes: bool)
        requires
            self.ready(),
        ensures
            self.faithful() ==> yes == belongs(self@.volume, root, leaf, *key),
    {
        let mut one: Vec<DiskKey> = Vec::new();
        one.push(*key);
        assert(one@ =~= seq![*key]);
        reveal(belongs);
        self.leaves_holding(root, one.as_slice()).contains(leaf)
    }

    /// Take the records of what the plan releases out of one extent tree
    /// leaf.
    fn drop_records(
        &self,
        root: u64,
        leaf: u64,
        items: Vec<OwnedItem>,
        plan: &Plan,
        generation: u64,
    ) -> (r: Result<Vec<OwnedItem>>)
        requires
            self.ready(),
        ensures
            self.faithful() ==> items_seen(r) == released_from(
                self@.volume,
                root,
                leaf,
                plan@,
                generation,
                leaf_edit::owned_models(items@),
                0,
            ),
    {
        let ghost start = leaf_edit::owned_models(items@);
        let mut out = items;
        let mut i: usize = 0;
        while i < plan.rewrites.len()
            invariant
                self.ready(),
                i <= plan@.len(),
                self.faithful() ==> released_from(
                    self@.volume,
                    root,
                    leaf,
                    plan@,
                    generation,
                    start,
                    0,
                ) == released_from(
                    self@.volume,
                    root,
                    leaf,
                    plan@,
                    generation,
                    leaf_edit::owned_models(out@),
                    i as int,
                ),
                start == leaf_edit::owned_models(items@),
            decreases plan@.len() - i,
        {
            let r = plan.rewrites[i];
            i = i + 1;
            let key = (TreeBlockAllocation {
                bytenr: r.old,
                level: r.level,
                generation,
                owner: r.owner,
            }).key();
            if self.lands_in(root, leaf, &key) {
                out = match delete(out.as_slice(), &key) {
                    Ok(next) => next,
                    Err(e) => return Err(e),
                };
            }
        }
        Ok(out)
    }

    /// Put the records of what the plan takes into one extent tree leaf.
    fn add_records(
        &self,
        root: u64,
        leaf: u64,
        items: Vec<OwnedItem>,
        plan: &Plan,
        generation: u64,
    ) -> (r: Result<Vec<OwnedItem>>)
        requires
            self.ready(),
        ensures
            self.faithful() ==> items_seen(r) == recorded_from(
                self@.volume,
                root,
                leaf,
                plan@,
                generation,
                leaf_edit::owned_models(items@),
                0,
            ),
    {
        let ghost start = leaf_edit::owned_models(items@);
        let mut out = items;
        let mut i: usize = 0;
        while i < plan.rewrites.len()
            invariant
                self.ready(),
                i <= plan@.len(),
                self.faithful() ==> recorded_from(
                    self@.volume,
                    root,
                    leaf,
                    plan@,
                    generation,
                    start,
                    0,
                ) == recorded_from(
                    self@.volume,
                    root,
                    leaf,
                    plan@,
                    generation,
                    leaf_edit::owned_models(out@),
                    i as int,
                ),
                start == leaf_edit::owned_models(items@),
            decreases plan@.len() - i,
        {
            let r = plan.rewrites[i];
            i = i + 1;
            let alloc = TreeBlockAllocation {
                bytenr: r.new,
                level: r.level,
                generation,
                owner: r.owner,
            };
            if !self.lands_in(root, leaf, &alloc.key()) {
                continue;
            }
            let (key, body) = match record_tree_block(&self.volume.sb, alloc) {
                Ok(record) => record,
                Err(e) => return Err(e),
            };
            if holds_key(out.as_slice(), &key) {
                continue;
            }
            let data = copy_range(body.as_slice(), 0, body.as_slice().len());
            assert(data@ =~= body@);
            out = match insert(
                self.volume.sb.nodesize,
                out.as_slice(),
                OwnedItem { key, data },
            ) {
                Ok(next) => next,
                Err(e) => return Err(e),
            };
        }
        Ok(out)
    }

    /// Apply a plan's allocations and releases to one extent tree leaf.
    ///
    /// Each moved block loses the `METADATA_ITEM` naming its old address and
    /// gains one naming the new. Only the items belonging in this leaf are
    /// touched; every leaf that any of them falls into is in a plan that is
    /// closed over its own bookkeeping.
    pub fn apply_records(
        &self,
        leaf: u64,
        items: Vec<OwnedItem>,
        plan: &Plan,
        generation: u64,
    ) -> (r: Result<Vec<OwnedItem>>)
        requires
            self.ready(),
        ensures
            self.faithful() ==> items_seen(r) == records_applied(
                self@.volume,
                leaf,
                leaf_edit::owned_models(items@),
                plan@,
                generation,
            ),
    {
        reveal(records_applied);
        let root: u64 = match self.tree_root(objectid::EXTENT_TREE) {
            Ok(root) => root,
            Err(e) => return Err(e),
        };
        let left = match self.drop_records(root, leaf, items, plan, generation) {
            Ok(left) => left,
            Err(e) => return Err(e),
        };
        self.add_records(root, leaf, left, plan, generation)
    }

    /// The items of a leaf as the plan leaves them.
    fn render_items(&self, r: &Rewrite, items: Vec<OwnedItem>, plan: &Plan, generation: u64) -> (out:
        Result<Vec<OwnedItem>>)
        requires
            self.ready(),
        ensures
            self.faithful() ==> items_seen(out) == leaf_rendered(
                self@.volume,
                *r,
                leaf_edit::owned_models(items@),
                plan@,
                generation,
            ),
    {
        reveal(leaf_rendered);
        if r.owner == objectid::EXTENT_TREE {
            self.apply_records(r.old, items, plan, generation)
        } else if r.owner == objectid::FREE_SPACE_TREE {
            self.apply_free_space(items.as_slice(), plan)
        } else if r.owner == objectid::ROOT_TREE {
            Ok(rename_roots(items, plan, generation))
        } else {
            Ok(items)
        }
    }

    /// The new copy of one block.
    fn render_block(&self, r: &Rewrite, plan: &Plan, generation: u64) -> (out: Result<Vec<u8>>)
        requires
            self.ready(),
        ensures
            self.faithful() ==> match out {
                Ok(copy) => render_refusal(self@.volume, *r, plan@, generation) is None
                    && self@.volume.block(r.old) is Ok && is_copy(
                    copy@,
                    self@.volume.sb,
                    self@.volume,
                    *r,
                    self@.volume.block(r.old)->Ok_0,
                    plan@,
                    generation,
                ),
                Err(e) => render_refusal(self@.volume, *r, plan@, generation) == Some(e@),
            },
    {
        let block = match self.read_tree_block(r.old) {
            Ok(block) => block,
            Err(e) => return Err(e),
        };
        let ghost b = block@;
        proof {
            btree::law_parsed_block_is_sound(
                b,
                r.old,
                self@.volume.geometry(),
                btree::block_intact(b, self@.volume.geometry()),
            );
        }
        let id = BlockIdentity {
            bytenr: r.new,
            owner: r.owner,
            generation,
            level: r.level,
            flags: flags_for_new_block(),
            chunk_tree_uuid: chunk_tree_uuid_of(block.bytes()),
        };
        assert(identifies(id, *r, generation, b));
        if block.header.level != 0 {
            if let Some(ptrs) = block.body.key_ptrs() {
                // A node: follow every child that moved.
                let updated = move_ptrs(ptrs, plan, generation);
                assert(updated@ == ptrs_rendered(b, plan@, generation));
                return build_node(&self.volume.sb, id, updated.as_slice());
            }
        }
        let items = take_items(&block);
        let owned = match self.render_items(r, items, plan, generation) {
            Ok(owned) => owned,
            Err(e) => return Err(e),
        };
        let borrowed = borrow_all(owned.as_slice());
        build_leaf(&self.volume.sb, id, borrowed.as_slice())
    }

    /// Turn a plan into the blocks it says to write.
    ///
    /// Every block keeps its contents and changes its address. A leaf keeps
    /// its items and is stamped with its new address and the new generation;
    /// a node is pointed at where its children went; an extent tree leaf, a
    /// free-space tree leaf and a root tree leaf have the items that describe
    /// the moves rewritten. The result goes straight to
    /// [`Filesystem::commit`].
    pub fn render_plan(&self, plan: &Plan, generation: u64) -> (r: Result<Vec<PlacedBlock>>)
        requires
            self.ready(),
        ensures
            self.faithful() ==> match r {
                Ok(out) => first_refusal(self@.volume, plan@, generation, 0) is None && rendered(
                    out@,
                    self@.volume,
                    plan@,
                    generation,
                    plan@.len() as int,
                ),
                Err(e) => first_refusal(self@.volume, plan@, generation, 0) == Some(e@),
            },
    {
        let mut out: Vec<PlacedBlock> = Vec::new();
        let mut i: usize = 0;
        while i < plan.rewrites.len()
            invariant
                self.ready(),
                i <= plan@.len(),
                self.faithful() ==> rendered(out@, self@.volume, plan@, generation, i as int),
                self.faithful() ==> first_refusal(self@.volume, plan@, generation, 0)
                    == first_refusal(self@.volume, plan@, generation, i as int),
            decreases plan@.len() - i,
        {
            let r = plan.rewrites[i];
            let bytes = match self.render_block(&r, plan, generation) {
                Ok(bytes) => bytes,
                Err(e) => return Err(e),
            };
            let ghost before = out@;
            out.push(PlacedBlock { logical: r.new, bytes });
            i = i + 1;
            proof {
                if self.faithful() {
                    assert(rendered(out@, self@.volume, plan@, generation, i as int)) by {
                        assert forall|k: int| 0 <= k < i implies renders(
                            #[trigger] out@[k],
                            self@.volume,
                            plan@[k],
                            plan@,
                            generation,
                        ) by {
                            if k < i - 1 {
                                assert(out@[k] == before[k]);
                            }
                        }
                    }
                }
            }
        }
        Ok(out)
    }

    /// Where the root tree ends up, for a plan that moves it. `None` means
    /// the superblock's existing value still stands.
    pub fn planned_root(&self, plan: &Plan) -> (r: Option<u64>)
        ensures
            r == root_moved(plan@, self@.volume.sb.root, 0),
    {
        let mut i: usize = 0;
        while i < plan.rewrites.len()
            invariant
                i <= plan@.len(),
                root_moved(plan@, self@.volume.sb.root, 0) == root_moved(
                    plan@,
                    self@.volume.sb.root,
                    i as int,
                ),
            decreases plan@.len() - i,
        {
            if plan.rewrites[i].old == self.volume.sb.root {
                return Some(plan.rewrites[i].new);
            }
            i = i + 1;
        }
        None
    }
}

} // verus!
