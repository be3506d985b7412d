//! What a volume's trees say is taken and what they say is free.

use vstd::prelude::*;

use crate::block_group::runs;
use crate::block_group::runs::{
    gaps, merge_adjacent, place_in_run, reached, sort_by_start, sort_runs, usable_in,
};
use crate::block_group::{BlockGroup, FreeExtent};
use crate::btree;
use crate::btree::{ItemModel, LeafItem};
use crate::bytes;
use crate::bytes::le64;
use crate::chunk::{block_group as flags, key_type, objectid};
use crate::error::{Error, ErrorView, Result};
use crate::fs::Filesystem;
use crate::text;
use crate::text::Part::{Dec, Lit};
use crate::text::{cat3, cat5, cat8};
use crate::volume;
use crate::volume::VolumeModel;

verus! {

/// Offset of the bytes in use in a block group item.
pub const GROUP_USED: usize = 0;

/// Offset of the flags in a block group item.
pub const GROUP_FLAGS: usize = 16;

/// The size of a block group item.
pub const GROUP_SIZE: usize = 24;

/// The size of a free-space info item.
pub const FREE_SPACE_INFO_SIZE: usize = 8;

/// The block group an item of the extent tree describes. Its length is in the
/// key; the item holds only usage and flags.
pub open spec fn group_of(item: ItemModel) -> Option<BlockGroup> {
    if item.key.key_type == key_type::BLOCK_GROUP_ITEM && item.data.len() >= GROUP_SIZE {
        Some(
            BlockGroup {
                start: item.key.objectid,
                length: item.key.offset,
                used: bytes::u64_at(item.data, GROUP_USED as int),
                flags: bytes::u64_at(item.data, GROUP_FLAGS as int),
            },
        )
    } else {
        None
    }
}

/// Where a group belongs among `groups` that go by their starts.
pub open spec fn group_place(groups: Seq<BlockGroup>, start: u64) -> int
    decreases groups.len(),
{
    if groups.len() == 0 || groups.last().start <= start {
        groups.len() as int
    } else {
        group_place(groups.drop_last(), start)
    }
}

/// The block groups the items of an extent tree describe, by their starts.
pub open spec fn groups_in(items: Seq<ItemModel>) -> Seq<BlockGroup>
    decreases items.len(),
{
    if items.len() == 0 {
        Seq::empty()
    } else {
        let before = groups_in(items.drop_last());
        match group_of(items.last()) {
            Some(g) => before.insert(group_place(before, g.start), g),
            None => before,
        }
    }
}

/// The run an item of the extent tree says is taken.
///
/// Reference items are filed under the same objectid as the extent they
/// describe; they are not allocations of their own.
pub open spec fn taken_by(item: ItemModel, nodesize: u32) -> Option<FreeExtent> {
    if item.key.key_type == key_type::EXTENT_ITEM {
        Some(FreeExtent { start: item.key.objectid, len: item.key.offset })
    } else if item.key.key_type == key_type::METADATA_ITEM {
        Some(FreeExtent { start: item.key.objectid, len: nodesize as u64 })
    } else {
        None
    }
}

/// The first of the groups `from ..` that covers `address`.
pub open spec fn group_at(groups: Seq<BlockGroup>, address: u64, from: int) -> Option<int>
    decreases groups.len() - from,
{
    if from < 0 || from >= groups.len() {
        None
    } else if groups[from].covers(address) {
        Some(from)
    } else {
        group_at(groups, address, from + 1)
    }
}

/// The runs of group `which` that the items of an extent tree say are taken.
pub open spec fn taken_in(
    items: Seq<ItemModel>,
    groups: Seq<BlockGroup>,
    which: int,
    nodesize: u32,
) -> Seq<FreeExtent>
    decreases items.len(),
{
    if items.len() == 0 {
        Seq::empty()
    } else {
        let before = taken_in(items.drop_last(), groups, which, nodesize);
        match taken_by(items.last(), nodesize) {
            Some(run) => if group_at(groups, run.start, 0) == Some(which) {
                before.push(run)
            } else {
                before
            },
            None => before,
        }
    }
}

/// What is free in group `which`.
pub open spec fn free_in(
    items: Seq<ItemModel>,
    groups: Seq<BlockGroup>,
    which: int,
    nodesize: u32,
) -> std::result::Result<Seq<FreeExtent>, ErrorView> {
    runs::gaps_of(groups[which], runs::by_start(taken_in(items, groups, which, nodesize)))
}

/// What is free in the groups `from ..`, a list for each.
pub open spec fn all_free(
    items: Seq<ItemModel>,
    groups: Seq<BlockGroup>,
    nodesize: u32,
    from: int,
    before: Seq<Seq<FreeExtent>>,
) -> std::result::Result<Seq<Seq<FreeExtent>>, ErrorView>
    decreases groups.len() - from,
{
    if from < 0 || from >= groups.len() {
        Ok(before)
    } else {
        match free_in(items, groups, from, nodesize) {
            Err(e) => Err(e),
            Ok(free) => all_free(items, groups, nodesize, from + 1, before.push(free)),
        }
    }
}

impl VolumeModel {
    /// Every item of tree `objectid`, or why they cannot be had.
    pub open spec fn tree_items(self, objectid: u64) -> std::result::Result<
        Seq<ItemModel>,
        ErrorView,
    > {
        match self.tree_root(objectid) {
            Err(e) => Err(e),
            Ok(root) => volume::whole(self.walk(root)),
        }
    }
}

/// The block groups of a volume.
pub open spec fn groups_outcome(volume: VolumeModel) -> std::result::Result<
    Seq<BlockGroup>,
    ErrorView,
> {
    match volume.tree_items(objectid::EXTENT_TREE) {
        Err(e) => Err(e),
        Ok(items) => Ok(groups_in(items)),
    }
}

/// What is free in each of `groups`.
pub open spec fn free_outcome(volume: VolumeModel, groups: Seq<BlockGroup>) -> std::result::Result<
    Seq<Seq<FreeExtent>>,
    ErrorView,
> {
    match volume.tree_items(objectid::EXTENT_TREE) {
        Err(e) => Err(e),
        Ok(items) => all_free(items, groups, volume.sb.nodesize, 0, Seq::empty()),
    }
}

/// What is free in `group`, by what the extent tree says is taken.
pub open spec fn group_free(volume: VolumeModel, group: BlockGroup) -> std::result::Result<
    Seq<FreeExtent>,
    ErrorView,
> {
    match volume.tree_items(objectid::EXTENT_TREE) {
        Err(e) => Err(e),
        Ok(items) => free_in(items, seq![group], 0, volume.sb.nodesize),
    }
}

/// What a list of lists holds.
pub open spec fn nested(lists: Seq<Vec<FreeExtent>>) -> Seq<Seq<FreeExtent>> {
    lists.map_values(|v: Vec<FreeExtent>| v@)
}

/// How many bits `n` bytes hold.
pub open spec fn bit_count(n: nat) -> u64 {
    if n * 8 > u64::MAX {
        u64::MAX
    } else {
        (n * 8) as u64
    }
}

/// Whether bit `i` of a bitmap is set, least significant bit first.
pub open spec fn bit_set(data: Seq<u8>, i: int) -> bool {
    data[i / 8] & (1u8 << ((i % 8) as u8)) != 0
}

/// `n`, or the end of the address space where that is nearer.
pub open spec fn capped(n: nat) -> u64 {
    if n > u64::MAX {
        u64::MAX
    } else {
        n as u64
    }
}

/// The run from `from` to `to`.
pub open spec fn run_between(from: u64, to: u64) -> FreeExtent {
    FreeExtent {
        start: from,
        len: if from <= to {
            (to - from) as u64
        } else {
            0
        },
    }
}

/// The runs of set bits among the bits `i .. sectors` of a bitmap that ends at
/// `end`, behind `out`. Bit `i` stands for the sector at `at`, and `run` is
/// where the run that is open there started.
pub open spec fn bitmap_runs(
    end: u64,
    data: Seq<u8>,
    sectorsize: u64,
    sectors: int,
    i: int,
    at: nat,
    run: Option<u64>,
    out: Seq<FreeExtent>,
) -> Seq<FreeExtent>
    decreases sectors - i,
{
    if i < 0 || i >= sectors {
        match run {
            Some(from) => out.push(run_between(from, end)),
            None => out,
        }
    } else {
        let free = bit_set(data, i);
        bitmap_runs(
            end,
            data,
            sectorsize,
            sectors,
            i + 1,
            (at + sectorsize) as nat,
            if !free {
                None
            } else if run is Some {
                run
            } else {
                Some(capped(at))
            },
            if !free && run is Some {
                out.push(run_between(run->Some_0, capped(at)))
            } else {
                out
            },
        )
    }
}

/// Whether an item is a bitmap of `group` too short for the sectors it
/// covers.
pub open spec fn bad_bitmap(item: ItemModel, group: BlockGroup, sectorsize: u64) -> bool {
    &&& group.covers(item.key.objectid)
    &&& item.key.key_type == key_type::FREE_SPACE_BITMAP
    &&& item.data.len() * 8 < item.key.offset / sectorsize
}

/// Whether an item is anything but such a bitmap.
pub open spec fn passes_bitmap(group: BlockGroup, sectorsize: u64) -> spec_fn(ItemModel) -> bool {
    |i: ItemModel| !bad_bitmap(i, group, sectorsize)
}

pub open spec fn bitmap_error(item: ItemModel, sectorsize: u64) -> ErrorView {
    ErrorView::UnsupportedFeature(
        "a free-space bitmap at "@ + text::dec(item.key.objectid as nat) + " covers "@ + text::dec(
            item.key.offset as nat,
        ) + " bytes, which needs "@ + text::dec((item.key.offset / sectorsize) as nat)
            + " bits, but the item holds "@ + text::dec(bit_count(item.data.len()) as nat),
    )
}

/// The runs the items of a free-space tree say are free in `group`, in the
/// order they are met.
pub open spec fn cached_in(items: Seq<ItemModel>, group: BlockGroup, sectorsize: u64) -> Seq<
    FreeExtent,
>
    decreases items.len(),
{
    if items.len() == 0 {
        Seq::empty()
    } else {
        let before = cached_in(items.drop_last(), group, sectorsize);
        let item = items.last();
        if !group.covers(item.key.objectid) {
            before
        } else if item.key.key_type == key_type::FREE_SPACE_EXTENT {
            before.push(FreeExtent { start: item.key.objectid, len: item.key.offset })
        } else if item.key.key_type == key_type::FREE_SPACE_BITMAP {
            bitmap_runs(
                runs::reach(item.key.objectid, item.key.offset),
                item.data,
                sectorsize,
                (item.key.offset / sectorsize) as int,
                0,
                item.key.objectid as nat,
                None,
                before,
            )
        } else {
            before
        }
    }
}

/// Whether an item is the free-space info of `group`.
pub open spec fn is_info(item: ItemModel, group: BlockGroup) -> bool {
    &&& group.covers(item.key.objectid)
    &&& item.key.key_type == key_type::FREE_SPACE_INFO
    &&& item.data.len() >= FREE_SPACE_INFO_SIZE
}

/// What a walk of the free-space tree says is free in `group`.
pub open spec fn cache_says(s: btree::Stream, group: BlockGroup, sectorsize: u64) -> std::result::Result<
    Seq<FreeExtent>,
    ErrorView,
> {
    let pass = passes_bitmap(group, sectorsize);
    if btree::stopped(s.items, pass) {
        Err(bitmap_error(s.items[btree::seen_count(s.items, pass) - 1], sectorsize))
    } else {
        match s.fault {
            Some(e) => Err(e),
            None => if exists|i: int|
                0 <= i < s.items.len() && is_info(#[trigger] s.items[i], group) {
                Ok(runs::merged(runs::in_order(cached_in(s.items, group, sectorsize))))
            } else {
                Err(
                    ErrorView::UnsupportedFeature(
                        "the free-space tree holds no info item for the block group at "@
                            + text::dec(group.start as nat)
                            + ", so what it believes is free there cannot be established"@,
                    ),
                )
            },
        }
    }
}

/// What the free-space tree says is free in `group`; nothing where the volume
/// has no such tree.
pub open spec fn cached_outcome(volume: VolumeModel, group: BlockGroup) -> std::result::Result<
    Option<Seq<FreeExtent>>,
    ErrorView,
> {
    match volume.root_if_any(objectid::FREE_SPACE_TREE) {
        Err(e) => Err(e),
        Ok(None) => Ok(None),
        Ok(Some(root)) => match cache_says(volume.walk(root), group, volume.sb.sectorsize as u64) {
            Err(e) => Err(e),
            Ok(free) => Ok(Some(free)),
        },
    }
}

/// The groups of `groups` that may hold tree blocks.
pub open spec fn metadata_groups(groups: Seq<BlockGroup>) -> Seq<BlockGroup>
    decreases groups.len(),
{
    if groups.len() == 0 {
        groups
    } else if groups.last().flags & flags::METADATA != 0 {
        metadata_groups(groups.drop_last()).push(groups.last())
    } else {
        metadata_groups(groups.drop_last())
    }
}

/// The first place for a tree block in the runs `k ..`.
pub open spec fn first_place(list: Seq<FreeExtent>, nodesize: u64, k: int) -> Option<u64>
    decreases list.len() - k,
{
    if k < 0 || k >= list.len() {
        None
    } else if runs::place_of(list[k], nodesize) is Some {
        runs::place_of(list[k], nodesize)
    } else {
        first_place(list, nodesize, k + 1)
    }
}

/// All of `lists`, one behind the other.
pub open spec fn flattened(lists: Seq<Seq<FreeExtent>>) -> Seq<FreeExtent>
    decreases lists.len(),
{
    if lists.len() == 0 {
        Seq::empty()
    } else {
        flattened(lists.drop_last()) + lists.last()
    }
}

/// How much of a run is usable once alignment is paid for.
pub open spec fn usable(run: FreeExtent, nodesize: u64) -> nat {
    if runs::aligned_up(run.start, nodesize) > runs::reach(run.start, run.len) {
        0
    } else {
        (runs::reach(run.start, run.len) - runs::aligned_up(run.start, nodesize)) as nat
    }
}

/// The most that is usable in any one of `list`.
pub open spec fn most_usable(list: Seq<FreeExtent>, nodesize: u64) -> nat
    decreases list.len(),
{
    if list.len() == 0 {
        0
    } else {
        let before = most_usable(list.drop_last(), nodesize);
        if usable(list.last(), nodesize) > before {
            usable(list.last(), nodesize)
        } else {
            before
        }
    }
}

/// Where one new tree block goes: first fit across the metadata block groups.
pub open spec fn block_place(volume: VolumeModel) -> std::result::Result<u64, ErrorView> {
    let nodesize = volume.sb.nodesize as u64;
    match groups_outcome(volume) {
        Err(e) => Err(e),
        Ok(groups) => match free_outcome(volume, metadata_groups(groups)) {
            Err(e) => Err(e),
            Ok(lists) => match first_place(flattened(lists), nodesize, 0) {
                Some(at) => Ok(at),
                None => Err(
                    ErrorView::UnsupportedFeature(
                        "no metadata block group has "@ + text::dec(nodesize as nat)
                            + " contiguous bytes aligned to a tree block; the longest usable run is "@
                            + text::dec(most_usable(flattened(lists), nodesize))
                            + ". Allocating a new block group is not implemented"@,
                    ),
                ),
            },
        },
    }
}

/// The block groups the items of an extent tree describe, by their starts.
fn collect_groups(items: &[LeafItem]) -> (out: Vec<BlockGroup>)
    ensures
        out@ == groups_in(btree::models(items@)),
{
    let ghost all = btree::models(items@);
    let mut out: Vec<BlockGroup> = Vec::new();
    let mut i: usize = 0;
    assert(out@ =~= groups_in(all.take(0)));
    while i < items.len()
        invariant
            i <= items@.len(),
            all == btree::models(items@),
            out@ == groups_in(all.take(i as int)),
        decreases items@.len() - i,
    {
        let item = &items[i];
        assert(all.take(i + 1).drop_last() =~= all.take(i as int));
        assert(all.take(i + 1).last() == item@);
        if item.key.key_type == key_type::BLOCK_GROUP_ITEM && item.data.len() >= GROUP_SIZE {
            let g = BlockGroup {
                start: item.key.objectid,
                length: item.key.offset,
                used: le64(item.data.as_slice(), GROUP_USED),
                flags: le64(item.data.as_slice(), GROUP_FLAGS),
            };
            let mut at: usize = out.len();
            assert(out@.take(at as int) =~= out@);
            while at > 0 && out[at - 1].start > g.start
                invariant
                    at <= out@.len(),
                    group_place(out@, g.start) == group_place(out@.take(at as int), g.start),
                decreases at,
            {
                at = at - 1;
                assert(out@.take(at + 1).drop_last() =~= out@.take(at as int));
            }
            out.insert(at, g);
        }
        i = i + 1;
    }
    assert(all.take(all.len() as int) =~= all);
    out
}

/// The first of `groups` that covers `address`.
fn find_group(groups: &[BlockGroup], address: u64) -> (r: Option<usize>)
    ensures
        match r {
            Some(i) => group_at(groups@, address, 0) == Some(i as int) && i < groups@.len(),
            None => group_at(groups@, address, 0) is None,
        },
{
    let mut i: usize = 0;
    while i < groups.len()
        invariant
            i <= groups@.len(),
            group_at(groups@, address, 0) == group_at(groups@, address, i as int),
        decreases groups@.len() - i,
    {
        if groups[i].contains(address) {
            return Some(i);
        }
        i = i + 1;
    }
    None
}

/// The taken runs of every group, from the items of an extent tree.
fn sort_out(items: &[LeafItem], groups: &[BlockGroup], nodesize: u32) -> (out: Vec<Vec<FreeExtent>>)
    ensures
        out@.len() == groups@.len(),
        forall|g: int|
            0 <= g < groups@.len() ==> (#[trigger] out@[g])@ == taken_in(
                btree::models(items@),
                groups@,
                g,
                nodesize,
            ),
{
    let ghost all = btree::models(items@);
    let mut out: Vec<Vec<FreeExtent>> = Vec::new();
    while out.len() < groups.len()
        invariant
            out@.len() <= groups@.len(),
            forall|g: int| 0 <= g < out@.len() ==> (#[trigger] out@[g])@.len() == 0,
        decreases groups@.len() - out@.len(),
    {
        out.push(Vec::new());
    }
    proof {
        assert forall|g: int| 0 <= g < groups@.len() implies (#[trigger] out@[g])@ == taken_in(
            all.take(0),
            groups@,
            g,
            nodesize,
        ) by {
            assert(out@[g]@ =~= Seq::<FreeExtent>::empty());
        }
    }
    let mut i: usize = 0;
    while i < items.len()
        invariant
            i <= items@.len(),
            all == btree::models(items@),
            out@.len() == groups@.len(),
            forall|g: int|
                0 <= g < groups@.len() ==> (#[trigger] out@[g])@ == taken_in(
                    all.take(i as int),
                    groups@,
                    g,
                    nodesize,
                ),
        decreases items@.len() - i,
    {
        let item = &items[i];
        assert(all.take(i + 1).drop_last() =~= all.take(i as int));
        assert(all.take(i + 1).last() == item@);
        let len: Option<u64> = if item.key.key_type == key_type::EXTENT_ITEM {
            Some(item.key.offset)
        } else if item.key.key_type == key_type::METADATA_ITEM {
            Some(nodesize as u64)
        } else {
            None
        };
        if let Some(len) = len {
            let run = FreeExtent { start: item.key.objectid, len };
            if let Some(g) = find_group(groups, run.start) {
                out[g].push(run);
            }
        }
        i = i + 1;
    }
    assert(all.take(all.len() as int) =~= all);
    out
}

/// Add the runs of set bits of a bitmap to `out`.
fn read_bitmap(item: &LeafItem, sectorsize: u64, out: &mut Vec<FreeExtent>)
    requires
        sectorsize > 0,
        item.data@.len() * 8 >= item.key.offset / sectorsize,
    ensures
        final(out)@ == bitmap_runs(
            runs::reach(item.key.objectid, item.key.offset),
            item.data@,
            sectorsize,
            (item.key.offset / sectorsize) as int,
            0,
            item.key.objectid as nat,
            None,
            old(out)@,
        ),
{
    let end: u64 = reached(item.key.objectid, item.key.offset);
    let sectors: u64 = item.key.offset / sectorsize;
    let mut run: Option<u64> = None;
    let mut i: u64 = 0;
    let mut at: u64 = item.key.objectid;
    let ghost mut exact: nat = item.key.objectid as nat;
    while i < sectors
        invariant
            i <= sectors,
            item.data@.len() * 8 >= sectors,
            at == capped(exact),
            bitmap_runs(
                end,
                item.data@,
                sectorsize,
                sectors as int,
                0,
                item.key.objectid as nat,
                None,
                old(out)@,
            ) == bitmap_runs(
                end,
                item.data@,
                sectorsize,
                sectors as int,
                i as int,
                exact,
                run,
                out@,
            ),
        decreases sectors - i,
    {
        assert(i / 8 < item.data.len());
        let byte: u8 = item.data[(i / 8) as usize];
        let bit: u8 = (i % 8) as u8;
        let free: bool = byte & (1u8 << bit) != 0;
        assert(byte == item.data@[(i as int) / 8]);
        assert(bit == ((i as int) % 8) as u8);
        assert(free == bit_set(item.data@, i as int));
        let ghost before = out@;
        let ghost was = run;
        if free {
            if run.is_none() {
                run = Some(at);
            }
        } else {
            if let Some(from) = run {
                out.push(FreeExtent { start: from, len: at.saturating_sub(from) });
            }
            run = None;
        }
        assert(out@ == (if !free && was is Some {
            before.push(run_between(was->Some_0, at))
        } else {
            before
        }));
        at = reached(at, sectorsize);
        proof {
            exact = (exact + sectorsize) as nat;
        }
        i = i + 1;
    }
    if let Some(from) = run {
        out.push(FreeExtent { start: from, len: end.saturating_sub(from) });
    }
}

impl<R: Fn(usize, u64, usize) -> Result<Vec<u8>>> Filesystem<R> {
    /// Look up a tree's root address by its objectid. That the root tree names
    /// no such tree is an error; for an optional tree, the volume's
    /// `root_if_any` tells that apart from a root tree that cannot be read.
    pub fn tree_root(&self, objectid: u64) -> (r: Result<u64>)
        requires
            self.ready(),
        ensures
            self.faithful() ==> crate::error::seen(r) == self@.volume.tree_root(objectid),
    {
        self.volume.tree_root(objectid)
    }

    /// Every item of tree `objectid`.
    pub fn tree_items(&self, objectid: u64) -> (r: Result<Vec<LeafItem>>)
        requires
            self.ready(),
        ensures
            self.faithful() ==> btree::listed(r) == self@.volume.tree_items(objectid),
    {
        match self.volume.tree_root(objectid) {
            Ok(root) => self.volume.items(root),
            Err(e) => Err(e),
        }
    }

    /// Every block group on the filesystem, in address order.
    pub fn block_groups(&self) -> (r: Result<Vec<BlockGroup>>)
        requires
            self.ready(),
        ensures
            self.faithful() ==> crate::error::viewed(r) == groups_outcome(self@.volume),
    {
        match self.tree_items(objectid::EXTENT_TREE) {
            Ok(items) => Ok(collect_groups(items.as_slice())),
            Err(e) => Err(e),
        }
    }

    /// What is free in `group`, worked out from what the extent tree says is
    /// taken. This is the authoritative answer.
    pub fn free_extents(&self, group: &BlockGroup) -> (r: Result<Vec<FreeExtent>>)
        requires
            self.ready(),
        ensures
            self.faithful() ==> crate::error::viewed(r) == group_free(self@.volume, *group),
    {
        let taken = match self.allocated_extents(group) {
            Ok(taken) => taken,
            Err(e) => return Err(e),
        };
        let sorted = sort_by_start(taken.as_slice());
        gaps(group, sorted.as_slice())
    }

    /// What is free in every group, from one walk of the extent tree: one
    /// list per group, in the order given.
    pub fn free_extents_by_group(&self, groups: &[BlockGroup]) -> (r: Result<Vec<Vec<FreeExtent>>>)
        requires
            self.ready(),
        ensures
            self.faithful() ==> match r {
                Ok(lists) => free_outcome(self@.volume, groups@) == Ok::<
                    Seq<Seq<FreeExtent>>,
                    ErrorView,
                >(nested(lists@)),
                Err(e) => free_outcome(self@.volume, groups@) == Err::<
                    Seq<Seq<FreeExtent>>,
                    ErrorView,
                >(e@),
            },
    {
        let items = match self.tree_items(objectid::EXTENT_TREE) {
            Ok(items) => items,
            Err(e) => return Err(e),
        };
        let nodesize: u32 = self.volume.sb.nodesize;
        let taken = sort_out(items.as_slice(), groups, nodesize);
        let ghost all = btree::models(items@);
        let mut out: Vec<Vec<FreeExtent>> = Vec::new();
        assert(nested(out@) =~= Seq::<Seq<FreeExtent>>::empty());
        let mut i: usize = 0;
        while i < groups.len()
            invariant
                i <= groups@.len(),
                taken@.len() == groups@.len(),
                self.faithful() ==> free_outcome(self@.volume, groups@) == all_free(
                    all,
                    groups@,
                    nodesize,
                    i as int,
                    nested(out@),
                ),
                forall|g: int|
                    0 <= g < groups@.len() ==> (#[trigger] taken@[g])@ == taken_in(
                        all,
                        groups@,
                        g,
                        nodesize,
                    ),
            decreases groups@.len() - i,
        {
            let sorted = sort_by_start(taken[i].as_slice());
            assert(taken@[i as int]@ == taken_in(all, groups@, i as int, nodesize));
            match gaps(&groups[i], sorted.as_slice()) {
                Ok(free) => {
                    let ghost before = nested(out@);
                    let ghost found = free@;
                    out.push(free);
                    assert(nested(out@) =~= before.push(found));
                },
                Err(e) => return Err(e),
            }
            i = i + 1;
        }
        Ok(out)
    }

    /// The allocated runs inside `group`, from the extent tree.
    fn allocated_extents(&self, group: &BlockGroup) -> (r: Result<Vec<FreeExtent>>)
        requires
            self.ready(),
        ensures
            self.faithful() ==> crate::error::viewed(r) == (match self@.volume.tree_items(
                objectid::EXTENT_TREE,
            ) {
                Err(e) => Err(e),
                Ok(items) => Ok(taken_in(items, seq![*group], 0, self@.volume.sb.nodesize)),
            }),
    {
        let items = match self.tree_items(objectid::EXTENT_TREE) {
            Ok(items) => items,
            Err(e) => return Err(e),
        };
        let mut one: Vec<BlockGroup> = Vec::new();
        one.push(*group);
        assert(one@ =~= seq![*group]);
        let mut lists = sort_out(items.as_slice(), one.as_slice(), self.volume.sb.nodesize);
        let ghost only = lists@[0]@;
        match lists.pop() {
            Some(list) => Ok(list),
            None => Ok(Vec::new()),
        }
    }

    /// What the free-space tree says is free in `group`; `None` when the
    /// filesystem has no free-space tree. A root tree that cannot be read
    /// does not say there is none.
    ///
    /// This is a cache, to be compared against [`Filesystem::free_extents`]
    /// rather than trusted in its place. A group the cache has no entry for
    /// is not a group with no free space, and is reported.
    pub fn cached_free_extents(&self, group: &BlockGroup) -> (r: Result<Option<Vec<FreeExtent>>>)
        requires
            self.ready(),
        ensures
            self.faithful() ==> match (r, cached_outcome(self@.volume, *group)) {
                (Ok(None), Ok(None)) => true,
                (Ok(Some(list)), Ok(Some(free))) => list@ == free,
                (Err(e), Err(f)) => e@ == f,
                _ => false,
            },
    {
        let root: u64 = match self.volume.root_if_any(objectid::FREE_SPACE_TREE) {
            Ok(Some(root)) => root,
            Ok(None) => return Ok(None),
            Err(e) => return Err(e),
        };
        let sectorsize: u64 = self.volume.sb.sectorsize as u64;
        let visit = |item: &LeafItem| -> (go: Result<bool>)
            ensures
                go == Ok::<bool, Error>(passes_bitmap(*group, sectorsize)(item@)),
            { Ok(!is_bad_bitmap(item, group, sectorsize)) };
        let r = self.volume.walk(root, &visit);
        let ghost s = self@.volume.walk(root);
        let ghost pass = passes_bitmap(*group, sectorsize);
        proof {
            if self.faithful() {
                btree::lemma_followed(s, &visit, r, pass);
                btree::lemma_seen(s.items, pass);
            }
        }
        let items = match r {
            Ok(items) => items,
            Err(e) => return Err(e),
        };
        proof {
            let seen = btree::models(items@);
            if self.faithful() && btree::stopped(s.items, pass) {
                let n: int = btree::seen_count(s.items, pass) as int;
                assert(forall|i: int| 0 <= i < n ==> seen[i] == s.items[i]);
                btree::lemma_stop(seen, pass, n);
            }
        }
        match read_cache(items.as_slice(), group, sectorsize) {
            Ok(free) => Ok(Some(free)),
            Err(e) => Err(e),
        }
    }

    /// Every item of the extent tree, which is what the filesystem believes
    /// is allocated.
    pub fn for_each_extent_item(&self) -> (r: Result<Vec<LeafItem>>)
        requires
            self.ready(),
        ensures
            self.faithful() ==> btree::listed(r) == self@.volume.tree_items(
                objectid::EXTENT_TREE,
            ),
    {
        self.tree_items(objectid::EXTENT_TREE)
    }

    /// Find somewhere to put one new tree block: first fit across the
    /// metadata block groups, aligned to `nodesize`.
    ///
    /// It does not record the allocation, so calling it twice without a
    /// transaction in between returns the same address twice. It also does
    /// not allocate a new block group when every existing one is full; it
    /// reports that instead.
    pub fn find_metadata_block(&self) -> (r: Result<u64>)
        requires
            self.ready(),
        ensures
            self.faithful() ==> crate::error::seen(r) == block_place(self@.volume),
    {
        let nodesize: u64 = self.volume.sb.nodesize as u64;
        let groups = match self.block_groups() {
            Ok(groups) => keep_metadata(groups.as_slice()),
            Err(e) => return Err(e),
        };
        let lists = match self.free_extents_by_group(groups.as_slice()) {
            Ok(lists) => lists,
            Err(e) => return Err(e),
        };
        let found = first_fit(lists.as_slice(), nodesize);
        match found {
            Ok(at) => Ok(at),
            Err(best) => Err(
                Error::UnsupportedFeature(
                    cat5(
                        Lit("no metadata block group has "),
                        Dec(nodesize),
                        Lit(
                            " contiguous bytes aligned to a tree block; the longest usable run is ",
                        ),
                        Dec(best),
                        Lit(". Allocating a new block group is not implemented"),
                    ),
                ),
            ),
        }
    }
}

/// How many bits `n` bytes hold.
fn bits_in(n: usize) -> (bits: u64)
    ensures
        bits == bit_count(n as nat),
{
    match (n as u64).checked_mul(8) {
        Some(bits) => bits,
        None => u64::MAX,
    }
}

/// Whether an item is a bitmap of `group` too short for the sectors it
/// covers.
fn is_bad_bitmap(item: &LeafItem, group: &BlockGroup, sectorsize: u64) -> (yes: bool)
    requires
        sectorsize > 0,
    ensures
        yes == bad_bitmap(item@, *group, sectorsize),
{
    group.contains(item.key.objectid) && item.key.key_type == key_type::FREE_SPACE_BITMAP
        && bits_in(item.data.len()) < item.key.offset / sectorsize
}

/// What the items of a free-space tree say is free in `group`.
fn read_cache(items: &[LeafItem], group: &BlockGroup, sectorsize: u64) -> (r: Result<
    Vec<FreeExtent>,
>)
    requires
        sectorsize > 0,
    ensures
        crate::error::viewed(r) == cache_says(
            (btree::Stream { items: btree::models(items@), fault: None }),
            *group,
            sectorsize,
        ),
{
    let ghost all = btree::models(items@);
    let ghost pass = passes_bitmap(*group, sectorsize);
    let mut out: Vec<FreeExtent> = Vec::new();
    let mut info: bool = false;
    let mut i: usize = 0;
    assert(out@ =~= cached_in(all.take(0), *group, sectorsize));
    while i < items.len()
        invariant
            sectorsize > 0,
            i <= items@.len(),
            all == btree::models(items@),
            pass == passes_bitmap(*group, sectorsize),
            forall|k: int| 0 <= k < i ==> pass(#[trigger] all[k]),
            out@ == cached_in(all.take(i as int), *group, sectorsize),
            info == exists|k: int| 0 <= k < i && is_info(#[trigger] all[k], *group),
        decreases items@.len() - i,
    {
        let item = &items[i];
        assert(all.take(i + 1).drop_last() =~= all.take(i as int));
        assert(all.take(i + 1).last() == item@);
        assert(all[i as int] == item@);
        let ghost was = info;
        if is_bad_bitmap(item, group, sectorsize) {
            proof {
                btree::lemma_stop(all, pass, i + 1);
            }
            return Err(
                Error::UnsupportedFeature(
                    cat8(
                        Lit("a free-space bitmap at "),
                        Dec(item.key.objectid),
                        Lit(" covers "),
                        Dec(item.key.offset),
                        Lit(" bytes, which needs "),
                        Dec(item.key.offset / sectorsize),
                        Lit(" bits, but the item holds "),
                        Dec(bits_in(item.data.len())),
                    ),
                ),
            );
        }
        if group.contains(item.key.objectid) {
            if item.key.key_type == key_type::FREE_SPACE_INFO {
                if item.data.len() >= FREE_SPACE_INFO_SIZE {
                    info = true;
                    assert(is_info(all[i as int], *group));
                }
            } else if item.key.key_type == key_type::FREE_SPACE_EXTENT {
                // The key is the item: a start and a length, no body.
                out.push(FreeExtent { start: item.key.objectid, len: item.key.offset });
            } else if item.key.key_type == key_type::FREE_SPACE_BITMAP {
                read_bitmap(item, sectorsize, &mut out);
            }
        }
        proof {
            if was {
                let k = choose|k: int| 0 <= k < i && is_info(#[trigger] all[k], *group);
                assert(is_info(all[k], *group));
            }
        }
        i = i + 1;
    }
    assert(all.take(all.len() as int) =~= all);
    // A group the cache has no entry for is not a group with no free space.
    if !info {
        return Err(
            Error::UnsupportedFeature(
                cat3(
                    Lit("the free-space tree holds no info item for the block group at "),
                    Dec(group.start),
                    Lit(", so what it believes is free there cannot be established"),
                ),
            ),
        );
    }
    let sorted = sort_runs(out.as_slice());
    // A bitmap item and an extent item can abut across a boundary.
    Ok(merge_adjacent(sorted))
}

/// The groups of `groups` that may hold tree blocks.
pub(crate) fn keep_metadata(groups: &[BlockGroup]) -> (out: Vec<BlockGroup>)
    ensures
        out@ == metadata_groups(groups@),
{
    let mut out: Vec<BlockGroup> = Vec::new();
    let mut i: usize = 0;
    assert(out@ =~= metadata_groups(groups@.take(0)));
    while i < groups.len()
        invariant
            i <= groups@.len(),
            out@ == metadata_groups(groups@.take(i as int)),
        decreases groups@.len() - i,
    {
        assert(groups@.take(i + 1).drop_last() =~= groups@.take(i as int));
        assert(groups@.take(i + 1).last() == groups@[i as int]);
        if groups[i].holds_metadata() {
            out.push(groups[i]);
        }
        i = i + 1;
    }
    assert(groups@.take(groups@.len() as int) =~= groups@);
    out
}

/// The first place for a tree block in any of `lists`, or the most that is
/// usable in one run.
fn first_fit(lists: &[Vec<FreeExtent>], nodesize: u64) -> (r: std::result::Result<u64, u64>)
    requires
        nodesize > 0,
    ensures
        match r {
            Ok(at) => first_place(flattened(nested(lists@)), nodesize, 0) == Some(at),
            Err(best) => first_place(flattened(nested(lists@)), nodesize, 0) is None && best
                == most_usable(flattened(nested(lists@)), nodesize),
        },
{
    let ghost all = nested(lists@);
    let mut best: u64 = 0;
    let mut i: usize = 0;
    assert(flattened(all.take(0)) =~= Seq::<FreeExtent>::empty());
    while i < lists.len()
        invariant
            nodesize > 0,
            i <= lists@.len(),
            all == nested(lists@),
            none_placed(flattened(all.take(i as int)), nodesize),
            best == most_usable(flattened(all.take(i as int)), nodesize),
        decreases lists@.len() - i,
    {
        let list = &lists[i];
        let ghost before = flattened(all.take(i as int));
        assert(all.take(i + 1).drop_last() =~= all.take(i as int));
        assert(all.take(i + 1).last() == list@);
        assert(before + list@.take(0) =~= before);
        let mut k: usize = 0;
        while k < list.len()
            invariant
                nodesize > 0,
                i < lists@.len(),
                list@ == all[i as int],
                all == nested(lists@),
                k <= list@.len(),
                before == flattened(all.take(i as int)),
                none_placed(before + list@.take(k as int), nodesize),
                best == most_usable(before + list@.take(k as int), nodesize),
            decreases list@.len() - k,
        {
            let run = list[k];
            let ghost so_far = before + list@.take(k as int);
            let ghost next = before + list@.take(k + 1);
            assert(next.drop_last() =~= so_far);
            assert(next.last() == run);
            let usable_here: u64 = usable_in(run, nodesize);
            if usable_here > best {
                best = usable_here;
            }
            if let Some(at) = place_in_run(run, nodesize) {
                proof {
                    lemma_flattened_prefix(all, i as int);
                    assert(all.take(i + 1).drop_last() =~= all.take(i as int));
                    assert(all.take(i + 1).last() == list@);
                    let flat = flattened(all);
                    let at_run: int = before.len() + k;
                    assert(flat[at_run] == flattened(all.take(i + 1))[at_run]);
                    assert forall|j: int| 0 <= j < at_run implies runs::place_of(
                        #[trigger] flat[j],
                        nodesize,
                    ) is None by {
                        assert(flat[j] == so_far[j]);
                    }
                    lemma_first_place(flat, nodesize, 0, at_run);
                }
                return Ok(at);
            }
            assert forall|j: int| 0 <= j < next.len() implies runs::place_of(
                #[trigger] next[j],
                nodesize,
            ) is None by {
                if j < so_far.len() {
                    assert(next[j] == so_far[j]);
                }
            }
            k = k + 1;
        }
        assert(list@.take(k as int) =~= list@);
        i = i + 1;
    }
    proof {
        assert(all.take(all.len() as int) =~= all);
        lemma_no_place(flattened(all), nodesize, 0);
    }
    Err(best)
}

/// Whether no run of `list` has room for a tree block.
pub open spec fn none_placed(list: Seq<FreeExtent>, nodesize: u64) -> bool {
    forall|j: int| 0 <= j < list.len() ==> runs::place_of(#[trigger] list[j], nodesize) is None
}

proof fn lemma_no_place(list: Seq<FreeExtent>, nodesize: u64, k: int)
    requires
        0 <= k,
        none_placed(list, nodesize),
    ensures
        first_place(list, nodesize, k) is None,
    decreases list.len() - k,
{
    if k < list.len() {
        lemma_no_place(list, nodesize, k + 1);
    }
}

proof fn lemma_first_place(list: Seq<FreeExtent>, nodesize: u64, k: int, at: int)
    requires
        0 <= k <= at < list.len(),
        forall|j: int| 0 <= j < at ==> runs::place_of(#[trigger] list[j], nodesize) is None,
        runs::place_of(list[at], nodesize) is Some,
    ensures
        first_place(list, nodesize, k) == runs::place_of(list[at], nodesize),
    decreases at - k,
{
    if k < at {
        lemma_first_place(list, nodesize, k + 1, at);
    }
}

/// The lists up to and with `i` make the front of all of them.
pub(crate) proof fn lemma_flattened_prefix(lists: Seq<Seq<FreeExtent>>, i: int)
    requires
        0 <= i < lists.len(),
    ensures
        flattened(lists.take(i + 1)).len() <= flattened(lists).len(),
        flattened(lists).take(flattened(lists.take(i + 1)).len() as int) == flattened(
            lists.take(i + 1),
        ),
        forall|j: int|
            0 <= j < flattened(lists.take(i + 1)).len() ==> #[trigger] flattened(lists)[j]
                == flattened(lists.take(i + 1))[j],
    decreases lists.len(),
{
    if i == lists.len() - 1 {
        assert(lists.take(i + 1) =~= lists);
        assert(flattened(lists).take(flattened(lists).len() as int) =~= flattened(lists));
    } else {
        let front = lists.drop_last();
        lemma_flattened_prefix(front, i);
        assert(front.take(i + 1) =~= lists.take(i + 1));
        let head = flattened(lists.take(i + 1));
        assert forall|j: int| 0 <= j < head.len() implies #[trigger] flattened(lists)[j]
            == head[j] by {
            assert(flattened(front)[j] == head[j]);
        }
        assert(flattened(lists).take(head.len() as int) =~= head);
    }
}

} // verus!
