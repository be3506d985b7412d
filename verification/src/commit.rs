//! Performing a commit: the writes, in the order that makes them one.
//!
//! The order is the crash-consistency. Every tree block goes to every mirror,
//! then a flush; then the superblock goes to every copy the device is large
//! enough to hold, in address order, then a second flush. Until the
//! superblocks land a reader still sees the previous root, and the second
//! flush is what makes them durable rather than merely issued.
//!
//! This does not choose what to write. It takes blocks that are already built
//! and already placed.

use vstd::prelude::*;

use crate::bytes;
use crate::chunk;
use crate::chunk::{ChunkMap, ChunkModel};
use crate::device;
use crate::device_write;
use crate::device_write::{write_logical_all_mirrors, Action, ActionModel};
use crate::error::{Error, ErrorView, Result};
use crate::fs::{Filesystem, FilesystemModel};
use crate::super_write;
use crate::super_write::{apply, set_bytenr, stamp_checksum, Commit, SUPERBLOCK_SIZE};
use crate::superblock;
use crate::superblock::{ChecksumType, SUPER_OFFSETS};
use crate::text;
use crate::text::cat6;
use crate::text::Part::{Dec, Lit};

verus! {

/// One tree block, built and placed, waiting to be written.
#[derive(Debug, Clone, PartialEq, Eq)]
pub struct PlacedBlock {
    /// Where it goes, in logical address space.
    pub logical: u64,
    /// Its bytes, checksum already stamped.
    pub bytes: Vec<u8>,
}

/// What a [`PlacedBlock`] holds.
pub struct PlacedModel {
    pub logical: u64,
    pub bytes: Seq<u8>,
}

impl View for PlacedBlock {
    type V = PlacedModel;

    open spec fn view(&self) -> PlacedModel {
        PlacedModel { logical: self.logical, bytes: self.bytes@ }
    }
}

/// What a list of placed blocks holds.
pub open spec fn placed_models(blocks: Seq<PlacedBlock>) -> Seq<PlacedModel> {
    blocks.map_values(|b: PlacedBlock| b@)
}

/// The writes of the tree blocks `k ..`, to every mirror, behind `before`.
pub open spec fn blocks_written(
    map: Seq<ChunkModel>,
    size: u64,
    nodesize: u32,
    blocks: Seq<PlacedModel>,
    k: int,
    before: Seq<ActionModel>,
) -> std::result::Result<Seq<ActionModel>, ErrorView>
    decreases blocks.len() - k,
{
    if k < 0 || k >= blocks.len() {
        Ok(before)
    } else if blocks[k].bytes.len() != nodesize {
        Err(
            ErrorView::UnsupportedFeature(
                "a tree block is "@ + text::dec(nodesize as nat) + " bytes and the one for "@
                    + text::dec(blocks[k].logical as nat) + " is "@ + text::dec(
                    blocks[k].bytes.len(),
                ),
            ),
        )
    } else {
        match device_write::copies_written(map, size, blocks[k].logical, blocks[k].bytes) {
            Err(e) => Err(e),
            Ok(writes) => blocks_written(map, size, nodesize, blocks, k + 1, before + writes),
        }
    }
}

/// The superblock copy that belongs at `offset`, made from `raw`.
pub open spec fn copy_at(raw: Seq<u8>, csum_type: ChecksumType, offset: u64) -> Seq<u8> {
    super_write::sealed(
        super_write::with_u64(raw, superblock::offsets::BYTENR, Some(offset)),
        csum_type,
    )
}

/// The writes of the superblock copies `k ..` that a device of `size` bytes
/// holds. Each copy carries its own address.
pub open spec fn copies_from(raw: Seq<u8>, csum_type: ChecksumType, size: u64, k: int) -> Seq<
    ActionModel,
>
    decreases 3 - k,
{
    if k < 0 || k >= 3 {
        Seq::empty()
    } else {
        let offset = SUPER_OFFSETS@[k];
        let rest = copies_from(raw, csum_type, size, k + 1);
        if offset + SUPERBLOCK_SIZE <= size {
            seq![ActionModel::Write { at: offset, bytes: copy_at(raw, csum_type, offset) }] + rest
        } else {
            rest
        }
    }
}

/// The current superblock with `commit` applied. It is read back from the
/// device: it holds fields that are not modelled here.
pub open spec fn image_outcome(fs: FilesystemModel, commit: Commit) -> std::result::Result<
    Seq<u8>,
    ErrorView,
> {
    match (fs.volume.disk)(0, SUPER_OFFSETS@[0], SUPERBLOCK_SIZE) {
        Err(e) => Err(e),
        Ok(raw) => if raw.len() < SUPERBLOCK_SIZE {
            Err(
                ErrorView::UnsupportedFeature(
                    "a superblock is 4096 bytes and this is "@ + text::dec(raw.len()),
                ),
            )
        } else {
            Ok(
                super_write::sealed(
                    super_write::with_commit(raw, commit),
                    fs.volume.sb.csum_type,
                ),
            )
        },
    }
}

/// The two halves of a commit: the tree blocks, and the superblock copies.
pub open spec fn commit_halves(fs: FilesystemModel, blocks: Seq<PlacedModel>, commit: Commit) -> std::result::Result<
    (Seq<ActionModel>, Seq<ActionModel>),
    ErrorView,
> {
    match fs.writable {
        None => Err(ErrorView::ReadOnly),
        Some(size) => match blocks_written(
            fs.volume.map,
            size,
            fs.volume.sb.nodesize,
            blocks,
            0,
            Seq::empty(),
        ) {
            Err(e) => Err(e),
            Ok(writes) => match image_outcome(fs, commit) {
                Err(e) => Err(e),
                Ok(raw) => Ok((writes, copies_from(raw, fs.volume.sb.csum_type, size, 0))),
            },
        },
    }
}

/// What a commit takes: the tree blocks, a flush, the superblock copies, a
/// second flush.
pub open spec fn commit_outcome(fs: FilesystemModel, blocks: Seq<PlacedModel>, commit: Commit) -> std::result::Result<
    Seq<ActionModel>,
    ErrorView,
> {
    match commit_halves(fs, blocks, commit) {
        Err(e) => Err(e),
        Ok((writes, copies)) => Ok(
            writes.push(ActionModel::Flush) + copies.push(ActionModel::Flush),
        ),
    }
}

/// Nothing points at a block that may not be there yet: between the write of
/// a tree block and the write of a superblock copy lies a flush. And the last
/// thing a commit does is flush.
pub proof fn law_blocks_land_before_superblocks(
    fs: FilesystemModel,
    blocks: Seq<PlacedModel>,
    commit: Commit,
)
    ensures
        commit_halves(fs, blocks, commit) matches Ok(halves) ==> {
            let actions = commit_outcome(fs, blocks, commit)->Ok_0;
            let (writes, copies) = halves;
            &&& actions.len() == writes.len() + copies.len() + 2
            &&& forall|i: int| 0 <= i < writes.len() ==> #[trigger] actions[i] == writes[i]
            &&& actions[writes.len() as int] == ActionModel::Flush
            &&& forall|i: int|
                0 <= i < copies.len() ==> actions[writes.len() + 1 + i] == #[trigger] copies[i]
            &&& actions.last() == ActionModel::Flush
        },
{
    if let Ok((writes, copies)) = commit_halves(fs, blocks, commit) {
        let actions = commit_outcome(fs, blocks, commit)->Ok_0;
        assert forall|i: int| 0 <= i < copies.len() implies actions[writes.len() + 1 + i]
            == #[trigger] copies[i] by {
            assert(copies.push(ActionModel::Flush)[i] == copies[i]);
        }
        assert(actions[actions.len() - 1] == ActionModel::Flush);
    }
}

/// Whether an action writes a superblock copy made from `raw` at one of the
/// offsets copies belong at, whole inside a device of `size` bytes.
pub open spec fn is_copy(action: ActionModel, raw: Seq<u8>, csum_type: ChecksumType, size: u64) -> bool {
    action matches ActionModel::Write { at, bytes } && superblock::is_super_offset(at) && at
        + SUPERBLOCK_SIZE <= size && bytes == copy_at(raw, csum_type, at)
}

proof fn lemma_copies(raw: Seq<u8>, csum_type: ChecksumType, size: u64, k: int)
    requires
        0 <= k,
    ensures
        forall|i: int|
            0 <= i < copies_from(raw, csum_type, size, k).len() ==> is_copy(
                #[trigger] copies_from(raw, csum_type, size, k)[i],
                raw,
                csum_type,
                size,
            ),
    decreases 3 - k,
{
    if k < 3 {
        lemma_copies(raw, csum_type, size, k + 1);
        let rest = copies_from(raw, csum_type, size, k + 1);
        let all = copies_from(raw, csum_type, size, k);
        let offset = SUPER_OFFSETS@[k];
        assert(superblock::is_super_offset(offset));
        assert forall|i: int| 0 <= i < all.len() implies is_copy(
            #[trigger] all[i],
            raw,
            csum_type,
            size,
        ) by {
            if offset + SUPERBLOCK_SIZE <= size {
                if i > 0 {
                    assert(all[i] == rest[i - 1]);
                }
            } else {
                assert(all[i] == rest[i]);
            }
        }
    }
}

/// Every superblock copy a commit writes lies on the device, says which copy
/// it is, names the new root under the new generation, and verifies, as long
/// as the superblock's own selector names the checksum in use.
pub proof fn law_committed_copies_are_sound(
    fs: FilesystemModel,
    blocks: Seq<PlacedModel>,
    commit: Commit,
    raw: Seq<u8>,
    i: int,
)
    requires
        (fs.volume.disk)(0, SUPER_OFFSETS@[0], SUPERBLOCK_SIZE) == Ok::<Seq<u8>, ErrorView>(raw),
        bytes::u16_at(raw, superblock::offsets::CSUM_TYPE as int)
            == fs.volume.sb.csum_type.raw(),
        commit_halves(fs, blocks, commit) matches Ok(halves) && 0 <= i < halves.1.len(),
    ensures
        ({
            let csum_type = fs.volume.sb.csum_type;
            commit_halves(fs, blocks, commit)->Ok_0.1[i] matches ActionModel::Write { at, bytes: b }
                && {
                &&& superblock::is_super_offset(at)
                &&& at + SUPERBLOCK_SIZE <= fs.writable->Some_0
                &&& b.len() == raw.len()
                &&& superblock::intact(b)
                &&& superblock::decoded(b, csum_type).bytenr == at
                &&& superblock::decoded(b, csum_type).generation == commit.generation
                &&& superblock::decoded(b, csum_type).root == commit.root
            }
        }),
{
    broadcast use crate::bytes::group_fields;

    let csum_type = fs.volume.sb.csum_type;
    let size = fs.writable->Some_0;
    let image = image_outcome(fs, commit)->Ok_0;
    lemma_copies(image, csum_type, size, 0);
    let copies = commit_halves(fs, blocks, commit)->Ok_0.1;
    assert(is_copy(copies[i], image, csum_type, size));
    if let ActionModel::Write { at, bytes: b } = copies[i] {
        let moved = super_write::with_u64(image, superblock::offsets::BYTENR, Some(at));
        reveal(crate::bytes::u16_at);
        assert(bytes::u16_at(moved, superblock::offsets::CSUM_TYPE as int) == bytes::u16_at(
            raw,
            superblock::offsets::CSUM_TYPE as int,
        ));
        super_write::law_sealed_superblock_is_intact(moved, csum_type);
        super_write::law_commit_is_read_back(raw, csum_type, commit);
    }
}

/// Until the first superblock copy is written, a crash leaves the previous
/// filesystem: wherever a commit stops before that, every byte no tree block
/// of it was written to, the superblocks' among them, is what it was.
pub proof fn law_an_unfinished_commit_changes_only_new_blocks(
    fs: FilesystemModel,
    blocks: Seq<PlacedModel>,
    commit: Commit,
    content: Seq<u8>,
    n: int,
    a: int,
)
    requires
        0 <= a < content.len(),
        commit_halves(fs, blocks, commit) matches Ok(halves) && 0 <= n <= halves.0.len() + 1
            && forall|i: int| 0 <= i < halves.0.len() ==> !device_write::touches(
            #[trigger] halves.0[i],
            a,
        ),
    ensures
        ({
            let part = commit_outcome(fs, blocks, commit)->Ok_0.take(n);
            device_write::performed(content, part)[a] == content[a]
        }),
{
    let (writes, copies) = commit_halves(fs, blocks, commit)->Ok_0;
    let actions = commit_outcome(fs, blocks, commit)->Ok_0;
    let part = actions.take(n);
    law_blocks_land_before_superblocks(fs, blocks, commit);
    assert forall|i: int| 0 <= i < part.len() implies !device_write::touches(
        #[trigger] part[i],
        a,
    ) by {
        if i < writes.len() {
            assert(part[i] == writes[i]);
        } else {
            assert(part[i] == ActionModel::Flush);
        }
    }
    device_write::law_actions_change_only_what_they_write(content, part, a);
}

/// What the writes of the blocks have behind them stays at their front.
proof fn lemma_blocks_extend(
    map: Seq<ChunkModel>,
    size: u64,
    nodesize: u32,
    blocks: Seq<PlacedModel>,
    k: int,
    before: Seq<ActionModel>,
    all: Seq<ActionModel>,
)
    requires
        0 <= k,
        blocks_written(map, size, nodesize, blocks, k, before) == Ok::<
            Seq<ActionModel>,
            ErrorView,
        >(all),
    ensures
        before.len() <= all.len(),
        forall|i: int| 0 <= i < before.len() ==> #[trigger] all[i] == before[i],
    decreases blocks.len() - k,
{
    if k < blocks.len() {
        let writes = device_write::copies_written(
            map,
            size,
            blocks[k].logical,
            blocks[k].bytes,
        )->Ok_0;
        let next = before + writes;
        lemma_blocks_extend(map, size, nodesize, blocks, k + 1, next, all);
        assert forall|i: int| 0 <= i < before.len() implies #[trigger] all[i] == before[i] by {
            assert(next[i] == before[i]);
        }
    }
}

/// The writes of a block stand among those of all the blocks.
proof fn lemma_block_is_written(
    map: Seq<ChunkModel>,
    size: u64,
    nodesize: u32,
    blocks: Seq<PlacedModel>,
    k: int,
    before: Seq<ActionModel>,
    all: Seq<ActionModel>,
    q: int,
) -> (first: int)
    requires
        0 <= k <= q < blocks.len(),
        blocks_written(map, size, nodesize, blocks, k, before) == Ok::<
            Seq<ActionModel>,
            ErrorView,
        >(all),
    ensures
        blocks[q].bytes.len() == nodesize,
        device_write::copies_written(map, size, blocks[q].logical, blocks[q].bytes) matches Ok(
            writes,
        ) && 0 <= first && first + writes.len() <= all.len() && forall|i: int|
            0 <= i < writes.len() ==> #[trigger] writes[i] == all[first + i],
    decreases blocks.len() - k,
{
    let writes = device_write::copies_written(
        map,
        size,
        blocks[k].logical,
        blocks[k].bytes,
    )->Ok_0;
    let next = before + writes;
    if k == q {
        lemma_blocks_extend(map, size, nodesize, blocks, k + 1, next, all);
        assert forall|i: int| 0 <= i < writes.len() implies #[trigger] writes[i] == all[
        before.len() + i] by {
            assert(next[before.len() + i] == writes[i]);
        }
        before.len() as int
    } else {
        lemma_block_is_written(map, size, nodesize, blocks, k + 1, next, all, q)
    }
}

/// Every block a commit was given is what a read of its address gives
/// afterwards, as long as no two of the commit's writes share a byte of the
/// device.
pub proof fn law_committed_blocks_are_read_back(
    fs: FilesystemModel,
    blocks: Seq<PlacedModel>,
    commit: Commit,
    content: Seq<u8>,
    actions: Seq<ActionModel>,
    q: int,
)
    requires
        chunk::divisible(fs.volume.map),
        content.len() <= u64::MAX,
        fs.writable == Some(content.len() as u64),
        commit_outcome(fs, blocks, commit) == Ok::<Seq<ActionModel>, ErrorView>(actions),
        device_write::apart(actions),
        0 <= q < blocks.len(),
    ensures
        device::pool_image(
            device_write::holding(device_write::performed(content, actions)),
            Seq::empty(),
            fs.volume.map,
            fs.volume.sb.nodesize,
        )(blocks[q].logical) == Ok::<Seq<u8>, ErrorView>(blocks[q].bytes),
{
    let map = fs.volume.map;
    let size = content.len() as u64;
    let nodesize = fs.volume.sb.nodesize;
    let (all, copies) = commit_halves(fs, blocks, commit)->Ok_0;
    let after = device_write::performed(content, actions);
    let data = blocks[q].bytes;
    law_blocks_land_before_superblocks(fs, blocks, commit);
    let first = lemma_block_is_written(map, size, nodesize, blocks, 0, Seq::empty(), all, q);
    let writes = device_write::copies_written(map, size, blocks[q].logical, data)->Ok_0;
    let spans = device_write::spans_of(map, size, blocks[q].logical, data.len())->Ok_0;
    device_write::law_writes_stay_on_the_device(map, size, blocks[q].logical, data.len());
    assert forall|i: int| 0 <= i < spans.len() implies after.subrange(
        (#[trigger] spans[i]).physical as int,
        spans[i].physical + spans[i].len,
    ) == data.subrange(spans[i].from as int, spans[i].from + spans[i].len) by {
        assert(writes[i] == device_write::write_of(data, spans[i]));
        assert(actions[first + i] == writes[i]);
        device_write::lemma_written(content, actions, first + i);
    }
    device_write::lemma_written(content, actions, actions.len() - 1);
    device_write::lemma_held_is_read(map, blocks[q].logical, data, after, spans);
}

/// Whether a superblock copy at `offset` is inside a device of `size` bytes.
/// A small filesystem simply has fewer copies.
fn superblock_copy_fits(offset: u64, size: u64) -> (yes: bool)
    ensures
        yes == (offset + SUPERBLOCK_SIZE <= size),
{
    size >= SUPERBLOCK_SIZE as u64 && offset <= size - SUPERBLOCK_SIZE as u64
}

/// The writes of every tree block, to every mirror.
fn write_blocks(map: &ChunkMap, size: u64, nodesize: u32, blocks: &[PlacedBlock]) -> (r: Result<
    Vec<Action>,
>)
    requires
        chunk::divisible(map@),
    ensures
        device_write::actions_seen(r) == blocks_written(
            map@,
            size,
            nodesize,
            placed_models(blocks@),
            0,
            Seq::empty(),
        ),
{
    let ghost all = placed_models(blocks@);
    let mut out: Vec<Action> = Vec::new();
    assert(device_write::action_models(out@) =~= Seq::<ActionModel>::empty());
    let mut i: usize = 0;
    while i < blocks.len()
        invariant
            chunk::divisible(map@),
            i <= blocks@.len(),
            all == placed_models(blocks@),
            blocks_written(map@, size, nodesize, all, 0, Seq::empty()) == blocks_written(
                map@,
                size,
                nodesize,
                all,
                i as int,
                device_write::action_models(out@),
            ),
        decreases blocks@.len() - i,
    {
        let block = &blocks[i];
        assert(all[i as int] == block@);
        if block.bytes.len() as u64 != nodesize as u64 {
            return Err(
                Error::UnsupportedFeature(
                    cat6(
                        Lit("a tree block is "),
                        Dec(nodesize as u64),
                        Lit(" bytes and the one for "),
                        Dec(block.logical),
                        Lit(" is "),
                        Dec(block.bytes.len() as u64),
                    ),
                ),
            );
        }
        let mut writes = match write_logical_all_mirrors(
            size,
            map,
            block.logical,
            block.bytes.as_slice(),
        ) {
            Ok(writes) => writes,
            Err(e) => return Err(e),
        };
        let ghost before = device_write::action_models(out@);
        let ghost added = device_write::action_models(writes@);
        out.append(&mut writes);
        assert(device_write::action_models(out@) =~= before + added);
        i = i + 1;
    }
    Ok(out)
}

/// Add the writes of the superblock copies a device holds to `out`.
fn write_copies(raw: &[u8], csum_type: ChecksumType, size: u64, out: &mut Vec<Action>)
    requires
        raw@.len() >= SUPERBLOCK_SIZE,
    ensures
        device_write::action_models(final(out)@) == device_write::action_models(old(out)@)
            + copies_from(raw@, csum_type, size, 0),
{
    let ghost start = device_write::action_models(out@);
    let mut k: usize = 0;
    while k < 3
        invariant
            k <= 3,
            raw@.len() >= SUPERBLOCK_SIZE,
            start + copies_from(raw@, csum_type, size, 0) == device_write::action_models(out@)
                + copies_from(raw@, csum_type, size, k as int),
        decreases 3 - k,
    {
        let offset: u64 = SUPER_OFFSETS[k];
        let ghost before = device_write::action_models(out@);
        let ghost rest = copies_from(raw@, csum_type, size, k + 1);
        if superblock_copy_fits(offset, size) {
            let mut image = bytes::copy_range(raw, 0, raw.len());
            assert(image@ =~= raw@);
            set_bytenr(image.as_mut_slice(), offset);
            stamp_checksum(image.as_mut_slice(), csum_type);
            let action = Action::Write { at: offset, bytes: image };
            assert(action@ == ActionModel::Write {
                at: offset,
                bytes: copy_at(raw@, csum_type, offset),
            });
            let ghost one = action@;
            out.push(action);
            assert(device_write::action_models(out@) =~= before.push(one));
            assert(before + (seq![one] + rest) =~= before.push(one) + rest);
        }
        k = k + 1;
    }
    assert(device_write::action_models(out@) + Seq::<ActionModel>::empty()
        =~= device_write::action_models(out@));
}

impl<R: Fn(usize, u64, usize) -> Result<Vec<u8>>> Filesystem<R> {
    /// What writing a transaction and making it real takes, to be performed
    /// in order.
    ///
    /// A failure before the superblocks leaves the filesystem as it was: the
    /// blocks written are ones nothing points at. A failure during the
    /// superblock writes leaves some copies naming the new root and some the
    /// old; the generation number in each copy exists to resolve that.
    pub fn commit(&self, blocks: &[PlacedBlock], commit: &Commit) -> (r: Result<Vec<Action>>)
        requires
            self.ready(),
        ensures
            self.faithful() ==> device_write::actions_seen(r) == commit_outcome(
                self@,
                placed_models(blocks@),
                *commit,
            ),
            self@.writable is None ==> (r matches Err(e) && e@ == ErrorView::ReadOnly),
    {
        let size: u64 = match self.writable {
            Some(size) => size,
            None => return Err(Error::ReadOnly),
        };
        // Every tree block, to every mirror. Nothing points at these yet, so
        // their order among themselves does not matter.
        let mut out = match write_blocks(
            &self.volume.map,
            size,
            self.volume.sb.nodesize,
            blocks,
        ) {
            Ok(out) => out,
            Err(e) => return Err(e),
        };
        let ghost writes = device_write::action_models(out@);
        // The barrier: what follows is the pointer to what came before.
        out.push(Action::Flush);
        assert(device_write::action_models(out@) =~= writes.push(ActionModel::Flush));
        let raw = match self.superblock_image(commit) {
            Ok(raw) => raw,
            Err(e) => return Err(e),
        };
        write_copies(raw.as_slice(), self.volume.sb.csum_type, size, &mut out);
        let ghost before = device_write::action_models(out@);
        // The second flush is the commit point.
        out.push(Action::Flush);
        proof {
            assert(device_write::action_models(out@) =~= before.push(ActionModel::Flush));
            let copies = copies_from(raw@, self@.volume.sb.csum_type, size, 0);
            assert((writes.push(ActionModel::Flush) + copies).push(ActionModel::Flush)
                =~= writes.push(ActionModel::Flush) + copies.push(ActionModel::Flush));
        }
        Ok(out)
    }

    /// The current superblock with `commit` applied.
    fn superblock_image(&self, commit: &Commit) -> (r: Result<Vec<u8>>)
        requires
            self.ready(),
        ensures
            self.faithful() ==> crate::error::viewed(r) == image_outcome(self@, *commit),
            r matches Ok(raw) ==> raw@.len() >= SUPERBLOCK_SIZE,
    {
        let mut raw = match (self.volume.read)(0, SUPER_OFFSETS[0], SUPERBLOCK_SIZE) {
            Ok(raw) => raw,
            Err(e) => return Err(e),
        };
        match apply(raw.as_mut_slice(), self.volume.sb.csum_type, commit) {
            Ok(()) => {
                proof {
                    broadcast use crate::bytes::group_fields;

                }
                Ok(raw)
            },
            Err(e) => Err(e),
        }
    }
}

} // verus!
