//! Overwriting file data in place.
//!
//! Btrfs is copy-on-write, so as a rule nothing is written where it already
//! is. A file marked `NODATACOW` is the exception: its data blocks are
//! overwritten where they lie, and checksumming is off for it, so writing the
//! bytes changes nothing else.
//!
//! The flag is a promise for as long as the extent belongs to one file. Take
//! a snapshot and the extent becomes shared; the next write to it has to copy
//! first. Sharing is visible in the extent tree as a reference count on the
//! extent item, and anything above one is refused.

use vstd::prelude::*;
use vstd::slice::slice_subrange;

use crate::btree;
use crate::btree::{ItemModel, LeafItem, Stream};
use crate::bytes;
use crate::bytes::le64;
use crate::chunk;
use crate::chunk::{key_type, objectid, ChunkMap, ChunkModel};
use crate::device_write;
use crate::device_write::{write_logical_all_mirrors, Action, ActionModel};
use crate::error::{Error, ErrorView, Result};
use crate::fs::extents;
use crate::fs::extents::FileExtent;
use crate::fs::namespace;
use crate::fs::{Filesystem, FilesystemModel};
use crate::inode;
use crate::inode::{FileType, Inode};
use crate::text;
use crate::text::Part::{Dec, Lit};
use crate::text::{cat12, cat3, cat5, cat7};
use crate::volume::VolumeModel;

pub use crate::inode::{INODE_NODATACOW, INODE_NODATASUM};

pub mod laws;
pub mod refusal_laws;

verus! {

/// Offset of the reference count in an extent item.
pub const EXTENT_REFS: usize = 0;

/// Whether a window of `len` bytes at `logical` lies inside the extent of
/// `extent_len` bytes at `extent_start`, all of it in the address space.
pub open spec fn window_inside(logical: u64, len: u64, extent_start: u64, extent_len: u64) -> bool {
    &&& logical + len <= u64::MAX
    &&& extent_start + extent_len <= u64::MAX
    &&& logical >= extent_start
    &&& logical + len <= extent_start + extent_len
}

/// Whether a file piece's window, `[logical, logical + len)`, lies inside the
/// extent the extent tree records at `extent_start` for `extent_len` bytes.
/// Shared by the write and by `can_write_in_place`, so the two cannot
/// disagree about which windows a write refuses.
pub fn window_inside_extent(logical: u64, len: u64, extent_start: u64, extent_len: u64) -> (yes: bool)
    ensures
        yes == window_inside(logical, len, extent_start, extent_len),
{
    match (logical.checked_add(len), extent_start.checked_add(extent_len)) {
        (Some(piece_end), Some(extent_end)) => logical >= extent_start && piece_end <= extent_end,
        _ => false,
    }
}

/// Whether an item is anything but a usable record of the extent at `bytenr`.
pub open spec fn passes_extent(bytenr: u64) -> spec_fn(ItemModel) -> bool {
    |i: ItemModel|
        !(i.key.objectid == bytenr && i.key.key_type == key_type::EXTENT_ITEM && i.data.len()
            >= EXTENT_REFS + 8)
}

/// How many references the extent at `bytenr` has, and how long the extent
/// tree records it as. The first record answers.
pub open spec fn record_in(s: Stream, bytenr: u64) -> std::result::Result<(u64, u64), ErrorView> {
    let pass = passes_extent(bytenr);
    if btree::stopped(s.items, pass) {
        let item = s.items[btree::seen_count(s.items, pass) - 1];
        Ok((bytes::u64_at(item.data, EXTENT_REFS as int), item.key.offset))
    } else {
        match s.fault {
            Some(e) => Err(e),
            None => Err(
                ErrorView::UnsupportedFeature(
                    "the extent tree holds no item for the extent at "@ + text::dec(bytenr as nat)
                        + ", so whether it is shared cannot be established"@,
                ),
            ),
        }
    }
}

/// What the extent tree of a volume records of the extent at `bytenr`.
pub open spec fn extent_record(volume: VolumeModel, bytenr: u64) -> std::result::Result<
    (u64, u64),
    ErrorView,
> {
    match volume.tree_root(objectid::EXTENT_TREE) {
        Err(e) => Err(e),
        Ok(root) => record_in(volume.walk(root), bytenr),
    }
}

/// Whether an extent covers file offset `pos`.
pub open spec fn holds(piece: FileExtent, pos: u64) -> bool {
    piece.start <= pos < piece.start + piece.len
}

/// The first of the extents `from ..` that covers file offset `pos`.
pub open spec fn extent_at(pieces: Seq<FileExtent>, pos: u64, from: int) -> Option<FileExtent>
    decreases pieces.len() - from,
{
    if from < 0 || from >= pieces.len() {
        None
    } else if holds(pieces[from], pos) {
        Some(pieces[from])
    } else {
        extent_at(pieces, pos, from + 1)
    }
}

/// Why the extent that covers file offset `pos` cannot be overwritten.
pub open spec fn piece_refusal(volume: VolumeModel, ino: u64, pos: u64, piece: FileExtent) -> Option<
    ErrorView,
> {
    if piece.compressed {
        Some(
            ErrorView::UnsupportedFeature(
                extents::of_inode(ino) + ": offset "@ + text::dec(pos as nat)
                    + " is in a compressed extent, which cannot be rewritten without recompressing the whole of it"@,
            ),
        )
    } else {
        match piece.logical {
            None => Some(
                ErrorView::UnsupportedFeature(
                    extents::of_inode(ino) + ": offset "@ + text::dec(pos as nat)
                        + " is inline or preallocated, so writing it changes the item rather than the blocks it points at"@,
                ),
            ),
            Some(logical) => match extent_record(volume, piece.extent_start) {
                Err(e) => Some(e),
                Ok((refs, extent_len)) => if !window_inside(
                    logical,
                    piece.len,
                    piece.extent_start,
                    extent_len,
                ) {
                    Some(
                        ErrorView::UnsupportedFeature(
                            extents::of_inode(ino) + ": offset "@ + text::dec(pos as nat)
                                + " maps to ["@ + text::dec(logical as nat) + ", +"@ + text::dec(
                                piece.len as nat,
                            ) + "), outside the "@ + text::dec(extent_len as nat)
                                + "-byte extent the extent tree records at "@ + text::dec(
                                piece.extent_start as nat,
                            ),
                        ),
                    )
                } else if refs != 1 {
                    Some(
                        ErrorView::UnsupportedFeature(
                            extents::of_inode(ino) + ": the extent at "@ + text::dec(
                                piece.extent_start as nat,
                            ) + " has "@ + text::dec(refs as nat)
                                + " references, so something else — most likely a snapshot — is still reading it"@,
                        ),
                    )
                } else {
                    None
                },
            },
        }
    }
}

/// Where the bytes `done .. len` of a write at file offset `offset` land, as
/// logical addresses and lengths, behind `before`.
pub open spec fn plan_from(
    volume: VolumeModel,
    pieces: Seq<FileExtent>,
    ino: u64,
    offset: u64,
    len: nat,
    done: nat,
    before: Seq<(u64, usize)>,
) -> std::result::Result<Seq<(u64, usize)>, ErrorView>
    decreases len - done,
{
    if done >= len {
        Ok(before)
    } else {
        let pos = (offset + done) as u64;
        match extent_at(pieces, pos, 0) {
            None => Err(
                ErrorView::UnsupportedFeature(
                    extents::of_inode(ino) + ": offset "@ + text::dec(pos as nat)
                        + " is a hole, and filling it would allocate"@,
                ),
            ),
            Some(piece) => match piece_refusal(volume, ino, pos, piece) {
                Some(e) => Err(e),
                None => {
                    let within: int = pos - piece.start;
                    let left: int = piece.len - within;
                    let n: int = if left < len - done {
                        left
                    } else {
                        len - done
                    };
                    if n <= 0 {
                        Ok(before)
                    } else {
                        plan_from(
                            volume,
                            pieces,
                            ino,
                            offset,
                            len,
                            (done + n) as nat,
                            before.push(((piece.logical->Some_0 + within) as u64, n as usize)),
                        )
                    }
                },
            },
        }
    }
}

/// Where each part of a write lands.
pub open spec fn plan_outcome(fs: FilesystemModel, ino: u64, offset: u64, len: nat) -> std::result::Result<
    Seq<(u64, usize)>,
    ErrorView,
> {
    match extents::extents_of(fs.items, ino, fs.volume.sb.sectorsize) {
        Err(e) => Err(e),
        Ok(pieces) => plan_from(fs.volume, pieces, ino, offset, len, 0, Seq::empty()),
    }
}

/// The writes of the parts `k ..` of a plan, the first of them the bytes of
/// `data` from `done` on, behind `before`.
pub open spec fn parts_written(
    map: Seq<ChunkModel>,
    size: u64,
    plan: Seq<(u64, usize)>,
    data: Seq<u8>,
    k: int,
    done: int,
    before: Seq<ActionModel>,
) -> std::result::Result<Seq<ActionModel>, ErrorView>
    decreases plan.len() - k,
{
    if k < 0 || k >= plan.len() {
        Ok(before)
    } else {
        let (logical, len) = plan[k];
        match device_write::copies_written(map, size, logical, data.subrange(done, done + len)) {
            Err(e) => Err(e),
            Ok(writes) => parts_written(
                map,
                size,
                plan,
                data,
                k + 1,
                done + len,
                before + writes,
            ),
        }
    }
}

/// Why an inode's range cannot be overwritten, whatever its extents are.
pub open spec fn inode_refusal(inode: Inode, ino: u64, offset: u64, len: nat) -> Option<ErrorView> {
    if inode::type_of_mode(inode.mode) != Some(FileType::Regular) {
        Some(ErrorView::NotAFile)
    } else if inode.flags & INODE_NODATACOW == 0 {
        Some(
            ErrorView::UnsupportedFeature(
                extents::of_inode(ino)
                    + " is copy-on-write, so overwriting it in place would leave the extent tree, the checksum tree and the superblock generation describing something that is no longer there"@,
            ),
        )
    } else if inode.flags & INODE_NODATASUM == 0 {
        Some(
            ErrorView::UnsupportedFeature(
                extents::of_inode(ino)
                    + " is nodatacow but still checksummed, so writing it in place would leave every checksum item for it wrong"@,
            ),
        )
    } else if offset + len > u64::MAX {
        Some(ErrorView::UnsupportedFeature("write range overflows"@))
    } else if offset + len > inode.size {
        Some(
            ErrorView::UnsupportedFeature(
                extents::of_inode(ino) + ": writing to "@ + text::dec((offset + len) as nat)
                    + " would grow the file past its "@ + text::dec(inode.size as nat)
                    + " bytes, which allocates"@,
            ),
        )
    } else {
        None
    }
}

/// What overwriting `data` at `offset` in inode `ino` takes: the writes to
/// every copy of every part, and a flush behind them.
pub open spec fn write_outcome(fs: FilesystemModel, ino: u64, offset: u64, data: Seq<u8>) -> std::result::Result<
    Seq<ActionModel>,
    ErrorView,
> {
    match fs.writable {
        None => Err(ErrorView::ReadOnly),
        Some(size) => if data.len() == 0 {
            Ok(Seq::empty())
        } else {
            match namespace::inode_of(fs.items, ino) {
                Err(e) => Err(e),
                Ok(inode) => match inode_refusal(inode, ino, offset, data.len()) {
                    Some(e) => Err(e),
                    None => match plan_outcome(fs, ino, offset, data.len()) {
                        Err(e) => Err(e),
                        Ok(plan) => match parts_written(
                            fs.volume.map,
                            size,
                            plan,
                            data,
                            0,
                            0,
                            Seq::empty(),
                        ) {
                            Err(e) => Err(e),
                            Ok(writes) => Ok(writes.push(ActionModel::Flush)),
                        },
                    },
                },
            }
        },
    }
}

/// Whether the extents `from ..` could all be overwritten.
pub open spec fn all_writable(volume: VolumeModel, pieces: Seq<FileExtent>, from: int) -> std::result::Result<
    bool,
    ErrorView,
>
    decreases pieces.len() - from,
{
    if from < 0 || from >= pieces.len() {
        Ok(true)
    } else {
        let piece = pieces[from];
        match piece.logical {
            None => Ok(false),
            Some(logical) => if piece.compressed {
                Ok(false)
            } else {
                match extent_record(volume, piece.extent_start) {
                    Err(e) => Err(e),
                    Ok((refs, extent_len)) => if refs != 1 || !window_inside(
                        logical,
                        piece.len,
                        piece.extent_start,
                        extent_len,
                    ) {
                        Ok(false)
                    } else {
                        all_writable(volume, pieces, from + 1)
                    },
                }
            },
        }
    }
}

/// Whether inode `ino` can be written in place at all.
pub open spec fn writable_outcome(fs: FilesystemModel, ino: u64) -> std::result::Result<
    bool,
    ErrorView,
> {
    match namespace::inode_of(fs.items, ino) {
        Err(e) => Err(e),
        Ok(inode) => if inode::type_of_mode(inode.mode) != Some(FileType::Regular) {
            Ok(false)
        } else if inode.flags & (INODE_NODATACOW | INODE_NODATASUM) != (INODE_NODATACOW
            | INODE_NODATASUM) {
            Ok(false)
        } else {
            match extents::extents_of(fs.items, ino, fs.volume.sb.sectorsize) {
                Err(e) => Err(e),
                Ok(pieces) => all_writable(fs.volume, pieces, 0),
            }
        },
    }
}

pub(crate) proof fn lemma_extent_at(pieces: Seq<FileExtent>, pos: u64, from: int)
    requires
        0 <= from,
    ensures
        extent_at(pieces, pos, from) matches Some(piece) ==> holds(piece, pos) && exists|i: int|
            from <= i < pieces.len() && #[trigger] pieces[i] == piece,
    decreases pieces.len() - from,
{
    if from < pieces.len() {
        if holds(pieces[from], pos) {
            assert(pieces[from] == pieces[from]);
        } else {
            lemma_extent_at(pieces, pos, from + 1);
        }
    }
}

proof fn lemma_all_writable(volume: VolumeModel, pieces: Seq<FileExtent>, from: int, i: int)
    requires
        0 <= from <= i < pieces.len(),
        all_writable(volume, pieces, from) == Ok::<bool, ErrorView>(true),
    ensures
        forall|ino: u64, pos: u64| #[trigger]
            piece_refusal(volume, ino, pos, pieces[i]) is None,
    decreases i - from,
{
    if from < i {
        lemma_all_writable(volume, pieces, from + 1, i);
    }
}

proof fn lemma_plan_succeeds(
    volume: VolumeModel,
    pieces: Seq<FileExtent>,
    ino: u64,
    offset: u64,
    len: nat,
    done: nat,
    before: Seq<(u64, usize)>,
)
    requires
        done <= len,
        offset + len <= u64::MAX,
        all_writable(volume, pieces, 0) == Ok::<bool, ErrorView>(true),
        forall|pos: u64|
            offset <= pos < offset + len ==> (#[trigger] extent_at(pieces, pos, 0)) is Some,
    ensures
        plan_from(volume, pieces, ino, offset, len, done, before) is Ok,
    decreases len - done,
{
    if done < len {
        let pos = (offset + done) as u64;
        let piece = extent_at(pieces, pos, 0)->Some_0;
        lemma_extent_at(pieces, pos, 0);
        let i = choose|i: int| 0 <= i < pieces.len() && #[trigger] pieces[i] == piece;
        lemma_all_writable(volume, pieces, 0, i);
        assert(piece_refusal(volume, ino, pos, piece) is None);
        let within: int = pos - piece.start;
        let left: int = piece.len - within;
        let n: int = if left < len - done {
            left
        } else {
            len - done
        };
        lemma_plan_succeeds(
            volume,
            pieces,
            ino,
            offset,
            len,
            (done + n) as nat,
            before.push(((piece.logical->Some_0 + within) as u64, n as usize)),
        );
    }
}

/// A file that is reported writable takes every write whose range holds no
/// hole: no extent of it is refused, whatever part of it is written.
pub proof fn law_a_writable_file_takes_writes(
    fs: FilesystemModel,
    ino: u64,
    offset: u64,
    len: nat,
)
    requires
        writable_outcome(fs, ino) == Ok::<bool, ErrorView>(true),
        offset + len <= u64::MAX,
        forall|pos: u64|
            offset <= pos < offset + len ==> (#[trigger] extent_at(
                extents::extents_of(fs.items, ino, fs.volume.sb.sectorsize)->Ok_0,
                pos,
                0,
            )) is Some,
    ensures
        plan_outcome(fs, ino, offset, len) is Ok,
{
    let pieces = extents::extents_of(fs.items, ino, fs.volume.sb.sectorsize)->Ok_0;
    lemma_plan_succeeds(fs.volume, pieces, ino, offset, len, 0, Seq::empty());
}

/// The lengths of a plan, added up.
pub open spec fn plan_len(plan: Seq<(u64, usize)>) -> nat
    decreases plan.len(),
{
    if plan.len() == 0 {
        0
    } else {
        plan_len(plan.drop_last()) + plan.last().1 as nat
    }
}

/// Whether `len` bytes at `logical` lie inside an extent that one file alone
/// refers to.
pub open spec fn owned(volume: VolumeModel, logical: u64, len: usize) -> bool {
    exists|start: u64|
        (#[trigger] extent_record(volume, start)) matches Ok(record) && record.0 == 1 && start
            <= logical && logical + len <= start + record.1
}

proof fn lemma_plan(
    volume: VolumeModel,
    pieces: Seq<FileExtent>,
    ino: u64,
    offset: u64,
    len: nat,
    done: nat,
    before: Seq<(u64, usize)>,
)
    requires
        done <= len <= usize::MAX,
        offset + len <= u64::MAX,
        plan_len(before) == done,
        forall|i: int|
            0 <= i < before.len() ==> owned(volume, (#[trigger] before[i]).0, before[i].1),
    ensures
        plan_from(volume, pieces, ino, offset, len, done, before) matches Ok(plan) ==> plan_len(
            plan,
        ) == len && forall|i: int|
            0 <= i < plan.len() ==> owned(volume, (#[trigger] plan[i]).0, plan[i].1),
    decreases len - done,
{
    if done < len {
        let pos = (offset + done) as u64;
        if let Some(piece) = extent_at(pieces, pos, 0) {
            lemma_extent_at(pieces, pos, 0);
            if piece_refusal(volume, ino, pos, piece) is None {
                let within: int = pos - piece.start;
                let left: int = piece.len - within;
                let n: int = if left < len - done {
                    left
                } else {
                    len - done
                };
                let part = ((piece.logical->Some_0 + within) as u64, n as usize);
                let next = before.push(part);
                assert(next.drop_last() =~= before);
                assert(owned(volume, part.0, part.1)) by {
                    assert(extent_record(volume, piece.extent_start) is Ok);
                }
                lemma_plan(volume, pieces, ino, offset, len, (done + n) as nat, next);
            }
        }
    }
}

/// A plan accounts for every byte of the write, and every part of it lies
/// inside an extent the extent tree records with a single reference.
pub proof fn law_a_plan_stays_in_its_extents(
    fs: FilesystemModel,
    ino: u64,
    offset: u64,
    len: nat,
)
    requires
        len <= usize::MAX,
        offset + len <= u64::MAX,
    ensures
        plan_outcome(fs, ino, offset, len) matches Ok(plan) ==> plan_len(plan) == len && forall|
            i: int,
        |
            0 <= i < plan.len() ==> owned(fs.volume, (#[trigger] plan[i]).0, plan[i].1),
{
    if let Ok(pieces) = extents::extents_of(fs.items, ino, fs.volume.sb.sectorsize) {
        lemma_plan(fs.volume, pieces, ino, offset, len, 0, Seq::empty());
    }
}

/// The first extent that covers file offset `pos`.
fn find_extent(pieces: &[FileExtent], pos: u64) -> (r: Option<FileExtent>)
    ensures
        r == extent_at(pieces@, pos, 0),
        r matches Some(piece) ==> holds(piece, pos),
{
    let mut i: usize = 0;
    while i < pieces.len()
        invariant
            i <= pieces@.len(),
            extent_at(pieces@, pos, 0) == extent_at(pieces@, pos, i as int),
        decreases pieces@.len() - i,
    {
        let piece = pieces[i];
        if pos >= piece.start && pos - piece.start < piece.len {
            return Some(piece);
        }
        i = i + 1;
    }
    None
}

impl<R: Fn(usize, u64, usize) -> Result<Vec<u8>>> Filesystem<R> {
    /// What overwriting `data` at `offset` in a `nodatacow` file takes: the
    /// writes to every copy of every part, and a flush behind them. Performed
    /// in order, they write `data.len()` bytes.
    ///
    /// Every refusal comes before there is anything to perform, so a range
    /// that turns out to be unwritable partway through leaves the file
    /// untouched rather than half updated.
    pub fn write_at(&self, ino: u64, offset: u64, data: &[u8]) -> (r: Result<Vec<Action>>)
        requires
            self.ready(),
        ensures
            self.faithful() ==> device_write::actions_seen(r) == write_outcome(
                self@,
                ino,
                offset,
                data@,
            ),
            self@.writable is None ==> (r matches Err(e) && e@ == ErrorView::ReadOnly),
    {
        let size: u64 = match self.writable {
            Some(size) => size,
            None => return Err(Error::ReadOnly),
        };
        if data.len() == 0 {
            let none: Vec<Action> = Vec::new();
            assert(device_write::action_models(none@) =~= Seq::<ActionModel>::empty());
            return Ok(none);
        }
        let inode = match self.read_inode(ino) {
            Ok(inode) => inode,
            Err(e) => return Err(e),
        };
        if let Err(e) = check_inode(&inode, ino, offset, data.len()) {
            return Err(e);
        }
        // Resolve everything before writing anything.
        let plan = match self.plan_nodatacow_write(ino, offset, data.len()) {
            Ok(plan) => plan,
            Err(e) => return Err(e),
        };
        let mut out = match write_parts(size, &self.volume.map, plan.as_slice(), data) {
            Ok(out) => out,
            Err(e) => return Err(e),
        };
        let ghost writes = device_write::action_models(out@);
        out.push(Action::Flush);
        assert(device_write::action_models(out@) =~= writes.push(ActionModel::Flush));
        Ok(out)
    }

    /// Whether `ino` can be written in place at all.
    ///
    /// It applies the same conditions the write does, to the whole file
    /// rather than to one range. A file with no extents at all is reported
    /// writable, since there is nothing there that would have to be refused.
    pub fn can_write_in_place(&self, ino: u64) -> (r: Result<bool>)
        requires
            self.ready(),
        ensures
            self.faithful() ==> crate::error::seen(r) == writable_outcome(self@, ino),
    {
        let inode = match self.read_inode(ino) {
            Ok(inode) => inode,
            Err(e) => return Err(e),
        };
        if !inode.is_regular_file() {
            return Ok(false);
        }
        if inode.flags & (INODE_NODATACOW | INODE_NODATASUM) != (INODE_NODATACOW
            | INODE_NODATASUM) {
            return Ok(false);
        }
        let pieces = match self.file_extents(ino) {
            Ok(pieces) => pieces,
            Err(e) => return Err(e),
        };
        let mut i: usize = 0;
        while i < pieces.len()
            invariant
                self.ready(),
                i <= pieces@.len(),
                self.faithful() ==> writable_outcome(self@, ino) == all_writable(
                    self@.volume,
                    pieces@,
                    i as int,
                ),
            decreases pieces@.len() - i,
        {
            let piece = pieces[i];
            let logical: u64 = match piece.logical {
                Some(logical) => logical,
                None => return Ok(false),
            };
            if piece.compressed {
                return Ok(false);
            }
            let (refs, extent_len) = match self.extent_item(piece.extent_start) {
                Ok(record) => record,
                Err(e) => return Err(e),
            };
            if refs != 1 || !window_inside_extent(
                logical,
                piece.len,
                piece.extent_start,
                extent_len,
            ) {
                return Ok(false);
            }
            i = i + 1;
        }
        Ok(true)
    }

    /// Where each part of the write lands, as (logical address, length).
    ///
    /// Every refusal happens here, while the file is still untouched.
    fn plan_nodatacow_write(&self, ino: u64, offset: u64, len: usize) -> (r: Result<
        Vec<(u64, usize)>,
    >)
        requires
            self.ready(),
            offset + len <= u64::MAX,
        ensures
            self.faithful() ==> crate::error::viewed(r) == plan_outcome(
                self@,
                ino,
                offset,
                len as nat,
            ),
            r matches Ok(plan) ==> plan_len(plan@) == len,
    {
        let pieces = match self.file_extents(ino) {
            Ok(pieces) => pieces,
            Err(e) => return Err(e),
        };
        let mut plan: Vec<(u64, usize)> = Vec::new();
        assert(plan@ =~= Seq::<(u64, usize)>::empty());
        let mut done: usize = 0;
        while done < len
            invariant
                self.ready(),
                done <= len,
                offset + len <= u64::MAX,
                plan_len(plan@) == done,
                self.faithful() ==> plan_outcome(self@, ino, offset, len as nat) == plan_from(
                    self@.volume,
                    pieces@,
                    ino,
                    offset,
                    len as nat,
                    done as nat,
                    plan@,
                ),
            decreases len - done,
        {
            let pos: u64 = offset + done as u64;
            let piece = match find_extent(pieces.as_slice(), pos) {
                Some(piece) => piece,
                None => return Err(
                    Error::UnsupportedFeature(
                        cat5(
                            Lit("inode "),
                            Dec(ino),
                            Lit(": offset "),
                            Dec(pos),
                            Lit(" is a hole, and filling it would allocate"),
                        ),
                    ),
                ),
            };
            let logical: u64 = match self.check_piece(ino, pos, &piece) {
                Ok(logical) => logical,
                Err(e) => return Err(e),
            };
            let within: u64 = pos - piece.start;
            let left: u64 = piece.len - within;
            let n: usize = if left < (len - done) as u64 {
                left as usize
            } else {
                len - done
            };
            let ghost before = plan@;
            plan.push((logical + within, n));
            assert(plan@.drop_last() =~= before);
            done = done + n;
        }
        Ok(plan)
    }

    /// Where the extent that covers `pos` lies, if it may be overwritten.
    fn check_piece(&self, ino: u64, pos: u64, piece: &FileExtent) -> (r: Result<u64>)
        requires
            self.ready(),
        ensures
            self.faithful() ==> match r {
                Ok(_) => piece_refusal(self@.volume, ino, pos, *piece) is None,
                Err(e) => piece_refusal(self@.volume, ino, pos, *piece) == Some(e@),
            },
            r matches Ok(logical) ==> piece.logical == Some(logical) && logical + piece.len
                <= u64::MAX,
    {
        if piece.compressed {
            return Err(
                Error::UnsupportedFeature(
                    cat5(
                        Lit("inode "),
                        Dec(ino),
                        Lit(": offset "),
                        Dec(pos),
                        Lit(
                            " is in a compressed extent, which cannot be rewritten without recompressing the whole of it",
                        ),
                    ),
                ),
            );
        }
        let logical: u64 = match piece.logical {
            Some(logical) => logical,
            None => return Err(
                Error::UnsupportedFeature(
                    cat5(
                        Lit("inode "),
                        Dec(ino),
                        Lit(": offset "),
                        Dec(pos),
                        Lit(
                            " is inline or preallocated, so writing it changes the item rather than the blocks it points at",
                        ),
                    ),
                ),
            ),
        };
        // The check that `nodatacow` alone does not give.
        let (refs, extent_len) = match self.extent_item(piece.extent_start) {
            Ok(record) => record,
            Err(e) => return Err(e),
        };
        // Inside the extent, by the extent tree's record of it: nothing in
        // the file's own item can change that.
        if !window_inside_extent(logical, piece.len, piece.extent_start, extent_len) {
            return Err(
                Error::UnsupportedFeature(
                    cat12(
                        Lit("inode "),
                        Dec(ino),
                        Lit(": offset "),
                        Dec(pos),
                        Lit(" maps to ["),
                        Dec(logical),
                        Lit(", +"),
                        Dec(piece.len),
                        Lit("), outside the "),
                        Dec(extent_len),
                        Lit("-byte extent the extent tree records at "),
                        Dec(piece.extent_start),
                    ),
                ),
            );
        }
        if refs != 1 {
            return Err(
                Error::UnsupportedFeature(
                    cat7(
                        Lit("inode "),
                        Dec(ino),
                        Lit(": the extent at "),
                        Dec(piece.extent_start),
                        Lit(" has "),
                        Dec(refs),
                        Lit(
                            " references, so something else — most likely a snapshot — is still reading it",
                        ),
                    ),
                ),
            );
        }
        Ok(logical)
    }

    /// How many references the extent beginning at `bytenr` has, and how long
    /// the extent tree records it as.
    ///
    /// An extent with no item is not unreferenced: whether it is shared could
    /// not be established, and that is an error.
    fn extent_item(&self, bytenr: u64) -> (r: Result<(u64, u64)>)
        requires
            self.ready(),
        ensures
            self.faithful() ==> crate::error::seen(r) == extent_record(self@.volume, bytenr),
    {
        let root: u64 = match self.extent_tree_root() {
            Ok(root) => root,
            Err(e) => return Err(e),
        };
        let visit = |item: &LeafItem| -> (go: Result<bool>)
            ensures
                go == Ok::<bool, Error>(passes_extent(bytenr)(item@)),
            {
                Ok(
                    !(item.key.objectid == bytenr && item.key.key_type == key_type::EXTENT_ITEM
                        && item.data.len() >= EXTENT_REFS + 8),
                )
            };
        let r = self.volume.walk(root, &visit);
        let ghost s = self@.volume.walk(root);
        let ghost pass = passes_extent(bytenr);
        proof {
            if self.faithful() {
                btree::lemma_followed(s, &visit, r, pass);
                btree::lemma_seen(s.items, pass);
            }
        }
        let items = match r {
            Ok(items) => items,
            Err(e) => return Err(e),
        };
        proof {
            let seen = btree::models(items@);
            if self.faithful() && seen.len() > 0 {
                assert(seen[seen.len() - 1] == s.items[seen.len() - 1]);
                assert(seen[seen.len() - 1] == items@[items@.len() - 1]@);
            }
        }
        if items.len() > 0 {
            let last = &items[items.len() - 1];
            if last.key.objectid == bytenr && last.key.key_type == key_type::EXTENT_ITEM
                && last.data.len() >= EXTENT_REFS + 8 {
                return Ok((le64(last.data.as_slice(), EXTENT_REFS), last.key.offset));
            }
        }
        Err(
            Error::UnsupportedFeature(
                cat3(
                    Lit("the extent tree holds no item for the extent at "),
                    Dec(bytenr),
                    Lit(", so whether it is shared cannot be established"),
                ),
            ),
        )
    }

    /// The extent tree's root, named by the root tree.
    fn extent_tree_root(&self) -> (r: Result<u64>)
        requires
            self.ready(),
        ensures
            self.faithful() ==> crate::error::seen(r) == self@.volume.tree_root(
                objectid::EXTENT_TREE,
            ),
    {
        self.tree_root(objectid::EXTENT_TREE)
    }
}

/// The writes of every part of a plan.
fn write_parts(size: u64, map: &ChunkMap, plan: &[(u64, usize)], data: &[u8]) -> (r: Result<
    Vec<Action>,
>)
    requires
        chunk::divisible(map@),
        plan_len(plan@) == data@.len(),
    ensures
        device_write::actions_seen(r) == parts_written(
            map@,
            size,
            plan@,
            data@,
            0,
            0,
            Seq::empty(),
        ),
{
    let mut out: Vec<Action> = Vec::new();
    assert(device_write::action_models(out@) =~= Seq::<ActionModel>::empty());
    let mut done: usize = 0;
    let mut i: usize = 0;
    while i < plan.len()
        invariant
            chunk::divisible(map@),
            i <= plan@.len(),
            plan_len(plan@.take(i as int)) == done,
            plan_len(plan@) == data@.len(),
            parts_written(map@, size, plan@, data@, 0, 0, Seq::empty()) == parts_written(
                map@,
                size,
                plan@,
                data@,
                i as int,
                done as int,
                device_write::action_models(out@),
            ),
        decreases plan@.len() - i,
    {
        let (logical, len) = plan[i];
        proof {
            assert(plan@.take(i + 1).drop_last() =~= plan@.take(i as int));
            assert(plan@.take(i + 1).last() == plan@[i as int]);
            lemma_plan_len(plan@, i + 1);
        }
        assert(done + len <= data.len());
        let part = slice_subrange(data, done, done + len);
        let mut writes = match write_logical_all_mirrors(size, map, logical, part) {
            Ok(writes) => writes,
            Err(e) => return Err(e),
        };
        let ghost before = device_write::action_models(out@);
        let ghost added = device_write::action_models(writes@);
        out.append(&mut writes);
        assert(device_write::action_models(out@) =~= before + added);
        done = done + len;
        i = i + 1;
    }
    Ok(out)
}

proof fn lemma_plan_len(plan: Seq<(u64, usize)>, k: int)
    requires
        0 <= k <= plan.len(),
    ensures
        plan_len(plan.take(k)) <= plan_len(plan),
    decreases plan.len(),
{
    if k < plan.len() {
        assert(plan.drop_last().take(k) =~= plan.take(k));
        lemma_plan_len(plan.drop_last(), k);
    } else {
        assert(plan.take(k) =~= plan);
    }
}

/// Refuse an inode whose range cannot be overwritten, whatever its extents
/// are.
fn check_inode(inode: &Inode, ino: u64, offset: u64, len: usize) -> (r: Result<()>)
    ensures
        match r {
            Ok(()) => inode_refusal(*inode, ino, offset, len as nat) is None,
            Err(e) => inode_refusal(*inode, ino, offset, len as nat) == Some(e@),
        },
{
    if !inode.is_regular_file() {
        return Err(Error::NotAFile);
    }
    if inode.flags & INODE_NODATACOW == 0 {
        return Err(
            Error::UnsupportedFeature(
                cat3(
                    Lit("inode "),
                    Dec(ino),
                    Lit(
                        " is copy-on-write, so overwriting it in place would leave the extent tree, the checksum tree and the superblock generation describing something that is no longer there",
                    ),
                ),
            ),
        );
    }
    if inode.flags & INODE_NODATASUM == 0 {
        return Err(
            Error::UnsupportedFeature(
                cat3(
                    Lit("inode "),
                    Dec(ino),
                    Lit(
                        " is nodatacow but still checksummed, so writing it in place would leave every checksum item for it wrong",
                    ),
                ),
            ),
        );
    }
    let end: u64 = match offset.checked_add(len as u64) {
        Some(end) => end,
        None => return Err(Error::UnsupportedFeature("write range overflows".to_owned())),
    };
    if end > inode.size {
        return Err(
            Error::UnsupportedFeature(
                cat7(
                    Lit("inode "),
                    Dec(ino),
                    Lit(": writing to "),
                    Dec(end),
                    Lit(" would grow the file past its "),
                    Dec(inode.size),
                    Lit(" bytes, which allocates"),
                ),
            ),
        );
    }
    Ok(())
}

} // verus!
