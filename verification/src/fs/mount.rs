//! Opening a volume.

use std::sync::Arc;

use vstd::prelude::*;

use crate::btree;
use crate::btree::{ItemModel, LeafItem};
use crate::chunk;
use crate::chunk::{Chunk, ChunkMap, ChunkModel};
use crate::device;
use crate::device::{index_of, Disk};
use crate::error::{Error, ErrorView, Result};
use crate::fs::{Filesystem, FilesystemModel, FS_TREE_OBJECTID};
use crate::item_map;
use crate::item_map::ItemMap;
use crate::superblock;
use crate::superblock::{Superblock, SuperblockModel, SUPER_INFO_OFFSET, SUPER_INFO_SIZE};
use crate::text;
use crate::text::Part::{Dec, Lit};
use crate::text::{cat2, cat7};
use crate::volume;
use crate::volume::{Volume, VolumeModel};

verus! {

/// What `read` is taken to answer, where it answers every request in one way.
pub open spec fn disk_of<R: Fn(usize, u64, usize) -> Result<Vec<u8>>>(read: &R) -> Disk {
    choose|disk: Disk| #[trigger] device::tells(read, disk)
}

/// The superblock at its first offset on a device.
pub open spec fn superblock_on(disk: Disk, device: int) -> std::result::Result<
    SuperblockModel,
    ErrorView,
> {
    match disk(device as usize, SUPER_INFO_OFFSET, SUPER_INFO_SIZE) {
        Err(e) => Err(e),
        Ok(b) => superblock::parse_at_outcome(b, superblock::intact(b), SUPER_INFO_OFFSET),
    }
}

/// The ids of the devices `i .. count`, added to those in `ids`: each must
/// belong to the filesystem `fsid` and no id may occur twice.
pub open spec fn enlisted(
    disk: Disk,
    count: int,
    i: int,
    fsid: Option<Seq<u8>>,
    ids: Seq<u64>,
) -> std::result::Result<Seq<u64>, ErrorView>
    decreases count - i,
{
    if i >= count {
        Ok(ids)
    } else {
        match superblock_on(disk, i) {
            Err(e) => Err(e),
            Ok(sb) => if fsid is Some && fsid->Some_0 != sb.fsid {
                Err(
                    ErrorView::UnsupportedFeature("these devices belong to different filesystems"@),
                )
            } else if device::index_from(ids, sb.dev_item.devid, 0) is Some {
                Err(
                    ErrorView::UnsupportedFeature(
                        "two devices both claim to be device "@ + text::dec(
                            sb.dev_item.devid as nat,
                        ),
                    ),
                )
            } else {
                enlisted(disk, count, i + 1, Some(sb.fsid), ids.push(sb.dev_item.devid))
            },
        }
    }
}

/// The position of the device with the lowest id.
pub open spec fn lowest(ids: Seq<u64>) -> int
    decreases ids.len(),
{
    if ids.len() <= 1 {
        0
    } else {
        let before = lowest(ids.drop_last());
        if ids.last() < ids[before] {
            ids.len() - 1
        } else {
            before
        }
    }
}

/// Why a superblock cannot be mounted with the devices given.
pub open spec fn mount_refusal(sb: SuperblockModel, given: nat) -> Option<ErrorView> {
    if sb.num_devices > 1 && given != sb.num_devices {
        Some(
            ErrorView::UnsupportedFeature(
                "this filesystem spans "@ + text::dec(sb.num_devices as nat) + " devices and "@
                    + text::dec(given) + " "@ + (if given == 1 {
                    "was"@
                } else {
                    "were"@
                })
                    + " given; reading one of them alone would return the wrong data rather than fail. Open it with `mount_pool`, giving every device."@,
            ),
        )
    } else if sb.log_root != 0 {
        Some(ErrorView::DirtyLog)
    } else {
        None
    }
}

/// `map` with one item of the chunk tree folded in. An item that is no chunk
/// is passed over, and so is a chunk the map already holds; one that covers
/// the same addresses with different contents is an inconsistency.
pub open spec fn chunk_folded(map: Seq<ChunkModel>, item: ItemModel) -> std::result::Result<
    Seq<ChunkModel>,
    ErrorView,
> {
    match chunk::chunk_outcome(item.key.offset, item.data) {
        Err(_) => Ok(map),
        Ok(c) => if chunk::chunk_at(map, c.logical) == Some(c) {
            Ok(map)
        } else {
            chunk::inserted(map, c)
        },
    }
}

/// `map` with the items `from ..` of the chunk tree folded in.
pub open spec fn chunks_folded(map: Seq<ChunkModel>, items: Seq<ItemModel>, from: int) -> std::result::Result<
    Seq<ChunkModel>,
    ErrorView,
>
    decreases items.len() - from,
{
    if from < 0 || from >= items.len() {
        Ok(map)
    } else {
        match chunk_folded(map, items[from]) {
            Err(e) => Err(e),
            Ok(next) => chunks_folded(next, items, from + 1),
        }
    }
}

/// The complete address map of a volume, reached through the chunks its
/// superblock embeds.
pub open spec fn full_map(disk: Disk, ids: Seq<u64>, sb: SuperblockModel) -> std::result::Result<
    Seq<ChunkModel>,
    ErrorView,
> {
    match chunk::sys_chunks(sb.sys_chunk_array, sb.sectorsize, 0, Seq::empty()) {
        Err(e) => Err(e),
        Ok(boot) => match volume::whole(
            (VolumeModel { disk, ids, sb, map: boot }).walk(sb.chunk_root),
        ) {
            Err(e) => Err(e),
            Ok(items) => chunks_folded(boot, items, 0),
        },
    }
}

/// The handle over `volume` that reads the tree rooted at `root`.
pub open spec fn rooted(volume: VolumeModel, root: u64, writable: Option<u64>) -> std::result::Result<
    FilesystemModel,
    ErrorView,
> {
    match volume::whole(volume.walk(root)) {
        Err(e) => Err(e),
        Ok(items) => Ok(
            FilesystemModel { volume, writable, fs_tree_root: root, items: item_map::loaded(items) },
        ),
    }
}

/// What opening the devices `ids` gives; `ids` is empty for a single device.
pub open spec fn mounted(disk: Disk, ids: Seq<u64>, writable: Option<u64>) -> std::result::Result<
    FilesystemModel,
    ErrorView,
> {
    match superblock_on(disk, lowest(ids)) {
        Err(e) => Err(e),
        Ok(sb) => match mount_refusal(sb, ids.len()) {
            Some(e) => Err(e),
            None => match full_map(disk, ids, sb) {
                Err(e) => Err(e),
                Ok(map) => {
                    let volume = VolumeModel { disk, ids, sb, map };
                    match volume.tree_root(FS_TREE_OBJECTID) {
                        Err(e) => Err(e),
                        Ok(root) => rooted(volume, root, writable),
                    }
                },
            },
        },
    }
}

/// What opening the first `count` devices as one pool gives.
pub open spec fn pool_mounted(disk: Disk, count: int) -> std::result::Result<
    FilesystemModel,
    ErrorView,
> {
    if count == 0 {
        Err(ErrorView::UnsupportedFeature("a pool needs at least one device"@))
    } else {
        match enlisted(disk, count, 0, None, Seq::empty()) {
            Err(e) => Err(e),
            Ok(ids) => mounted(disk, ids, None),
        }
    }
}

/// A mounted volume has no changes waiting in its log, and every device it
/// says it spans was given.
pub proof fn law_mounted_volume_is_whole(disk: Disk, ids: Seq<u64>, writable: Option<u64>)
    ensures
        mounted(disk, ids, writable) matches Ok(fs) ==> {
            &&& fs.volume.sb.log_root == 0
            &&& fs.volume.sb.num_devices > 1 ==> ids.len() == fs.volume.sb.num_devices
            &&& fs.volume.ids == ids
            &&& fs.writable == writable
        },
{
}

/// The position of the device with the lowest id.
fn lowest_id(ids: &[u64]) -> (at: usize)
    ensures
        at == lowest(ids@),
        ids@.len() > 0 ==> at < ids@.len(),
{
    let mut at: usize = 0;
    let mut i: usize = 1;
    if ids.len() > 0 {
        assert(ids@.take(1).len() == 1);
    }
    while i < ids.len()
        invariant
            1 <= i,
            ids@.len() > 0 ==> i <= ids@.len(),
            ids@.len() > 0 ==> at == lowest(ids@.take(i as int)),
            ids@.len() > 0 ==> at < i,
            ids@.len() == 0 ==> at == 0,
        decreases ids@.len() - i,
    {
        assert(ids@.take(i + 1).drop_last() =~= ids@.take(i as int));
        if ids[i] < ids[at] {
            at = i;
        }
        i = i + 1;
    }
    if ids.len() > 0 {
        assert(ids@.take(ids@.len() as int) =~= ids@);
    }
    at
}

/// Read and parse the superblock of a device.
pub(crate) fn read_superblock<R: Fn(usize, u64, usize) -> Result<Vec<u8>>>(
    read: &R,
    device: usize,
    Ghost(disk): Ghost<Disk>,
) -> (r: Result<Superblock>)
    requires
        device::reads(read),
    ensures
        device::tells(read, disk) ==> crate::error::viewed(r) == superblock_on(
            disk,
            device as int,
        ),
        r matches Ok(sb) ==> sb@.geometry_holds(),
{
    match read(device, SUPER_INFO_OFFSET, SUPER_INFO_SIZE) {
        Ok(buf) => {
            proof {
                superblock::law_parsed_superblock_is_well_formed(
                    buf@,
                    superblock::intact(buf@),
                );
            }
            Superblock::parse_at(buf.as_slice(), SUPER_INFO_OFFSET)
        },
        Err(e) => Err(e),
    }
}

/// Refuse a superblock that cannot be mounted with the devices given.
fn check_mountable(sb: &Superblock, given: usize) -> (r: Result<()>)
    ensures
        match r {
            Ok(()) => mount_refusal(sb@, given as nat) is None,
            Err(e) => mount_refusal(sb@, given as nat) == Some(e@),
        },
{
    // A chunk stripe names the device it lives on, and with a device missing
    // there is nothing to do about a stripe naming it except refuse.
    if sb.num_devices > 1 && given as u64 != sb.num_devices {
        return Err(
            Error::UnsupportedFeature(
                cat7(
                    Lit("this filesystem spans "),
                    Dec(sb.num_devices),
                    Lit(" devices and "),
                    Dec(given as u64),
                    Lit(" "),
                    Lit(
                        if given == 1 {
                            "was"
                        } else {
                            "were"
                        },
                    ),
                    Lit(
                        " given; reading one of them alone would return the wrong data rather than fail. Open it with `mount_pool`, giving every device.",
                    ),
                ),
            ),
        );
    }
    if sb.log_root != 0 {
        return Err(Error::DirtyLog);
    }
    Ok(())
}

/// Fold the items of the chunk tree into the map.
fn fold_chunks(map: &mut ChunkMap, items: &[LeafItem]) -> (r: Result<()>)
    requires
        chunk::ordered(old(map)@),
        chunk::divisible(old(map)@),
    ensures
        chunk::ordered(final(map)@),
        chunk::divisible(final(map)@),
        match r {
            Ok(()) => chunks_folded(old(map)@, btree::models(items@), 0) == Ok::<
                Seq<ChunkModel>,
                ErrorView,
            >(final(map)@),
            Err(e) => chunks_folded(old(map)@, btree::models(items@), 0) == Err::<
                Seq<ChunkModel>,
                ErrorView,
            >(e@),
        },
{
    let ghost start = map@;
    let ghost all = btree::models(items@);
    let mut i: usize = 0;
    while i < items.len()
        invariant
            i <= items@.len(),
            start == old(map)@,
            all == btree::models(items@),
            chunk::ordered(map@),
            chunk::divisible(map@),
            chunks_folded(start, all, 0) == chunks_folded(map@, all, i as int),
        decreases items@.len() - i,
    {
        let item = &items[i];
        assert(all[i as int] == item@);
        if let Ok(c) = Chunk::parse(item.key.offset, item.data.as_slice()) {
            let held = match map.chunk_for(c.logical) {
                Some(existing) => existing.same_as(&c),
                None => false,
            };
            if !held {
                if let Err(e) = map.insert(c) {
                    return Err(e);
                }
            }
        }
        i = i + 1;
    }
    Ok(())
}

impl<R: Fn(usize, u64, usize) -> Result<Vec<u8>>> Filesystem<R> {
    /// Open a single device, read as device 0.
    pub fn mount(read: R) -> (r: Result<Self>)
        requires
            device::reads(&read),
        ensures
            (exists|disk: Disk| #[trigger] device::tells(&read, disk)) ==> crate::error::viewed(r)
                == mounted(disk_of(&read), Seq::empty(), None),
            r matches Ok(fs) ==> fs.ready() && fs.volume.read == read && fs@.volume.disk == disk_of(
                &read,
            ),
    {
        let none: Vec<u64> = Vec::new();
        assert(none@ =~= Seq::<u64>::empty());
        let ghost disk = disk_of(&read);
        Self::open_pool(read, none, None, Ghost(disk))
    }

    /// Open a single device for reading and writing.
    ///
    /// Writing is opt-in rather than inferred: `can_write` says whether the
    /// device takes writes, and `size` is its length in bytes.
    pub fn mount_rw(read: R, can_write: bool, size: u64) -> (r: Result<Self>)
        requires
            device::reads(&read),
        ensures
            !can_write ==> (r matches Err(e) && e@ == ErrorView::ReadOnly),
            can_write && (exists|disk: Disk| #[trigger] device::tells(&read, disk))
                ==> crate::error::viewed(r) == mounted(disk_of(&read), Seq::empty(), Some(size)),
            r matches Ok(fs) ==> fs.ready() && fs.volume.read == read && fs@.volume.disk == disk_of(
                &read,
            ) && fs@.writable == Some(size),
    {
        if !can_write {
            return Err(Error::ReadOnly);
        }
        let none: Vec<u64> = Vec::new();
        assert(none@ =~= Seq::<u64>::empty());
        let ghost disk = disk_of(&read);
        Self::open_pool(read, none, Some(size), Ghost(disk))
    }

    /// Open a filesystem that spans several devices, read as devices
    /// `0 .. count`.
    ///
    /// Every device of the pool must be given. They are identified by the
    /// `devid` in each one's own superblock, not by their order.
    pub fn mount_pool(read: R, count: usize) -> (r: Result<Self>)
        requires
            device::reads(&read),
        ensures
            (exists|disk: Disk| #[trigger] device::tells(&read, disk)) ==> crate::error::viewed(r)
                == pool_mounted(disk_of(&read), count as int),
            r matches Ok(fs) ==> fs.ready() && fs.volume.read == read && fs@.volume.disk == disk_of(
                &read,
            ),
    {
        let ghost disk = disk_of(&read);
        if count == 0 {
            return Err(Error::UnsupportedFeature("a pool needs at least one device".to_owned()));
        }
        let ids = match Self::enlist(&read, count, Ghost(disk)) {
            Ok(ids) => ids,
            Err(e) => return Err(e),
        };
        Self::open_pool(read, ids, None, Ghost(disk))
    }

    /// The ids of the devices `0 .. count`, which must belong to one
    /// filesystem and be all different.
    fn enlist(read: &R, count: usize, Ghost(disk): Ghost<Disk>) -> (r: Result<Vec<u64>>)
        requires
            device::reads(read),
        ensures
            device::tells(read, disk) ==> crate::error::viewed(r) == enlisted(
                disk,
                count as int,
                0,
                None,
                Seq::empty(),
            ),
    {
        let mut ids: Vec<u64> = Vec::new();
        let mut fsid: Option<[u8; 16]> = None;
        let mut i: usize = 0;
        assert(ids@ =~= Seq::<u64>::empty());
        while i < count
            invariant
                i <= count,
                device::reads(read),
                device::tells(read, disk) ==> enlisted(
                    disk,
                    count as int,
                    0,
                    None,
                    Seq::empty(),
                ) == enlisted(
                    disk,
                    count as int,
                    i as int,
                    match fsid {
                        Some(f) => Some(f@),
                        None => None,
                    },
                    ids@,
                ),
            decreases count - i,
        {
            let sb = match read_superblock(read, i, Ghost(disk)) {
                Ok(sb) => sb,
                Err(e) => return Err(e),
            };
            if let Some(seen) = fsid {
                if !crate::bytes::same_bytes(seen.as_slice(), sb.fsid.as_slice()) {
                    return Err(
                        Error::UnsupportedFeature(
                            "these devices belong to different filesystems".to_owned(),
                        ),
                    );
                }
            }
            let id: u64 = sb.dev_item.devid;
            if index_of(ids.as_slice(), id).is_some() {
                return Err(
                    Error::UnsupportedFeature(
                        cat2(Lit("two devices both claim to be device "), Dec(id)),
                    ),
                );
            }
            fsid = Some(sb.fsid);
            ids.push(id);
            i = i + 1;
        }
        Ok(ids)
    }

    /// Open the volume through the device with the lowest id, reaching the
    /// rest by their ids.
    fn open_pool(read: R, ids: Vec<u64>, writable: Option<u64>, Ghost(disk): Ghost<Disk>) -> (r:
        Result<Self>)
        requires
            device::reads(&read),
        ensures
            device::tells(&read, disk) ==> crate::error::viewed(r) == mounted(
                disk,
                ids@,
                writable,
            ),
            r matches Ok(fs) ==> fs.ready() && fs.volume.read == read && fs@.volume.disk == disk
                && fs@.writable == writable,
    {
        let first: usize = lowest_id(ids.as_slice());
        let sb = match read_superblock(&read, first, Ghost(disk)) {
            Ok(sb) => sb,
            Err(e) => return Err(e),
        };
        if let Err(e) = check_mountable(&sb, ids.len()) {
            return Err(e);
        }
        // The bootstrap map, enough to reach the chunk tree.
        let boot = match ChunkMap::bootstrap(&sb) {
            Ok(map) => map,
            Err(e) => return Err(e),
        };
        // Walk the chunk tree through it and fold in every chunk.
        let chunk_root: u64 = sb.chunk_root;
        let boot_volume = Volume { read, ids, sb, map: boot, disk: Ghost(disk) };
        let found = match boot_volume.items(chunk_root) {
            Ok(found) => found,
            Err(e) => return Err(e),
        };
        let Volume { read, ids, sb, map, disk: _ } = boot_volume;
        let mut map = map;
        if let Err(e) = fold_chunks(&mut map, found.as_slice()) {
            return Err(e);
        }
        let volume = Volume { read, ids, sb, map, disk: Ghost(disk) };
        // The root tree names the fs tree.
        let root: u64 = match volume.tree_root(FS_TREE_OBJECTID) {
            Ok(root) => root,
            Err(e) => return Err(e),
        };
        Self::at_root(Arc::new(volume), root, writable)
    }

    /// A handle over `volume` that reads the tree rooted at `root`.
    fn at_root(volume: Arc<Volume<R>>, root: u64, writable: Option<u64>) -> (r: Result<Self>)
        requires
            volume.ready(),
        ensures
            volume.faithful() ==> crate::error::viewed(r) == rooted(volume@, root, writable),
            r matches Ok(fs) ==> fs.ready() && fs.volume == volume && fs@.writable == writable
                && fs@.fs_tree_root == root,
    {
        let items = match volume.items(root) {
            Ok(items) => items,
            Err(e) => return Err(e),
        };
        Ok(Filesystem { volume, writable, fs_tree_root: root, items: ItemMap::load(items) })
    }

    /// A handle over the same volume, reading a different tree.
    ///
    /// The device, superblock and chunk map are shared; only the root and the
    /// items loaded from it differ. The write capability is not carried
    /// across.
    pub fn reroot(&self, fs_tree_root: u64) -> (r: Result<Self>)
        requires
            self.ready(),
        ensures
            self.faithful() ==> crate::error::viewed(r) == rooted(
                self@.volume,
                fs_tree_root,
                None,
            ),
            r matches Ok(fs) ==> fs.ready() && fs.volume == self.volume && fs@.writable is None
                && fs@.fs_tree_root == fs_tree_root,
    {
        Self::at_root(self.volume.clone(), fs_tree_root, None)
    }
}

} // verus!
