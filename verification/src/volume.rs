//! A volume: its devices, its superblock and its address map.
//!
//! These describe the volume rather than any one tree in it. Every tree is
//! reached from here, the root tree through the superblock and the others
//! through the `ROOT_ITEM`s the root tree holds.

use vstd::prelude::*;

use crate::btree;
use crate::btree::{GeometryModel, Image, LeafItem, Stream, Tree, TreeBlock, TreeGeometry};
use crate::bytes;
use crate::bytes::le64;
use crate::chunk;
use crate::chunk::{ChunkMap, ChunkModel};
use crate::csum;
use crate::csum::{digests_for_range, SectorDigests, CSUM_TREE_OBJECTID};
use crate::device;
use crate::device::{read_logical_pool, Disk};
use crate::error::{Error, ErrorView, Result};
use crate::fs::{root_item, ROOT_ITEM_KEY};
use crate::superblock::{Superblock, SuperblockModel};
use crate::text;
use crate::text::cat2;
use crate::text::Part::{Dec, Lit};

verus! {

/// A volume, and the reader that reaches its devices.
pub struct Volume<R> {
    /// Reads a device: its position among those opened, an offset, a length.
    pub read: R,
    /// The device ids of a pool, in the order of the devices' positions.
    /// Empty for a volume on one device, where a mapping's `devid` cannot be
    /// anything else.
    pub ids: Vec<u64>,
    /// The superblock.
    pub sb: Superblock,
    /// How logical addresses become physical ones.
    pub map: ChunkMap,
    /// What the reader is taken to answer.
    pub disk: Ghost<Disk>,
}

/// What a [`Volume`] holds.
pub struct VolumeModel {
    pub disk: Disk,
    pub ids: Seq<u64>,
    pub sb: SuperblockModel,
    pub map: Seq<ChunkModel>,
}

impl VolumeModel {
    /// What lies at each logical address, a tree block at a time.
    pub open spec fn image(self) -> Image {
        device::pool_image(self.disk, self.ids, self.map, self.sb.nodesize)
    }

    /// What its tree blocks are validated against.
    pub open spec fn geometry(self) -> GeometryModel {
        btree::geometry_of(self.sb)
    }

    /// The `len` bytes at the logical address `logical`.
    pub open spec fn bytes_at(self, logical: u64, len: nat) -> std::result::Result<
        Seq<u8>,
        ErrorView,
    > {
        device::pooled(self.disk, self.ids, self.map, logical, len)
    }

    /// The walk of the tree rooted at `root`.
    pub open spec fn walk(self, root: u64) -> Stream {
        btree::walk_from(self.image(), self.geometry(), root, None, 0)
    }

    /// The tree block at `logical`.
    #[verifier::opaque]
    pub open spec fn block(self, logical: u64) -> std::result::Result<Seq<u8>, ErrorView> {
        btree::block_at(self.image(), self.geometry(), logical)
    }

    /// The root block of tree `objectid`.
    pub open spec fn tree_root(self, objectid: u64) -> std::result::Result<u64, ErrorView> {
        root_target(self.walk(self.sb.root), objectid)
    }

    /// The root block of tree `objectid`, if the volume has such a tree.
    pub open spec fn root_if_any(self, objectid: u64) -> std::result::Result<
        Option<u64>,
        ErrorView,
    > {
        root_found(self.walk(self.sb.root), objectid)
    }

    /// Every digest the checksum tree holds for the sectors in
    /// `start .. start + len`. A volume without that tree has none.
    pub open spec fn digests(self, start: u64, len: u64) -> std::result::Result<
        Map<u64, Seq<u8>>,
        ErrorView,
    > {
        match self.root_if_any(CSUM_TREE_OBJECTID) {
            Err(e) => Err(e),
            Ok(None) => Ok(Map::empty()),
            Ok(Some(root)) => csum::digests_outcome(
                self.image(),
                self.geometry(),
                root,
                self.sb.csum_type.width() as usize,
                self.sb.sectorsize as u64,
                start,
                len,
            ),
        }
    }
}

impl<R> View for Volume<R> {
    type V = VolumeModel;

    open spec fn view(&self) -> VolumeModel {
        VolumeModel { disk: self.disk@, ids: self.ids@, sb: self.sb@, map: self.map@ }
    }
}

/// Everything a walk comes across, or the fault that ends it.
pub open spec fn whole(s: Stream) -> std::result::Result<Seq<btree::ItemModel>, ErrorView> {
    match s.fault {
        Some(e) => Err(e),
        None => Ok(s.items),
    }
}

/// Whether an item is a `ROOT_ITEM` for `objectid` that is long enough to
/// hold a root address.
pub open spec fn names_root(objectid: u64) -> spec_fn(btree::ItemModel) -> bool {
    |i: btree::ItemModel|
        i.key.objectid == objectid && i.key.key_type == ROOT_ITEM_KEY && i.data.len()
            >= root_item::BYTENR + 8
}

/// Whether an item is anything but a usable `ROOT_ITEM` for `objectid`.
pub open spec fn passes_root(objectid: u64) -> spec_fn(btree::ItemModel) -> bool {
    |i: btree::ItemModel| !names_root(objectid)(i)
}

/// The root block address a walk of the root tree records for `objectid`, if
/// it records one: the first usable `ROOT_ITEM` answers, whatever lies behind
/// it.
pub open spec fn root_found(s: Stream, objectid: u64) -> std::result::Result<
    Option<u64>,
    ErrorView,
> {
    let pass = passes_root(objectid);
    if btree::stopped(s.items, pass) {
        Ok(
            Some(
                bytes::u64_at(
                    s.items[btree::seen_count(s.items, pass) - 1].data,
                    root_item::BYTENR as int,
                ),
            ),
        )
    } else {
        match s.fault {
            Some(e) => Err(e),
            None => Ok(None),
        }
    }
}

/// The root block address a walk of the root tree records for `objectid`.
pub open spec fn root_target(s: Stream, objectid: u64) -> std::result::Result<u64, ErrorView> {
    match root_found(s, objectid) {
        Err(e) => Err(e),
        Ok(Some(root)) => Ok(root),
        Ok(None) => Err(
            ErrorView::BadSuperblock(
                "the root tree holds no ROOT_ITEM for tree "@ + text::dec(objectid as nat),
            ),
        ),
    }
}

/// The root block address the root tree records for `objectid`.
///
/// Where there is none, the error is how a caller learns that an optional tree
/// is absent.
pub fn root_item_target<F: Fn(u64, usize) -> Result<Vec<u8>>>(
    tree: &Tree<'_, F>,
    root_tree: u64,
    objectid: u64,
) -> (r: Result<u64>)
    requires
        tree.readable(),
    ensures
        tree.faithful() ==> crate::error::seen(r) == root_target(
            btree::walk_from(tree.image@, tree.geom@, root_tree, None, 0),
            objectid,
        ),
{
    match find_root_item(tree, root_tree, objectid) {
        Err(e) => Err(e),
        Ok(Some(root)) => Ok(root),
        Ok(None) => Err(
            Error::BadSuperblock(
                cat2(Lit("the root tree holds no ROOT_ITEM for tree "), Dec(objectid)),
            ),
        ),
    }
}

/// The root block address the root tree records for `objectid`, if it records
/// one.
///
/// The bound on an item is the bytes actually read, and the first match is
/// the answer: a tree has one `ROOT_ITEM` per objectid.
fn find_root_item<F: Fn(u64, usize) -> Result<Vec<u8>>>(
    tree: &Tree<'_, F>,
    root_tree: u64,
    objectid: u64,
) -> (r: Result<Option<u64>>)
    requires
        tree.readable(),
    ensures
        tree.faithful() ==> crate::error::seen(r) == root_found(
            btree::walk_from(tree.image@, tree.geom@, root_tree, None, 0),
            objectid,
        ),
{
    let visit = |item: &LeafItem| -> (go: Result<bool>)
        ensures
            go == Ok::<bool, Error>(passes_root(objectid)(item@)),
        {
            Ok(
                !(item.key.objectid == objectid && item.key.key_type == ROOT_ITEM_KEY
                    && item.data.len() >= root_item::BYTENR + 8),
            )
        };
    let r = tree.for_each(root_tree, &visit);
    let ghost s = btree::walk_from(tree.image@, tree.geom@, root_tree, None, 0);
    let ghost pass = passes_root(objectid);
    proof {
        if tree.faithful() {
            btree::lemma_followed(s, &visit, r, pass);
            btree::lemma_seen(s.items, pass);
        }
    }
    let items = match r {
        Ok(items) => items,
        Err(e) => return Err(e),
    };
    proof {
        if tree.faithful() {
            let seen = btree::models(items@);
            if seen.len() > 0 {
                assert(seen[seen.len() - 1] == s.items[seen.len() - 1]);
                assert(seen[seen.len() - 1] == items@[items@.len() - 1]@);
            }
        }
    }
    if items.len() > 0 {
        let last = &items[items.len() - 1];
        if last.key.objectid == objectid && last.key.key_type == ROOT_ITEM_KEY && last.data.len()
            >= root_item::BYTENR + 8 {
            return Ok(Some(le64(last.data.as_slice(), root_item::BYTENR)));
        }
    }
    Ok(None)
}

impl<R: Fn(usize, u64, usize) -> Result<Vec<u8>>> Volume<R> {
    /// Whether the volume can be read: its reader answers anything, its
    /// superblock is well-formed and its map translates.
    pub open spec fn ready(&self) -> bool {
        &&& device::reads(&self.read)
        &&& self.sb@.geometry_holds()
        &&& chunk::ordered(self.map@)
        &&& chunk::divisible(self.map@)
    }

    /// Whether the reader answers every request the one way
    /// [`Volume::disk`] says.
    pub open spec fn faithful(&self) -> bool {
        device::tells(&self.read, self.disk@)
    }

    /// Read `len` bytes at a logical address.
    pub fn read_bytes(&self, logical: u64, len: usize) -> (r: Result<Vec<u8>>)
        requires
            self.ready(),
        ensures
            self.faithful() ==> crate::error::viewed(r) == self@.bytes_at(logical, len as nat),
            r matches Ok(b) ==> b@.len() == len,
    {
        read_logical_pool(
            &self.read,
            self.ids.as_slice(),
            &self.map,
            logical,
            len,
            Ghost(self.disk@),
        )
    }

    /// Read, verify and parse the tree block at `logical`.
    pub fn read_tree_block(&self, logical: u64) -> (r: Result<TreeBlock>)
        requires
            self.ready(),
        ensures
            self.faithful() ==> crate::error::viewed(r) == self@.block(logical),
            r matches Ok(block) ==> {
                &&& block.decoded()
                &&& btree::block_error(
                    block@,
                    logical,
                    self@.geometry(),
                    btree::block_intact(block@, self@.geometry()),
                ) is None
            },
    {
        let read = |at: u64, len: usize| -> (r: Result<Vec<u8>>)
            ensures
                self.faithful() ==> crate::error::viewed(r) == self@.bytes_at(at, len as nat),
            { self.read_bytes(at, len) };
        let tree = Tree::over(
            TreeGeometry::from_superblock(&self.sb),
            &read,
            Ghost(self@.image()),
        );
        reveal(VolumeModel::block);
        tree.read_block(logical)
    }

    /// Visit the items of the tree rooted at `root`, in key order.
    pub fn walk<V: Fn(&LeafItem) -> Result<bool>>(&self, root: u64, visit: &V) -> (r: Result<
        Vec<LeafItem>,
    >)
        requires
            self.ready(),
            forall|item: &LeafItem| #[trigger] call_requires(visit, (item,)),
        ensures
            self.faithful() ==> btree::followed(self@.walk(root), visit, r),
    {
        let read = |at: u64, len: usize| -> (r: Result<Vec<u8>>)
            ensures
                self.faithful() ==> crate::error::viewed(r) == self@.bytes_at(at, len as nat),
            { self.read_bytes(at, len) };
        let tree = Tree::over(
            TreeGeometry::from_superblock(&self.sb),
            &read,
            Ghost(self@.image()),
        );
        tree.for_each(root, visit)
    }

    /// Every item of the tree rooted at `root`, in key order.
    pub fn items(&self, root: u64) -> (r: Result<Vec<LeafItem>>)
        requires
            self.ready(),
        ensures
            self.faithful() ==> btree::listed(r) == whole(self@.walk(root)),
    {
        let visit = |item: &LeafItem| -> (go: Result<bool>)
            ensures
                go == Ok::<bool, Error>(true),
            { Ok(true) };
        let r = self.walk(root, &visit);
        proof {
            if self.faithful() {
                let all = |i: btree::ItemModel| true;
                btree::lemma_followed(self@.walk(root), &visit, r, all);
            }
        }
        r
    }

    /// Every digest the checksum tree holds for the sectors in
    /// `start .. start + len`. A volume without that tree has none.
    pub fn digests(&self, start: u64, len: u64) -> (r: Result<SectorDigests>)
        requires
            self.ready(),
        ensures
            self.faithful() ==> match r {
                Ok(m) => self@.digests(start, len) == Ok::<Map<u64, Seq<u8>>, ErrorView>(
                    csum::digest_models(m@),
                ),
                Err(e) => self@.digests(start, len) == Err::<Map<u64, Seq<u8>>, ErrorView>(e@),
            },
    {
        let read = |at: u64, len: usize| -> (r: Result<Vec<u8>>)
            ensures
                self.faithful() ==> crate::error::viewed(r) == self@.bytes_at(at, len as nat),
            { self.read_bytes(at, len) };
        let tree = Tree::over(
            TreeGeometry::from_superblock(&self.sb),
            &read,
            Ghost(self@.image()),
        );
        match find_root_item(&tree, self.sb.root, CSUM_TREE_OBJECTID) {
            Err(e) => Err(e),
            Ok(None) => {
                let none = SectorDigests::new();
                assert(csum::digest_models(none@) =~= Map::<u64, Seq<u8>>::empty());
                Ok(none)
            },
            Ok(Some(root)) => digests_for_range(
                &tree,
                root,
                self.sb.csum_type.digest_len(),
                self.sb.sectorsize as u64,
                start,
                len,
            ),
        }
    }

    /// The root block of tree `objectid`, if the volume has such a tree. That
    /// the root tree names none is an answer; that it cannot be read is not.
    pub fn root_if_any(&self, objectid: u64) -> (r: Result<Option<u64>>)
        requires
            self.ready(),
        ensures
            self.faithful() ==> crate::error::seen(r) == self@.root_if_any(objectid),
    {
        let read = |at: u64, len: usize| -> (r: Result<Vec<u8>>)
            ensures
                self.faithful() ==> crate::error::viewed(r) == self@.bytes_at(at, len as nat),
            { self.read_bytes(at, len) };
        let tree = Tree::over(
            TreeGeometry::from_superblock(&self.sb),
            &read,
            Ghost(self@.image()),
        );
        find_root_item(&tree, self.sb.root, objectid)
    }

    /// The root block of tree `objectid`.
    pub fn tree_root(&self, objectid: u64) -> (r: Result<u64>)
        requires
            self.ready(),
        ensures
            self.faithful() ==> crate::error::seen(r) == self@.tree_root(objectid),
    {
        let read = |at: u64, len: usize| -> (r: Result<Vec<u8>>)
            ensures
                self.faithful() ==> crate::error::viewed(r) == self@.bytes_at(at, len as nat),
            { self.read_bytes(at, len) };
        let tree = Tree::over(
            TreeGeometry::from_superblock(&self.sb),
            &read,
            Ghost(self@.image()),
        );
        root_item_target(&tree, self.sb.root, objectid)
    }
}

} // verus!
