//! Mounted filesystem handle.
//!
//! Ties the superblock, chunk map, B-tree reader and item parsers into the
//! operations a consumer wants: open a volume, resolve a path, list a
//! directory, read a file.
//!
//! Btrfs does not name the fs tree in its superblock, so mounting is a
//! four-step bootstrap and every step must succeed before the next is even
//! addressable:
//!
//! 1. Parse the superblock at 64 KiB.
//! 2. Build a chunk map from the `sys_chunk_array` embedded in it, enough to
//!    reach the chunk tree and nothing else.
//! 3. Walk the chunk tree through that partial map, folding every chunk item
//!    in to complete it.
//! 4. Read the root tree, find the `ROOT_ITEM` for the fs tree, and take the
//!    tree's root address from it.
//!
//! Returning plausible-but-wrong file contents is the one failure a caller
//! cannot detect, so encoded extents, a dirty log and data that does not match
//! its digest are errors rather than best efforts. Holes read as zeros, which
//! is what they are.

use std::sync::Arc;

use vstd::prelude::*;

use crate::btree;
use crate::btree::{ItemModel, TreeBlock};
use crate::bytes::copy_range;
use crate::chunk::ChunkMap;
use crate::error::{ErrorView, Result};
use crate::item_map::ItemMap;
use crate::superblock::Superblock;
use crate::volume;
use crate::volume::{Volume, VolumeModel};

pub mod content_laws;
pub mod digest_laws;
pub mod entry_laws;
pub mod extents;
pub mod file_extent;
pub mod laws;
pub mod mount;
pub mod mount_laws;
pub mod namespace;
pub mod path_laws;
pub mod read;
pub mod root_item;
pub mod sums;
pub mod whole_laws;
pub mod xattrs;

verus! {

/// `BTRFS_FS_TREE_OBJECTID`: the subvolume holding the default filesystem
/// namespace.
pub const FS_TREE_OBJECTID: u64 = 5;

/// One item of the root tree: `(objectid, key_type, offset, data)`.
pub type RootTreeItem = (u64, u8, u64, Vec<u8>);

/// `BTRFS_ROOT_ITEM_KEY`.
pub const ROOT_ITEM_KEY: u8 = 132;

/// `BTRFS_EXTENT_DATA_KEY`: a file's data, inline or by reference.
pub const EXTENT_DATA_KEY: u8 = 108;

/// The longest a symbolic link's target can be: `PATH_MAX`. A link's target
/// is a path and the operating system will not take a longer one.
pub const MAX_SYMLINK_TARGET: u64 = 4096;

/// How many blocks a mount caches by default: none. Every item of the fs tree
/// is loaded at mount, so there are no repeat metadata reads left for a cache
/// to serve.
pub const DEFAULT_CACHE_BLOCKS: usize = 0;

/// A mounted Btrfs filesystem.
pub struct Filesystem<R> {
    /// The devices, superblock and chunk map, shared by every handle over the
    /// same volume.
    pub volume: Arc<Volume<R>>,
    /// The size of the device, present only when the volume was opened for
    /// writing.
    pub writable: Option<u64>,
    /// The root block of the tree this handle reads.
    pub fs_tree_root: u64,
    /// Every item of that tree, loaded once at mount.
    pub items: ItemMap,
}

/// What a [`Filesystem`] holds.
pub struct FilesystemModel {
    pub volume: VolumeModel,
    pub writable: Option<u64>,
    pub fs_tree_root: u64,
    pub items: Seq<ItemModel>,
}

impl<R> View for Filesystem<R> {
    type V = FilesystemModel;

    open spec fn view(&self) -> FilesystemModel {
        FilesystemModel {
            volume: self.volume@,
            writable: self.writable,
            fs_tree_root: self.fs_tree_root,
            items: self.items@,
        }
    }
}

/// The four parts of a root tree item.
pub open spec fn root_tree_models(items: Seq<RootTreeItem>) -> Seq<ItemModel> {
    items.map_values(
        |i: RootTreeItem|
            ItemModel {
                key: crate::chunk::DiskKey { objectid: i.0, key_type: i.1, offset: i.2 },
                data: i.3@,
            },
    )
}

impl<R: Fn(usize, u64, usize) -> Result<Vec<u8>>> Filesystem<R> {
    /// Whether the handle can be used: its volume can be read, and its items
    /// stand in key order.
    pub open spec fn ready(&self) -> bool {
        &&& self.volume.ready()
        &&& self.items.ordered()
    }

    /// Whether the volume's reader answers every request in one way.
    pub open spec fn faithful(&self) -> bool {
        self.volume.faithful()
    }

    /// Whether this mount can write.
    pub fn is_writable(&self) -> (yes: bool)
        ensures
            yes == self@.writable is Some,
    {
        self.writable.is_some()
    }

    /// Read one tree block by its logical address. An address holding
    /// something that is not a tree block of this filesystem is an error
    /// rather than an empty result.
    pub fn read_tree_block(&self, logical: u64) -> (r: Result<TreeBlock>)
        requires
            self.ready(),
        ensures
            self.faithful() ==> crate::error::viewed(r) == self@.volume.block(logical),
            r matches Ok(block) ==> {
                &&& block.decoded()
                &&& btree::block_error(
                    block@,
                    logical,
                    self@.volume.geometry(),
                    btree::block_intact(block@, self@.volume.geometry()),
                ) is None
            },
    {
        self.volume.read_tree_block(logical)
    }

    /// The chunk map: how logical addresses become physical ones.
    pub fn chunk_map(&self) -> (map: &ChunkMap)
        ensures
            map@ == self@.volume.map,
    {
        &self.volume.map
    }

    /// The parsed superblock.
    pub fn superblock(&self) -> (sb: &Superblock)
        ensures
            sb@ == self@.volume.sb,
    {
        &self.volume.sb
    }

    /// Every item in the root tree, the index of trees: one `ROOT_ITEM` per
    /// subvolume saying where its tree lives, and reference items naming
    /// them.
    pub fn root_tree_items(&self) -> (r: Result<Vec<RootTreeItem>>)
        requires
            self.ready(),
        ensures
            self.faithful() ==> match r {
                Ok(items) => volume::whole(self@.volume.walk(self@.volume.sb.root)) == Ok::<
                    Seq<ItemModel>,
                    ErrorView,
                >(root_tree_models(items@)),
                Err(e) => volume::whole(self@.volume.walk(self@.volume.sb.root)) == Err::<
                    Seq<ItemModel>,
                    ErrorView,
                >(e@),
            },
    {
        let items = match self.volume.items(self.volume.sb.root) {
            Ok(items) => items,
            Err(e) => return Err(e),
        };
        let mut out: Vec<RootTreeItem> = Vec::new();
        let mut i: usize = 0;
        while i < items.len()
            invariant
                i <= items@.len(),
                out@.len() == i,
                forall|k: int|
                    0 <= k < i ==> root_tree_models(out@)[k] == (#[trigger] items@[k])@,
            decreases items@.len() - i,
        {
            let item = &items[i];
            let ghost before = out@;
            let entry: RootTreeItem = (
                item.key.objectid,
                item.key.key_type,
                item.key.offset,
                copy_range(item.data.as_slice(), 0, item.data.len()),
            );
            out.push(entry);
            proof {
                assert(entry.3@ =~= item.data@);
                assert forall|k: int| 0 <= k < i + 1 implies root_tree_models(out@)[k] == (
                #[trigger] items@[k])@ by {
                    if k < i {
                        assert(root_tree_models(before)[k] == items@[k]@);
                    }
                }
            }
            i = i + 1;
        }
        assert(root_tree_models(out@) =~= btree::models(items@));
        Ok(out)
    }
}

} // verus!
