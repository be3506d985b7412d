//! Subvolumes and snapshots.
//!
//! The root tree is the index of trees. Three kinds of item in it matter
//! here:
//!
//! ```text
//! type 132  ROOT_ITEM      one per tree: where its root block is, its
//!                          generation, its flags
//! type 156  ROOT_REF       key (parent, 156, child), data ends in the name
//! type 144  ROOT_BACKREF   key (child, 144, parent), the same name
//! ```
//!
//! `ROOT_BACKREF` is the one used here: one item per subvolume giving its
//! parent and its name, which is exactly what building a path needs.
//!
//! A snapshot is a `ROOT_ITEM` whose key offset is not zero: it records the
//! generation the snapshot was created at. Read-only is bit 0 of the item's
//! flags. Some objectids are negative, and read as very large unsigned
//! values; the range of subvolume ids has an upper end for that reason.

use std::collections::BTreeMap;

use vstd::prelude::*;

use crate::btree::ItemModel;
use crate::bytes;
use crate::bytes::{copy_range, le16, le64};
use crate::chunk::DiskKey;
use crate::error::{Error, ErrorView, Result};
use crate::fs;
use crate::fs::{mount, root_item, Filesystem, FilesystemModel, RootTreeItem, ROOT_ITEM_KEY};
use crate::strings;
use crate::strings::lossy_text;
use crate::text::cat3;
use crate::text::Part::Lit;
use crate::volume;

pub mod laws;

verus! {

/// `BTRFS_ROOT_BACKREF_KEY`: a subvolume's own record of its parent and its
/// name.
pub const ROOT_BACKREF_KEY: u8 = 144;

/// `BTRFS_FS_TREE_OBJECTID`: the default subvolume, which every filesystem
/// has and which has no name and no parent.
pub const FS_TREE_OBJECTID: u64 = 5;

/// `BTRFS_FIRST_FREE_OBJECTID`: the lowest id a created subvolume gets.
pub const FIRST_FREE_OBJECTID: u64 = 256;

/// `BTRFS_LAST_FREE_OBJECTID`: the highest. Several internal trees have
/// negative objectids, which read as larger than this.
pub const LAST_FREE_OBJECTID: u64 = u64::MAX - 255;

/// Offset of the `u16` length of the name in a reference item.
pub const REF_NAME_LEN: usize = 16;

/// Offset of the name in a reference item.
pub const REF_NAME: usize = 18;

/// `BTRFS_ROOT_SUBVOL_RDONLY`.
pub const ROOT_SUBVOL_RDONLY: u64 = 1;

/// One subvolume or snapshot.
#[derive(Debug, Clone, PartialEq, Eq)]
pub struct Subvolume {
    /// Its objectid, which is what `btrfs subvolume list` calls the ID.
    pub id: u64,
    /// The subvolume it was created inside, or zero for the default one.
    pub parent: u64,
    /// Its name within its parent. Empty for the default subvolume.
    pub name: Vec<u8>,
    /// Its path from the top of the filesystem, as `btrfs subvolume list`
    /// prints it: `sub/inner` rather than `inner`.
    pub path: String,
    /// The root block of its tree.
    pub bytenr: u64,
    /// The transaction it was last written in.
    pub generation: u64,
    /// The generation it was last snapshotted at, or zero.
    pub last_snapshot: u64,
    /// Whether it was created read-only.
    pub read_only: bool,
    /// Whether it is a snapshot of another subvolume rather than a subvolume
    /// created empty.
    pub is_snapshot: bool,
}

/// What a [`Subvolume`] holds.
#[verifier::ext_equal]
pub struct SubvolumeModel {
    pub id: u64,
    pub parent: u64,
    pub name: Seq<u8>,
    pub path: Seq<char>,
    pub bytenr: u64,
    pub generation: u64,
    pub last_snapshot: u64,
    pub read_only: bool,
    pub is_snapshot: bool,
}

impl View for Subvolume {
    type V = SubvolumeModel;

    open spec fn view(&self) -> SubvolumeModel {
        SubvolumeModel {
            id: self.id,
            parent: self.parent,
            name: self.name@,
            path: self.path@,
            bytenr: self.bytenr,
            generation: self.generation,
            last_snapshot: self.last_snapshot,
            read_only: self.read_only,
            is_snapshot: self.is_snapshot,
        }
    }
}

/// What a list of subvolumes holds.
pub open spec fn subvolume_models(list: Seq<Subvolume>) -> Seq<SubvolumeModel> {
    Seq::new(list.len(), |i: int| list[i]@)
}

/// The parent and name of each subvolume, by its id.
pub type Names = BTreeMap<u64, (u64, Vec<u8>)>;

/// What parents and names by id hold.
pub open spec fn name_models(m: Map<u64, (u64, Vec<u8>)>) -> Map<u64, (u64, Seq<u8>)> {
    m.map_values(|v: (u64, Vec<u8>)| (v.0, v.1@))
}

/// Whether an objectid names a subvolume.
pub open spec fn names_subvolume(objectid: u64) -> bool {
    objectid == FS_TREE_OBJECTID || FIRST_FREE_OBJECTID <= objectid <= LAST_FREE_OBJECTID
}

/// The name a reference item holds; nothing where the item is too short to
/// hold what it claims.
pub open spec fn name_in(data: Seq<u8>) -> Option<Seq<u8>> {
    let end: int = REF_NAME + bytes::u16_at(data, REF_NAME_LEN as int);
    if data.len() < REF_NAME || end > data.len() {
        None
    } else {
        Some(data.subrange(REF_NAME as int, end))
    }
}

/// `names` with what the items `from ..` say of parents and names noted.
pub open spec fn names_from(
    items: Seq<ItemModel>,
    from: int,
    names: Map<u64, (u64, Seq<u8>)>,
) -> Map<u64, (u64, Seq<u8>)>
    decreases items.len() - from,
{
    if from < 0 || from >= items.len() {
        names
    } else {
        let item = items[from];
        let next = if item.key.key_type == ROOT_BACKREF_KEY && names_subvolume(item.key.objectid) {
            match name_in(item.data) {
                Some(name) => names.insert(item.key.objectid, (item.key.offset, name)),
                None => names,
            }
        } else {
            names
        };
        names_from(items, from + 1, next)
    }
}

/// The names on the way from subvolume `at` up to the default one, its own
/// first, at most `steps` of them.
pub open spec fn chain(names: Map<u64, (u64, Seq<u8>)>, at: u64, steps: nat) -> Seq<Seq<char>>
    decreases steps,
{
    if steps == 0 || !names.contains_key(at) {
        Seq::empty()
    } else {
        let (parent, name) = names[at];
        if parent == FS_TREE_OBJECTID {
            seq![strings::lossy(name)]
        } else {
            seq![strings::lossy(name)] + chain(names, parent, (steps - 1) as nat)
        }
    }
}

/// `parts`, last first, with slashes between.
pub open spec fn joined(parts: Seq<Seq<char>>) -> Seq<char>
    decreases parts.len(),
{
    if parts.len() == 0 {
        Seq::empty()
    } else if parts.len() == 1 {
        parts[0]
    } else {
        joined(parts.drop_first()) + "/"@ + parts[0]
    }
}

/// The path a subvolume is reached by.
pub open spec fn path_text(id: u64, names: Map<u64, (u64, Seq<u8>)>) -> Seq<char> {
    if id == FS_TREE_OBJECTID {
        "/"@
    } else {
        joined(chain(names, id, names.len() + 1))
    }
}

/// The subvolume a root tree item describes, if it describes one.
pub open spec fn subvolume_of(item: ItemModel, names: Map<u64, (u64, Seq<u8>)>) -> Option<
    SubvolumeModel,
> {
    let id = item.key.objectid;
    let known = names.contains_key(id);
    if item.key.key_type != ROOT_ITEM_KEY || !names_subvolume(id) || item.data.len()
        < root_item::MIN_SIZE {
        None
    } else {
        Some(
            SubvolumeModel {
                id,
                parent: if known {
                    names[id].0
                } else {
                    0
                },
                name: if known {
                    names[id].1
                } else {
                    Seq::empty()
                },
                path: path_text(id, names),
                bytenr: bytes::u64_at(item.data, root_item::BYTENR as int),
                generation: bytes::u64_at(item.data, root_item::GENERATION as int),
                last_snapshot: bytes::u64_at(item.data, root_item::LAST_SNAPSHOT as int),
                read_only: bytes::u64_at(item.data, root_item::FLAGS as int) & ROOT_SUBVOL_RDONLY
                    != 0,
                is_snapshot: item.key.offset != 0,
            },
        )
    }
}

/// Where a subvolume with `id` goes in `list`: behind the last one whose id
/// is not greater.
pub open spec fn place(list: Seq<SubvolumeModel>, id: u64) -> int
    decreases list.len(),
{
    if list.len() == 0 || list.last().id <= id {
        list.len() as int
    } else {
        place(list.drop_last(), id)
    }
}

/// `list` with the subvolumes the items `from ..` describe put in their
/// places.
pub open spec fn listed_from(
    items: Seq<ItemModel>,
    from: int,
    names: Map<u64, (u64, Seq<u8>)>,
    list: Seq<SubvolumeModel>,
) -> Seq<SubvolumeModel>
    decreases items.len() - from,
{
    if from < 0 || from >= items.len() {
        list
    } else {
        listed_from(
            items,
            from + 1,
            names,
            match subvolume_of(items[from], names) {
                Some(v) => list.insert(place(list, v.id), v),
                None => list,
            },
        )
    }
}

/// Every subvolume and snapshot the items of a root tree describe.
pub open spec fn subvolumes_in(items: Seq<ItemModel>) -> Seq<SubvolumeModel> {
    listed_from(items, 0, names_from(items, 0, Map::empty()), Seq::empty())
}

/// The first of the subvolumes `from ..` with `id`.
pub open spec fn with_id(list: Seq<SubvolumeModel>, id: u64, from: int) -> Option<SubvolumeModel>
    decreases list.len() - from,
{
    if from < 0 || from >= list.len() {
        None
    } else if list[from].id == id {
        Some(list[from])
    } else {
        with_id(list, id, from + 1)
    }
}

/// What opening subvolume `id` gives.
pub open spec fn subvolume_opened(fs: FilesystemModel, id: u64) -> std::result::Result<
    FilesystemModel,
    ErrorView,
> {
    match volume::whole(fs.volume.walk(fs.volume.sb.root)) {
        Err(e) => Err(e),
        Ok(items) => match with_id(subvolumes_in(items), id, 0) {
            None => Err(ErrorView::NotFound),
            Some(v) => mount::rooted(fs.volume, v.bytenr, None),
        },
    }
}

pub(crate) proof fn lemma_place(list: Seq<SubvolumeModel>, id: u64)
    ensures
        0 <= place(list, id) <= list.len(),
        place(list, id) > 0 ==> list[place(list, id) - 1].id <= id,
        forall|i: int| place(list, id) <= i < list.len() ==> id < (#[trigger] list[i]).id,
    decreases list.len(),
{
    if list.len() > 0 && list.last().id > id {
        let front = list.drop_last();
        lemma_place(front, id);
        assert forall|i: int| place(list, id) <= i < list.len() implies id < (
        #[trigger] list[i]).id by {
            if i < front.len() {
                assert(front[i] == list[i]);
            }
        }
    }
}

/// Whether ids do not descend.
pub open spec fn by_id(list: Seq<SubvolumeModel>) -> bool {
    forall|i: int, j: int| 0 <= i < j < list.len() ==> (#[trigger] list[i]).id <= (
    #[trigger] list[j]).id
}

proof fn lemma_listed(
    items: Seq<ItemModel>,
    from: int,
    names: Map<u64, (u64, Seq<u8>)>,
    list: Seq<SubvolumeModel>,
)
    requires
        by_id(list),
        forall|i: int| 0 <= i < list.len() ==> names_subvolume((#[trigger] list[i]).id),
    ensures
        by_id(listed_from(items, from, names, list)),
        forall|i: int|
            0 <= i < listed_from(items, from, names, list).len() ==> names_subvolume(
                (#[trigger] listed_from(items, from, names, list)[i]).id,
            ),
    decreases items.len() - from,
{
    if 0 <= from < items.len() {
        match subvolume_of(items[from], names) {
            Some(v) => {
                let at = place(list, v.id);
                lemma_place(list, v.id);
                let next = list.insert(at, v);
                assert forall|i: int, j: int| 0 <= i < j < next.len() implies (
                #[trigger] next[i]).id <= (#[trigger] next[j]).id by {
                    if i < at && j == at {
                        assert(list[i].id <= list[at - 1].id);
                    }
                }
                lemma_listed(items, from + 1, names, next);
            },
            None => lemma_listed(items, from + 1, names, list),
        }
    }
}

/// A listing goes by ascending id and holds subvolumes only: no internal
/// tree, however it is numbered, is among them.
pub proof fn law_a_listing_goes_by_id(items: Seq<ItemModel>)
    ensures
        by_id(subvolumes_in(items)),
        forall|i: int|
            0 <= i < subvolumes_in(items).len() ==> names_subvolume(
                (#[trigger] subvolumes_in(items)[i]).id,
            ),
{
    lemma_listed(items, 0, names_from(items, 0, Map::empty()), Seq::empty());
}

/// A path has at most one part more than there are named subvolumes, whatever
/// the references say: a cycle among them does not go on for ever.
pub proof fn law_a_path_is_bounded(names: Map<u64, (u64, Seq<u8>)>, at: u64, steps: nat)
    ensures
        chain(names, at, steps).len() <= steps,
    decreases steps,
{
    if steps > 0 && names.contains_key(at) {
        law_a_path_is_bounded(names, names[at].0, (steps - 1) as nat);
    }
}

impl Subvolume {
    /// Whether this is the default subvolume, which is present on every
    /// filesystem and is nobody's child.
    pub fn is_default(&self) -> (yes: bool)
        ensures
            yes == (self.id == FS_TREE_OBJECTID),
    {
        self.id == FS_TREE_OBJECTID
    }
}

/// Whether an objectid names a subvolume rather than one of the filesystem's
/// internal trees.
pub fn is_subvolume_id(objectid: u64) -> (yes: bool)
    ensures
        yes == names_subvolume(objectid),
{
    objectid == FS_TREE_OBJECTID || (FIRST_FREE_OBJECTID <= objectid && objectid
        <= LAST_FREE_OBJECTID)
}

/// The name out of a `ROOT_REF` or `ROOT_BACKREF` item.
///
/// `None` rather than an error for an item too short to hold what it claims:
/// a listing that skipped one malformed reference is more useful than one
/// that refused to produce anything.
pub fn reference_name(data: &[u8]) -> (r: Option<Vec<u8>>)
    ensures
        match r {
            Some(name) => name_in(data@) == Some(name@),
            None => name_in(data@) is None,
        },
{
    if data.len() < REF_NAME {
        return None;
    }
    let end: usize = REF_NAME + le16(data, REF_NAME_LEN) as usize;
    if end > data.len() {
        return None;
    }
    Some(copy_range(data, REF_NAME, end))
}

/// The path a subvolume is reached by, built from its chain of parents.
///
/// Bounded rather than recursive: references that form a cycle must not hang
/// a listing.
pub fn path_of(id: u64, names: &Names) -> (path: String)
    ensures
        path@ == path_text(id, name_models(names@)),
{
    if id == FS_TREE_OBJECTID {
        return "/".to_owned();
    }
    let ghost known = name_models(names@);
    assert(known.dom() =~= names@.dom());
    let n: usize = names.len();
    let mut parts: Vec<String> = Vec::new();
    let mut at: u64 = id;
    let mut taken: usize = 0;
    let mut open: bool = true;
    let mut last: bool = false;
    let ghost all = chain(known, id, (n + 1) as nat);
    assert(Seq::<Seq<char>>::empty() + all =~= all);
    assert(texts(parts@) =~= Seq::<Seq<char>>::empty());
    while open && !last
        invariant
            known == name_models(names@),
            known.dom() =~= names@.dom(),
            taken <= n,
            all == texts(parts@) + (if !open {
                Seq::empty()
            } else if last {
                chain(known, at, 0)
            } else {
                chain(known, at, (n + 1 - taken) as nat)
            }),
        decreases
                (if last {
                    0
                } else {
                    n + 1 - taken
                }),
    {
        let ghost before = texts(parts@);
        match names.get(&at) {
            None => {
                open = false;
                assert(before + Seq::<Seq<char>>::empty() =~= before);
            },
            Some(entry) => {
                assert(known[at] == (entry.0, entry.1@));
                let part = lossy_text(entry.1.as_slice());
                let ghost own = part@;
                let ghost steps: nat = (n + 1 - taken) as nat;
                parts.push(part);
                assert(texts(parts@) =~= before.push(own));
                if entry.0 == FS_TREE_OBJECTID {
                    open = false;
                    assert(chain(known, at, steps) == seq![own]);
                    assert(before + seq![own] =~= before.push(own) + Seq::<Seq<char>>::empty());
                } else {
                    assert(chain(known, at, steps) == seq![own] + chain(
                        known,
                        entry.0,
                        (steps - 1) as nat,
                    ));
                    assert(before + (seq![own] + chain(known, entry.0, (steps - 1) as nat))
                        =~= before.push(own) + chain(known, entry.0, (steps - 1) as nat));
                    at = entry.0;
                }
            },
        }
        // As many steps as there are names, and one more.
        if taken == n {
            last = true;
        } else {
            taken = taken + 1;
        }
    }
    assert(all =~= texts(parts@));
    join(parts)
}

/// What a list of strings holds.
pub open spec fn texts(parts: Seq<String>) -> Seq<Seq<char>> {
    Seq::new(parts.len(), |i: int| parts[i]@)
}

/// `parts`, last first, with slashes between.
fn join(parts: Vec<String>) -> (out: String)
    ensures
        out@ == joined(texts(parts@)),
{
    let ghost all = texts(parts@);
    if parts.len() == 0 {
        let out = "".to_owned();
        proof {
            reveal_strlit("");
            assert(out@ =~= Seq::<char>::empty());
        }
        return out;
    }
    let mut i: usize = parts.len() - 1;
    let mut out: String = parts[i].clone();
    assert(all.skip(i as int).len() == 1);
    while i > 0
        invariant
            i < parts@.len(),
            all == texts(parts@),
            out@ == joined(all.skip(i as int)),
        decreases i,
    {
        let ghost after = all.skip(i as int);
        i = i - 1;
        assert(all.skip(i as int).drop_first() =~= after);
        assert(all.skip(i as int)[0] == parts@[i as int]@);
        out = cat3(Lit(out.as_str()), Lit("/"), Lit(parts[i].as_str()));
    }
    assert(all.skip(0) =~= all);
    out
}

/// The key and data of a root tree item.
pub open spec fn root_tree_model(i: RootTreeItem) -> ItemModel {
    ItemModel { key: DiskKey { objectid: i.0, key_type: i.1, offset: i.2 }, data: i.3@ }
}

/// The parents and names the items of a root tree give.
fn collect_names(items: &[RootTreeItem]) -> (names: Names)
    ensures
        name_models(names@) == names_from(fs::root_tree_models(items@), 0, Map::empty()),
{
    let ghost all = fs::root_tree_models(items@);
    let mut names = Names::new();
    assert(name_models(names@) =~= Map::<u64, (u64, Seq<u8>)>::empty());
    let mut i: usize = 0;
    while i < items.len()
        invariant
            i <= items@.len(),
            all == fs::root_tree_models(items@),
            names_from(all, 0, Map::empty()) == names_from(all, i as int, name_models(names@)),
        decreases items@.len() - i,
    {
        let item = &items[i];
        assert(all[i as int] == root_tree_model(*item));
        if item.1 == ROOT_BACKREF_KEY && is_subvolume_id(item.0) {
            if let Some(name) = reference_name(item.3.as_slice()) {
                let ghost before = names@;
                let ghost kept = name@;
                names.insert(item.0, (item.2, name));
                assert(name_models(names@) =~= name_models(before).insert(
                    item.0,
                    (item.2, kept),
                ));
            }
        }
        i = i + 1;
    }
    names
}

/// The subvolume a root tree item describes, if it describes one.
fn describe(item: &RootTreeItem, names: &Names) -> (r: Option<Subvolume>)
    ensures
        match r {
            Some(v) => subvolume_of(root_tree_model(*item), name_models(names@)) == Some(v@),
            None => subvolume_of(root_tree_model(*item), name_models(names@)) is None,
        },
{
    let data = item.3.as_slice();
    if item.1 != ROOT_ITEM_KEY || !is_subvolume_id(item.0) || data.len() < root_item::MIN_SIZE {
        return None;
    }
    let ghost known = name_models(names@);
    assert(known.dom() =~= names@.dom());
    let (parent, name): (u64, Vec<u8>) = match names.get(&item.0) {
        Some(entry) => {
            let name = copy_range(entry.1.as_slice(), 0, entry.1.len());
            assert(name@ =~= entry.1@);
            assert(known[item.0] == (entry.0, entry.1@));
            (entry.0, name)
        },
        None => (0, Vec::new()),
    };
    let v = Subvolume {
        id: item.0,
        parent,
        name,
        path: path_of(item.0, names),
        bytenr: le64(data, root_item::BYTENR),
        generation: le64(data, root_item::GENERATION),
        last_snapshot: le64(data, root_item::LAST_SNAPSHOT),
        read_only: le64(data, root_item::FLAGS) & ROOT_SUBVOL_RDONLY != 0,
        is_snapshot: item.2 != 0,
    };
    assert(Some(v@) =~= subvolume_of(root_tree_model(*item), known));
    Some(v)
}

/// Put a subvolume in its place.
fn put_in_place(list: &mut Vec<Subvolume>, v: Subvolume)
    ensures
        subvolume_models(final(list)@) == subvolume_models(old(list)@).insert(
            place(subvolume_models(old(list)@), v.id),
            v@,
        ),
{
    let ghost all = subvolume_models(list@);
    let mut at: usize = list.len();
    assert(all.take(at as int) =~= all);
    while at > 0 && list[at - 1].id > v.id
        invariant
            at <= list@.len(),
            list@ == old(list)@,
            all == subvolume_models(list@),
            place(all, v.id) == place(all.take(at as int), v.id),
        decreases at,
    {
        assert(all.take(at as int).last() == list@[at - 1]@);
        at = at - 1;
        assert(all.take(at + 1).drop_last() =~= all.take(at as int));
    }
    proof {
        if at > 0 {
            assert(all.take(at as int).last() == list@[at - 1]@);
        }
        assert(place(all, v.id) == at);
    }
    list.insert(at, v);
    assert(subvolume_models(list@) =~= all.insert(at as int, v@));
}

/// What a list of subvolumes, or the error in its place, holds.
pub open spec fn subvolumes_seen(r: Result<Vec<Subvolume>>) -> std::result::Result<
    Seq<SubvolumeModel>,
    ErrorView,
> {
    match r {
        Ok(list) => Ok(subvolume_models(list@)),
        Err(e) => Err(e@),
    }
}

impl<R: Fn(usize, u64, usize) -> Result<Vec<u8>>> Filesystem<R> {
    /// Every subvolume and snapshot on the filesystem, by ascending id.
    ///
    /// The default subvolume has id 5, an empty name and a path of `/`. The
    /// rest carry the path `btrfs subvolume list` would print.
    pub fn subvolumes(&self) -> (r: Result<Vec<Subvolume>>)
        requires
            self.ready(),
        ensures
            self.faithful() ==> subvolumes_seen(r) == (match volume::whole(
                self@.volume.walk(self@.volume.sb.root),
            ) {
                Ok(items) => Ok(subvolumes_in(items)),
                Err(e) => Err(e),
            }),
    {
        let items = match self.root_tree_items() {
            Ok(items) => items,
            Err(e) => return Err(e),
        };
        // Two passes, because a path cannot be built until every name is
        // known: a nested subvolume names only its immediate parent.
        let names = collect_names(items.as_slice());
        let ghost known = name_models(names@);
        let ghost all = fs::root_tree_models(items@);
        let mut out: Vec<Subvolume> = Vec::new();
        assert(subvolume_models(out@) =~= Seq::<SubvolumeModel>::empty());
        let mut i: usize = 0;
        while i < items.len()
            invariant
                i <= items@.len(),
                all == fs::root_tree_models(items@),
                known == name_models(names@),
                subvolumes_in(all) == listed_from(
                    all,
                    i as int,
                    known,
                    subvolume_models(out@),
                ),
            decreases items@.len() - i,
        {
            assert(all[i as int] == root_tree_model(items@[i as int]));
            if let Some(v) = describe(&items[i], &names) {
                put_in_place(&mut out, v);
            }
            i = i + 1;
        }
        Ok(out)
    }

    /// Open one subvolume as a filesystem of its own.
    ///
    /// A subvolume is a separate tree over the same device. The returned
    /// handle answers against that subvolume, and paths inside it are
    /// absolute within it. The handle never carries the write capability,
    /// even when this one does.
    pub fn open_subvolume(&self, id: u64) -> (r: Result<Filesystem<R>>)
        requires
            self.ready(),
        ensures
            self.faithful() ==> crate::error::viewed(r) == subvolume_opened(self@, id),
            r matches Ok(fs) ==> fs.ready() && fs.volume == self.volume && fs@.writable is None,
    {
        let list = match self.subvolumes() {
            Ok(list) => list,
            Err(e) => return Err(e),
        };
        let ghost all = subvolume_models(list@);
        let mut i: usize = 0;
        while i < list.len()
            invariant
                self.ready(),
                i <= list@.len(),
                all == subvolume_models(list@),
                self.faithful() ==> (volume::whole(
                    self@.volume.walk(self@.volume.sb.root),
                ) matches Ok(items) && subvolumes_in(items) == all),
                with_id(all, id, 0) == with_id(all, id, i as int),
            decreases list@.len() - i,
        {
            assert(all[i as int] == list@[i as int]@);
            if list[i].id == id {
                return self.open_subvolume_at(list[i].bytenr);
            }
            i = i + 1;
        }
        Err(Error::NotFound)
    }

    /// Open the subvolume whose tree root is `bytenr`.
    ///
    /// A `bytenr` that is not a tree root fails rather than producing an
    /// empty filesystem, because a tree block carries its own identity.
    pub fn open_subvolume_at(&self, bytenr: u64) -> (r: Result<Filesystem<R>>)
        requires
            self.ready(),
        ensures
            self.faithful() ==> crate::error::viewed(r) == mount::rooted(
                self@.volume,
                bytenr,
                None,
            ),
            r matches Ok(fs) ==> fs.ready() && fs.volume == self.volume && fs@.writable is None,
    {
        self.reroot(bytenr)
    }
}

} // verus!
