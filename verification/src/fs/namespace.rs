//! Inodes, directories and paths.

use vstd::prelude::*;
use vstd::string::StringSliceAdditionalSpecFns;

use crate::btree;
use crate::btree::ItemModel;
use crate::bytes::same_bytes;
use crate::chunk::DiskKey;
use crate::dir;
use crate::dir::{
    name_hash, parse_dir_items, DirEntry, DirEntryModel, DIR_INDEX_KEY, DIR_ITEM_KEY,
};
use crate::error::{Error, ErrorView, Result};
use crate::fs::read;
use crate::fs::Filesystem;
use crate::inode;
use crate::inode::{FileType, Inode, FIRST_FREE_OBJECTID, INODE_ITEM_KEY};
use crate::item_map;
use crate::strings;
use crate::strings::{lossy_text, quoted_text};
use crate::text;
use crate::text::cat6;
use crate::text::Part::{Dec, Lit};

verus! {

/// The inode `ino`, among the items of its tree.
pub open spec fn inode_of(items: Seq<ItemModel>, ino: u64) -> std::result::Result<
    Inode,
    ErrorView,
> {
    match item_map::data_under(
        items,
        DiskKey { objectid: ino, key_type: INODE_ITEM_KEY, offset: 0 },
    ) {
        None => Err(ErrorView::NotFound),
        Some(data) => inode::inode_outcome(data, ino),
    }
}

/// Whether a name is one of the two every directory has without an entry.
pub open spec fn is_dots(name: Seq<u8>) -> bool {
    name == seq![0x2Eu8] || name == seq![0x2Eu8, 0x2Eu8]
}

/// The entries of `entries` that are not `.` or `..`.
pub open spec fn without_dots(entries: Seq<DirEntryModel>) -> Seq<DirEntryModel>
    decreases entries.len(),
{
    if entries.len() == 0 {
        entries
    } else if is_dots(entries.last().name) {
        without_dots(entries.drop_last())
    } else {
        without_dots(entries.drop_last()).push(entries.last())
    }
}

/// The entries the directory index items `from ..` hold, behind `before`.
pub open spec fn listed_from(items: Seq<ItemModel>, from: int, before: Seq<DirEntryModel>) -> std::result::Result<
    Seq<DirEntryModel>,
    ErrorView,
>
    decreases items.len() - from,
{
    if from < 0 || from >= items.len() {
        Ok(before)
    } else {
        match dir::entries_from(items[from].data, 0, Seq::empty()) {
            Err(e) => Err(e),
            Ok(entries) => listed_from(items, from + 1, before + without_dots(entries)),
        }
    }
}

/// What listing directory `ino` gives.
pub open spec fn dir_outcome(items: Seq<ItemModel>, ino: u64) -> std::result::Result<
    Seq<DirEntryModel>,
    ErrorView,
> {
    match inode_of(items, ino) {
        Err(e) => Err(e),
        Ok(inode) => if inode::type_of_mode(inode.mode) != Some(FileType::Directory) {
            Err(ErrorView::NotADirectory)
        } else {
            listed_from(item_map::of_kind(items, ino, DIR_INDEX_KEY), 0, Seq::empty())
        },
    }
}

/// The first of the entries `from ..` that bears `name`.
pub open spec fn entry_named(entries: Seq<DirEntryModel>, name: Seq<u8>, from: int) -> Option<
    DirEntryModel,
>
    decreases entries.len() - from,
{
    if from < 0 || from >= entries.len() {
        None
    } else if entries[from].name == name {
        Some(entries[from])
    } else {
        entry_named(entries, name, from + 1)
    }
}

/// The entry for `name` filed under `hash` in the lookup index of directory
/// `dir_ino`. Names that share a hash share an item.
pub open spec fn filed_entry(items: Seq<ItemModel>, dir_ino: u64, hash: u64, name: Seq<u8>) -> std::result::Result<
    Option<DirEntryModel>,
    ErrorView,
> {
    match item_map::data_under(
        items,
        DiskKey { objectid: dir_ino, key_type: DIR_ITEM_KEY, offset: hash },
    ) {
        None => Ok(None),
        Some(data) => match dir::entries_from(data, 0, Seq::empty()) {
            Err(e) => Err(e),
            Ok(entries) => Ok(entry_named(without_dots(entries), name, 0)),
        },
    }
}

/// What looking up `name`, whose hash is `hash`, in directory `dir_ino`
/// gives.
///
/// A subvolume is a directory entry whose location names a tree rather than
/// an inode, so there is nothing in this tree to return.
pub open spec fn hashed_outcome(items: Seq<ItemModel>, dir_ino: u64, hash: u64, name: Seq<u8>) -> std::result::Result<
    Inode,
    ErrorView,
> {
    match inode_of(items, dir_ino) {
        Err(e) => Err(e),
        Ok(inode) => if inode::type_of_mode(inode.mode) != Some(FileType::Directory) {
            Err(ErrorView::NotADirectory)
        } else {
            match filed_entry(items, dir_ino, hash, name) {
                Err(e) => Err(e),
                Ok(None) => Err(ErrorView::NotFound),
                Ok(Some(hit)) => if hit.location_type != INODE_ITEM_KEY {
                    Err(
                        ErrorView::UnsupportedFeature(
                            strings::quoted(strings::lossy(name)) + " names subvolume "@
                                + text::dec(hit.ino as nat)
                                + " rather than an inode in this tree — open it with `open_subvolume("@
                                + text::dec(hit.ino as nat)
                                + ")` and look the rest of the path up in there"@,
                        ),
                    )
                } else {
                    inode_of(items, hit.ino)
                },
            }
        },
    }
}

/// What looking `name` up in directory `dir_ino` gives.
pub open spec fn lookup_outcome(items: Seq<ItemModel>, dir_ino: u64, name: Seq<u8>) -> std::result::Result<
    Inode,
    ErrorView,
> {
    hashed_outcome(items, dir_ino, dir::hash_of(name), name)
}

/// The position of the first `/` of `path` from `at` on, or its end.
pub open spec fn slash_from(path: Seq<u8>, at: int) -> int
    decreases path.len() - at,
{
    if at < 0 || at >= path.len() {
        path.len() as int
    } else if path[at] == 0x2F {
        at
    } else {
        slash_from(path, at + 1)
    }
}

/// The next slash is not before where the search for it starts.
pub proof fn lemma_slash(path: Seq<u8>, at: int)
    requires
        0 <= at <= path.len(),
    ensures
        at <= slash_from(path, at) <= path.len(),
    decreases path.len() - at,
{
    if at < path.len() && path[at] != 0x2F {
        lemma_slash(path, at + 1);
    }
}

/// The components of `path` from position `at` on: what stands between the
/// slashes, but for what is empty or a single dot.
pub open spec fn components(path: Seq<u8>, at: int) -> Seq<Seq<u8>>
    decreases path.len() + 1 - at,
{
    if at < 0 || at >= path.len() {
        Seq::empty()
    } else {
        proof {
            lemma_slash(path, at);
        }
        let end = slash_from(path, at);
        let part = path.subrange(at, end);
        if part.len() == 0 || part == seq![0x2Eu8] {
            components(path, end + 1)
        } else {
            seq![part] + components(path, end + 1)
        }
    }
}

/// The inode reached from `inode` by `parts`.
pub open spec fn resolved(items: Seq<ItemModel>, inode: Inode, parts: Seq<Seq<u8>>) -> std::result::Result<
    Inode,
    ErrorView,
>
    decreases parts.len(),
{
    if parts.len() == 0 {
        Ok(inode)
    } else if parts[0] == seq![0x2Eu8, 0x2Eu8] {
        Err(ErrorView::UnsupportedFeature("`..` in a path is not resolved by lookup_path"@))
    } else if inode::type_of_mode(inode.mode) != Some(FileType::Directory) {
        Err(ErrorView::NotADirectory)
    } else {
        match lookup_outcome(items, inode.ino, parts[0]) {
            Err(e) => Err(e),
            Ok(next) => resolved(items, next, parts.drop_first()),
        }
    }
}

/// What resolving an absolute path gives.
pub open spec fn path_outcome(items: Seq<ItemModel>, path: Seq<u8>) -> std::result::Result<
    Inode,
    ErrorView,
> {
    match inode_of(items, FIRST_FREE_OBJECTID) {
        Err(e) => Err(e),
        Ok(root) => resolved(items, root, components(path, 0)),
    }
}

/// What a list of entries, or the error in its place, holds.
pub open spec fn entries_seen(r: Result<Vec<DirEntry>>) -> std::result::Result<
    Seq<DirEntryModel>,
    ErrorView,
> {
    match r {
        Ok(entries) => Ok(dir::entry_models(entries@)),
        Err(e) => Err(e@),
    }
}

proof fn lemma_without_dots(entries: Seq<DirEntryModel>)
    ensures
        forall|i: int|
            0 <= i < without_dots(entries).len() ==> !is_dots(
                (#[trigger] without_dots(entries)[i]).name,
            ) && entries.contains(without_dots(entries)[i]),
    decreases entries.len(),
{
    if entries.len() > 0 {
        let front = entries.drop_last();
        lemma_without_dots(front);
        assert forall|i: int| 0 <= i < without_dots(entries).len() implies !is_dots(
            (#[trigger] without_dots(entries)[i]).name,
        ) && entries.contains(without_dots(entries)[i]) by {
            if i < without_dots(front).len() {
                let e = without_dots(front)[i];
                let k = choose|k: int| 0 <= k < front.len() && front[k] == e;
                assert(entries[k] == e);
            } else {
                assert(entries[entries.len() - 1] == entries.last());
            }
        }
    }
}

proof fn lemma_listed(items: Seq<ItemModel>, from: int, before: Seq<DirEntryModel>)
    requires
        forall|i: int| 0 <= i < before.len() ==> !is_dots((#[trigger] before[i]).name),
    ensures
        listed_from(items, from, before) matches Ok(all) ==> forall|i: int|
            0 <= i < all.len() ==> !is_dots((#[trigger] all[i]).name),
    decreases items.len() - from,
{
    if 0 <= from < items.len() {
        if let Ok(entries) = dir::entries_from(items[from].data, 0, Seq::empty()) {
            lemma_without_dots(entries);
            lemma_listed(items, from + 1, before + without_dots(entries));
        }
    }
}

/// A listing never holds `.` or `..`.
pub proof fn law_a_listing_has_no_dots(items: Seq<ItemModel>, ino: u64)
    ensures
        dir_outcome(items, ino) matches Ok(entries) ==> forall|i: int|
            0 <= i < entries.len() ==> !is_dots((#[trigger] entries[i]).name),
{
    lemma_listed(item_map::of_kind(items, ino, DIR_INDEX_KEY), 0, Seq::empty());
}

proof fn lemma_named(entries: Seq<DirEntryModel>, name: Seq<u8>, from: int)
    requires
        0 <= from,
    ensures
        match entry_named(entries, name, from) {
            Some(e) => e.name == name && entries.contains(e),
            None => forall|i: int| from <= i < entries.len() ==> (#[trigger] entries[i]).name != name,
        },
    decreases entries.len() - from,
{
    if from < entries.len() {
        if entries[from].name == name {
            assert(entries.contains(entries[from]));
        } else {
            lemma_named(entries, name, from + 1);
        }
    }
}

/// Where the two indexes of a directory agree on a name, a lookup finds it
/// exactly when the directory lists it: what it finds is what an entry of
/// that name names, and where no entry bears the name it answers that there
/// is none.
pub proof fn law_lookup_agrees_with_the_listing(
    items: Seq<ItemModel>,
    dir_ino: u64,
    name: Seq<u8>,
    entries: Seq<DirEntryModel>,
)
    requires
        dir_outcome(items, dir_ino) == Ok::<Seq<DirEntryModel>, ErrorView>(entries),
        filed_entry(items, dir_ino, dir::hash_of(name), name) == Ok::<
            Option<DirEntryModel>,
            ErrorView,
        >(entry_named(entries, name, 0)),
    ensures
        (forall|i: int| 0 <= i < entries.len() ==> (#[trigger] entries[i]).name != name)
            ==> lookup_outcome(items, dir_ino, name) == Err::<Inode, ErrorView>(
            ErrorView::NotFound,
        ),
        lookup_outcome(items, dir_ino, name) matches Ok(inode) ==> exists|i: int|
            0 <= i < entries.len() && (#[trigger] entries[i]).name == name
                && entries[i].location_type == INODE_ITEM_KEY && entries[i].ino == inode.ino,
{
    lemma_named(entries, name, 0);
    if let Some(e) = entry_named(entries, name, 0) {
        let k = choose|k: int| 0 <= k < entries.len() && entries[k] == e;
        assert(entries[k].name == name);
    }
}

/// Every slash of a path may be doubled, and a single dot may stand in for
/// nothing: neither changes the components.
pub proof fn law_empty_parts_do_not_matter(path: Seq<u8>, at: int)
    requires
        0 <= at < path.len(),
    ensures
        path[at] == 0x2F ==> components(path, at) == components(path, at + 1),
        at + 1 < path.len() && path[at] == 0x2E && path[at + 1] == 0x2F ==> components(path, at)
            == components(path, at + 2),
{
    if path[at] == 0x2F {
        assert(path.subrange(at, at).len() == 0);
    } else if at + 1 < path.len() && path[at] == 0x2E && path[at + 1] == 0x2F {
        assert(slash_from(path, at + 1) == at + 1);
        assert(slash_from(path, at) == at + 1);
        assert(path.subrange(at, at + 1) =~= seq![0x2Eu8]);
    }
}

fn is_dot_name(name: &[u8]) -> (yes: bool)
    ensures
        yes == (name@ == seq![0x2Eu8]),
{
    let yes = name.len() == 1 && name[0] == 0x2E;
    proof {
        if yes {
            assert(name@ =~= seq![0x2Eu8]);
        } else if name@ == seq![0x2Eu8] {
            assert(name@.len() == 1 && name@[0] == 0x2E);
        }
    }
    yes
}

fn is_dot_dot_name(name: &[u8]) -> (yes: bool)
    ensures
        yes == (name@ == seq![0x2Eu8, 0x2Eu8]),
{
    let yes = name.len() == 2 && name[0] == 0x2E && name[1] == 0x2E;
    proof {
        if yes {
            assert(name@ =~= seq![0x2Eu8, 0x2Eu8]);
        } else if name@ == seq![0x2Eu8, 0x2Eu8] {
            assert(name@.len() == 2 && name@[0] == 0x2E && name@[1] == 0x2E);
        }
    }
    yes
}

/// Add the entries that are not `.` or `..` to `out`.
fn keep_named(entries: Vec<DirEntry>, out: &mut Vec<DirEntry>)
    ensures
        dir::entry_models(final(out)@) == dir::entry_models(old(out)@) + without_dots(
            dir::entry_models(entries@),
        ),
{
    let ghost all = dir::entry_models(entries@);
    let mut i: usize = 0;
    let n: usize = entries.len();
    assert(all.take(0) =~= Seq::<DirEntryModel>::empty());
    assert(dir::entry_models(out@) =~= dir::entry_models(out@) + without_dots(all.take(0)));
    while i < n
        invariant
            i <= n,
            n == entries@.len(),
            all == dir::entry_models(entries@),
            dir::entry_models(out@) == dir::entry_models(old(out)@) + without_dots(
                all.take(i as int),
            ),
        decreases n - i,
    {
        let e = &entries[i];
        let ghost before = out@;
        assert(all.take(i + 1).drop_last() =~= all.take(i as int));
        assert(all.take(i + 1).last() == e@);
        if !is_dot_name(e.name.as_slice()) && !is_dot_dot_name(e.name.as_slice()) {
            out.push(e.duplicate());
            assert(dir::entry_models(out@) =~= dir::entry_models(before).push(e@));
            assert(dir::entry_models(out@) =~= dir::entry_models(old(out)@) + without_dots(
                all.take(i + 1),
            ));
        }
        i = i + 1;
    }
    assert(all.take(n as int) =~= all);
}

impl<R: Fn(usize, u64, usize) -> Result<Vec<u8>>> Filesystem<R> {
    /// Read one inode by objectid.
    pub fn read_inode(&self, ino: u64) -> (r: Result<Inode>)
        requires
            self.ready(),
        ensures
            crate::error::seen(r) == inode_of(self@.items, ino),
    {
        let key = DiskKey { objectid: ino, key_type: INODE_ITEM_KEY, offset: 0 };
        match self.items.get(&key) {
            Some(data) => Inode::parse(data, ino),
            None => Err(Error::NotFound),
        }
    }

    /// The root directory's inode.
    pub fn root_inode(&self) -> (r: Result<Inode>)
        requires
            self.ready(),
        ensures
            crate::error::seen(r) == inode_of(self@.items, FIRST_FREE_OBJECTID),
    {
        self.read_inode(FIRST_FREE_OBJECTID)
    }

    /// List a directory's entries.
    ///
    /// Uses `DIR_INDEX` rather than `DIR_ITEM`: the index is ordered and
    /// holds exactly one entry per key. `.` and `..` are never returned.
    pub fn read_dir(&self, ino: u64) -> (r: Result<Vec<DirEntry>>)
        requires
            self.ready(),
        ensures
            entries_seen(r) == dir_outcome(self@.items, ino),
    {
        let inode = match self.read_inode(ino) {
            Ok(inode) => inode,
            Err(e) => return Err(e),
        };
        if !inode.is_dir() {
            return Err(Error::NotADirectory);
        }
        let items = self.items.range(ino, DIR_INDEX_KEY);
        let ghost all = btree::models(items@);
        let mut out: Vec<DirEntry> = Vec::new();
        assert(dir::entry_models(out@) =~= Seq::<DirEntryModel>::empty());
        let mut i: usize = 0;
        while i < items.len()
            invariant
                i <= items@.len(),
                all == btree::models(items@),
                dir_outcome(self@.items, ino) == listed_from(
                    all,
                    i as int,
                    dir::entry_models(out@),
                ),
            decreases items@.len() - i,
        {
            assert(all[i as int] == items@[i as int]@);
            match parse_dir_items(items[i].data.as_slice()) {
                Ok(entries) => keep_named(entries, &mut out),
                Err(e) => return Err(e),
            }
            i = i + 1;
        }
        Ok(out)
    }

    /// Look up one name within a directory.
    pub fn lookup(&self, dir_ino: u64, name: &[u8]) -> (r: Result<Inode>)
        requires
            self.ready(),
        ensures
            crate::error::seen(r) == lookup_outcome(self@.items, dir_ino, name@),
    {
        self.lookup_hashed(dir_ino, name_hash(name), name)
    }

    /// Look up one name, whose hash is `hash`, within a directory.
    ///
    /// Uses `DIR_ITEM` rather than `DIR_INDEX`: it is keyed by the hash of
    /// the name, so one item holds every entry the name could be.
    pub fn lookup_hashed(&self, dir_ino: u64, hash: u64, name: &[u8]) -> (r: Result<Inode>)
        requires
            self.ready(),
        ensures
            crate::error::seen(r) == hashed_outcome(self@.items, dir_ino, hash, name@),
    {
        let inode = match self.read_inode(dir_ino) {
            Ok(inode) => inode,
            Err(e) => return Err(e),
        };
        if !inode.is_dir() {
            return Err(Error::NotADirectory);
        }
        let key = DiskKey { objectid: dir_ino, key_type: DIR_ITEM_KEY, offset: hash };
        let parsed = match self.items.get(&key) {
            Some(data) => parse_dir_items(data),
            None => return Err(Error::NotFound),
        };
        let mut entries: Vec<DirEntry> = Vec::new();
        assert(dir::entry_models(entries@) =~= Seq::<DirEntryModel>::empty());
        match parsed {
            Ok(parsed) => keep_named(parsed, &mut entries),
            Err(e) => return Err(e),
        }
        let ghost all = dir::entry_models(entries@);
        let mut i: usize = 0;
        while i < entries.len()
            invariant
                self.ready(),
                i <= entries@.len(),
                all == dir::entry_models(entries@),
                inode_of(self@.items, dir_ino) == Ok::<Inode, ErrorView>(inode),
                inode::type_of_mode(inode.mode) == Some(FileType::Directory),
                filed_entry(self@.items, dir_ino, hash, name@) == Ok::<
                    Option<DirEntryModel>,
                    ErrorView,
                >(entry_named(all, name@, i as int)),
            decreases entries@.len() - i,
        {
            let hit = &entries[i];
            assert(all[i as int] == hit@);
            if same_bytes(hit.name.as_slice(), name) {
                if !hit.is_inode() {
                    let shown = quoted_text(lossy_text(name).as_str());
                    return Err(
                        Error::UnsupportedFeature(
                            cat6(
                                Lit(shown.as_str()),
                                Lit(" names subvolume "),
                                Dec(hit.ino),
                                Lit(
                                    " rather than an inode in this tree — open it with `open_subvolume(",
                                ),
                                Dec(hit.ino),
                                Lit(")` and look the rest of the path up in there"),
                            ),
                        ),
                    );
                }
                return self.read_inode(hit.ino);
            }
            i = i + 1;
        }
        Err(Error::NotFound)
    }

    /// Resolve an absolute path to its inode. Symbolic links are not
    /// followed.
    pub fn lookup_path(&self, path: &str) -> (r: Result<Inode>)
        requires
            self.ready(),
        ensures
            crate::error::seen(r) == path_outcome(self@.items, path.spec_bytes()),
    {
        let b = path.as_bytes();
        let mut inode = match self.root_inode() {
            Ok(inode) => inode,
            Err(e) => return Err(e),
        };
        let mut at: usize = 0;
        while at < b.len()
            invariant
                self.ready(),
                b@ == path.spec_bytes(),
                path_outcome(self@.items, b@) == resolved(
                    self@.items,
                    inode,
                    components(b@, at as int),
                ),
            decreases b@.len() - at,
        {
            let end: usize = next_slash(b, at);
            let part = vstd::slice::slice_subrange(b, at, end);
            let ghost parts = components(b@, at as int);
            let ghost rest = components(b@, end + 1);
            if part.len() == 0 || is_dot_name(part) {
                // Neither names anything.
            } else {
                assert(parts[0] == part@);
                assert(parts.drop_first() =~= rest);
                if is_dot_dot_name(part) {
                    return Err(
                        Error::UnsupportedFeature(
                            "`..` in a path is not resolved by lookup_path".to_owned(),
                        ),
                    );
                }
                if !inode.is_dir() {
                    return Err(Error::NotADirectory);
                }
                inode = match self.lookup(inode.ino, part) {
                    Ok(inode) => inode,
                    Err(e) => return Err(e),
                };
            }
            if end == b.len() {
                assert(rest =~= components(b@, b@.len() as int));
                at = end;
            } else {
                at = end + 1;
            }
        }
        Ok(inode)
    }

    /// List a directory by path.
    pub fn list_path(&self, path: &str) -> (r: Result<Vec<DirEntry>>)
        requires
            self.ready(),
        ensures
            entries_seen(r) == (match path_outcome(self@.items, path.spec_bytes()) {
                Err(e) => Err(e),
                Ok(inode) => dir_outcome(self@.items, inode.ino),
            }),
    {
        match self.lookup_path(path) {
            Ok(inode) => self.read_dir(inode.ino),
            Err(e) => Err(e),
        }
    }

    /// Read a whole file by path.
    pub fn read_path(&self, path: &str) -> (r: Result<Vec<u8>>)
        requires
            self.ready(),
        ensures
            self.faithful() ==> crate::error::viewed(r) == (match path_outcome(
                self@.items,
                path.spec_bytes(),
            ) {
                Err(e) => Err(e),
                Ok(inode) => read::file_outcome(self@, inode.ino),
            }),
    {
        match self.lookup_path(path) {
            Ok(inode) => self.read_file(inode.ino),
            Err(e) => Err(e),
        }
    }
}

/// The position of the first `/` of `path` from `at` on, or its end.
fn next_slash(path: &[u8], at: usize) -> (end: usize)
    requires
        at <= path@.len(),
    ensures
        end == slash_from(path@, at as int),
        at <= end <= path@.len(),
{
    let mut end: usize = at;
    while end < path.len() && path[end] != 0x2F
        invariant
            at <= end <= path@.len(),
            slash_from(path@, at as int) == slash_from(path@, end as int),
        decreases path@.len() - end,
    {
        end = end + 1;
    }
    end
}

} // verus!
