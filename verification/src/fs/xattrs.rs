//! Extended attributes of an inode.
//!
//! An attribute is filed under the hash of its fully-qualified name. Names
//! that share a hash share an item, so an item is a list, and every record of
//! it counts.

use vstd::prelude::*;

use crate::btree;
use crate::btree::ItemModel;
use crate::bytes::{copy_range, same_bytes};
use crate::chunk::DiskKey;
use crate::dir;
use crate::dir::{name_hash, XATTR_ITEM_KEY};
use crate::error::{ErrorView, Result};
use crate::fs::namespace;
use crate::fs::Filesystem;
use crate::item_map;
use crate::leaf_edit;
use crate::xattr;
use crate::xattr::{parse_xattr_items, XattrEntry, XattrModel};

verus! {

/// The attributes the items `from ..` hold, behind `before`.
pub open spec fn attributes_from(items: Seq<ItemModel>, from: int, before: Seq<XattrModel>) -> std::result::Result<
    Seq<XattrModel>,
    ErrorView,
>
    decreases items.len() - from,
{
    if from < 0 || from >= items.len() {
        Ok(before)
    } else {
        match xattr::xattrs_outcome(items[from].data) {
            Err(e) => Err(e),
            Ok(entries) => attributes_from(items, from + 1, before + entries),
        }
    }
}

/// What listing the attributes of inode `ino` gives.
pub open spec fn listed(items: Seq<ItemModel>, ino: u64) -> std::result::Result<
    Seq<XattrModel>,
    ErrorView,
> {
    match namespace::inode_of(items, ino) {
        Err(e) => Err(e),
        Ok(_) => attributes_from(
            item_map::of_kind(items, ino, XATTR_ITEM_KEY),
            0,
            Seq::empty(),
        ),
    }
}

/// The value of the first of the attributes `from ..` that bears `name`.
pub open spec fn value_named(entries: Seq<XattrModel>, name: Seq<u8>, from: int) -> Option<Seq<u8>>
    decreases entries.len() - from,
{
    if from < 0 || from >= entries.len() {
        None
    } else if entries[from].name == name {
        Some(entries[from].value)
    } else {
        value_named(entries, name, from + 1)
    }
}

/// The value of attribute `name`, whose hash is `hash`, of inode `ino`.
pub open spec fn value_under(items: Seq<ItemModel>, ino: u64, hash: u64, name: Seq<u8>) -> std::result::Result<
    Option<Seq<u8>>,
    ErrorView,
> {
    match namespace::inode_of(items, ino) {
        Err(e) => Err(e),
        Ok(_) => match item_map::data_under(
            items,
            DiskKey { objectid: ino, key_type: XATTR_ITEM_KEY, offset: hash },
        ) {
            None => Ok(None),
            Some(data) => match xattr::xattrs_outcome(data) {
                Err(e) => Err(e),
                Ok(entries) => Ok(value_named(entries, name, 0)),
            },
        },
    }
}

/// What a list of attributes, or the error in its place, holds.
pub open spec fn entries_seen(r: Result<Vec<XattrEntry>>) -> std::result::Result<
    Seq<XattrModel>,
    ErrorView,
> {
    match r {
        Ok(entries) => Ok(xattr::xattr_models(entries@)),
        Err(e) => Err(e@),
    }
}

/// What a value, its absence, or the error in its place, holds.
pub open spec fn value_seen(r: Result<Option<Vec<u8>>>) -> std::result::Result<
    Option<Seq<u8>>,
    ErrorView,
> {
    match r {
        Ok(Some(value)) => Ok(Some(value@)),
        Ok(None) => Ok(None),
        Err(e) => Err(e@),
    }
}

impl<R: Fn(usize, u64, usize) -> Result<Vec<u8>>> Filesystem<R> {
    /// Every extended attribute of an inode, in the order of their hashes.
    pub fn list_xattrs(&self, ino: u64) -> (r: Result<Vec<XattrEntry>>)
        requires
            self.ready(),
        ensures
            entries_seen(r) == listed(self@.items, ino),
    {
        if let Err(e) = self.read_inode(ino) {
            return Err(e);
        }
        let items = self.items.range(ino, XATTR_ITEM_KEY);
        let ghost all = btree::models(items@);
        let mut out: Vec<XattrEntry> = Vec::new();
        assert(xattr::xattr_models(out@) =~= Seq::<XattrModel>::empty());
        let mut i: usize = 0;
        while i < items.len()
            invariant
                i <= items@.len(),
                all == btree::models(items@),
                listed(self@.items, ino) == attributes_from(
                    all,
                    i as int,
                    xattr::xattr_models(out@),
                ),
            decreases items@.len() - i,
        {
            assert(all[i as int] == items@[i as int]@);
            let ghost before = xattr::xattr_models(out@);
            let mut entries = match parse_xattr_items(items[i].data.as_slice()) {
                Ok(entries) => entries,
                Err(e) => return Err(e),
            };
            let ghost added = xattr::xattr_models(entries@);
            out.append(&mut entries);
            assert(xattr::xattr_models(out@) =~= before + added);
            i = i + 1;
        }
        Ok(out)
    }

    /// The value of one extended attribute of an inode, by its
    /// fully-qualified name. `None` where the inode has no such attribute,
    /// which an empty value is not.
    pub fn get_xattr(&self, ino: u64, name: &[u8]) -> (r: Result<Option<Vec<u8>>>)
        requires
            self.ready(),
        ensures
            value_seen(r) == value_under(self@.items, ino, dir::hash_of(name@), name@),
    {
        self.get_xattr_hashed(ino, name_hash(name), name)
    }

    /// The value of the extended attribute `name`, whose hash is `hash`.
    pub fn get_xattr_hashed(&self, ino: u64, hash: u64, name: &[u8]) -> (r: Result<
        Option<Vec<u8>>,
    >)
        requires
            self.ready(),
        ensures
            value_seen(r) == value_under(self@.items, ino, hash, name@),
    {
        if let Err(e) = self.read_inode(ino) {
            return Err(e);
        }
        let key = DiskKey { objectid: ino, key_type: XATTR_ITEM_KEY, offset: hash };
        let parsed = match self.items.get(&key) {
            Some(data) => parse_xattr_items(data),
            None => return Ok(None),
        };
        let entries = match parsed {
            Ok(entries) => entries,
            Err(e) => return Err(e),
        };
        let ghost all = xattr::xattr_models(entries@);
        let mut i: usize = 0;
        while i < entries.len()
            invariant
                i <= entries@.len(),
                all == xattr::xattr_models(entries@),
                value_under(self@.items, ino, hash, name@) == Ok::<Option<Seq<u8>>, ErrorView>(
                    value_named(all, name@, i as int),
                ),
            decreases entries@.len() - i,
        {
            let entry = &entries[i];
            assert(all[i as int] == entry@);
            if same_bytes(entry.name.as_slice(), name) {
                let value = copy_range(entry.value.as_slice(), 0, entry.value.len());
                assert(value@ =~= entry.value@);
                return Ok(Some(value));
            }
            i = i + 1;
        }
        Ok(None)
    }
}

proof fn lemma_value_is_listed(entries: Seq<XattrModel>, name: Seq<u8>, from: int)
    requires
        0 <= from,
    ensures
        value_named(entries, name, from) matches Some(value) ==> entries.contains(
            (XattrModel { name, value }),
        ),
    decreases entries.len() - from,
{
    if from < entries.len() {
        if entries[from].name == name {
            assert(entries[from] == (XattrModel { name, value: entries[from].value }));
        } else {
            lemma_value_is_listed(entries, name, from + 1);
        }
    }
}

/// What is listed stays listed, and what item `k` holds is listed.
proof fn lemma_item_is_listed(
    items: Seq<ItemModel>,
    from: int,
    before: Seq<XattrModel>,
    k: int,
    entry: XattrModel,
)
    requires
        0 <= from,
        attributes_from(items, from, before) is Ok,
        before.contains(entry) || (from <= k < items.len() && (xattr::xattrs_outcome(
            items[k].data,
        ) matches Ok(entries) && entries.contains(entry))),
    ensures
        attributes_from(items, from, before)->Ok_0.contains(entry),
    decreases items.len() - from,
{
    if from < items.len() {
        let entries = xattr::xattrs_outcome(items[from].data)->Ok_0;
        let next = before + entries;
        if before.contains(entry) {
            let i = choose|i: int| 0 <= i < before.len() && before[i] == entry;
            assert(next[i] == entry);
        } else if k == from {
            let i = choose|i: int| 0 <= i < entries.len() && entries[i] == entry;
            assert(next[before.len() + i] == entry);
        }
        lemma_item_is_listed(items, from + 1, next, k, entry);
    }
}

/// An attribute that is found is listed: the name with the value found under
/// it is among the attributes of the inode.
pub proof fn law_a_found_attribute_is_listed(
    items: Seq<ItemModel>,
    ino: u64,
    hash: u64,
    name: Seq<u8>,
    value: Seq<u8>,
)
    requires
        value_under(items, ino, hash, name) == Ok::<Option<Seq<u8>>, ErrorView>(Some(value)),
        listed(items, ino) is Ok,
    ensures
        listed(items, ino)->Ok_0.contains((XattrModel { name, value })),
{
    let key = DiskKey { objectid: ino, key_type: XATTR_ITEM_KEY, offset: hash };
    let at = leaf_edit::position(items, key);
    leaf_edit::lemma_position(items, key);
    let entries = xattr::xattrs_outcome(items[at].data)->Ok_0;
    lemma_value_is_listed(entries, name, 0);
    let kind = item_map::of_kind(items, ino, XATTR_ITEM_KEY);
    assert(items.contains(items[at]));
    assert(item_map::is_kind(ino, XATTR_ITEM_KEY)(items[at]));
    items.lemma_filter_contains_rev(item_map::is_kind(ino, XATTR_ITEM_KEY), items[at]);
    assert(kind.contains(items[at]));
    let k = choose|k: int| 0 <= k < kind.len() && kind[k] == items[at];
    lemma_item_is_listed(kind, 0, Seq::empty(), k, XattrModel { name, value });
}

} // verus!
