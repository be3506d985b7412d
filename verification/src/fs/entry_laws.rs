//! What the records of a directory say of what a name leads to.

use vstd::prelude::*;

use crate::btree::ItemModel;
use crate::bytes;
use crate::chunk::DiskKey;
use crate::dir;
use crate::dir::record_laws;
use crate::dir::DirEntryModel;
use crate::error::ErrorView;
use crate::fs::namespace;
use crate::fs::xattrs;
use crate::hashes;
use crate::inode;
use crate::inode::{FileType, Inode};
use crate::item_map;
use crate::leaf_edit;
use crate::xattr;
use crate::xattr::XattrModel;

verus! {

/// The offset that a record for `name` is filed under.
pub open spec fn hash(name: Seq<u8>) -> u64 {
    (0xffff_ffff - hashes::crc32c_from(1, name)) as u64
}

/// Whether `name` is `.` or `..`.
pub open spec fn dots(name: Seq<u8>) -> bool {
    name == seq![0x2Eu8] || name == seq![0x2Eu8, 0x2Eu8]
}

/// Whether record `i` of `data` is the first that bears `name`.
pub open spec fn first_named(data: Seq<u8>, i: int, name: Seq<u8>) -> bool {
    let s = record_laws::starts(data, 0);
    &&& 0 <= i < s.len()
    &&& record_laws::name(data, s[i]) == name
    &&& forall|j: int| 0 <= j < i ==> record_laws::name(data, #[trigger] s[j]) != name
}

/// Whether no record of `data` bears `name`.
pub open spec fn none_named(data: Seq<u8>, name: Seq<u8>) -> bool {
    forall|j: int|
        0 <= j < record_laws::starts(data, 0).len() ==> record_laws::name(
            data,
            #[trigger] record_laws::starts(data, 0)[j],
        ) != name
}

/// Whether inode `ino` is a directory.
pub open spec fn is_dir(items: Seq<ItemModel>, ino: u64) -> bool {
    namespace::inode_of(items, ino) matches Ok(d) && inode::type_of_mode(d.mode) == Some(
        FileType::Directory,
    )
}

/// The item under a key is the one that is filed under it.
proof fn lemma_under(items: Seq<ItemModel>, x: ItemModel)
    requires
        leaf_edit::sorted(items),
        items.contains(x),
    ensures
        item_map::data_under(items, x.key) == Some(x.data),
{
    leaf_edit::law_present_means_held(items, x.key);
    leaf_edit::lemma_position(items, x.key);
    let i = choose|i: int| 0 <= i < items.len() && items[i] == x;
    assert(items[i].key == x.key);
    let at = leaf_edit::position(items, x.key);
    if i < at {
        assert(crate::btree::key_less(items[i].key, x.key));
    } else if at < i {
        assert(crate::btree::key_less(items[at].key, items[i].key));
    }
}

proof fn lemma_not_under(items: Seq<ItemModel>, key: DiskKey)
    requires
        leaf_edit::sorted(items),
        forall|x: ItemModel| #[trigger] items.contains(x) ==> x.key != key,
    ensures
        item_map::data_under(items, key) is None,
{
    leaf_edit::law_present_means_held(items, key);
    if leaf_edit::present(items, key) {
        let at = leaf_edit::position(items, key);
        leaf_edit::lemma_position(items, key);
        assert(items.contains(items[at]));
    }
}

proof fn lemma_named_push(list: Seq<DirEntryModel>, e: DirEntryModel, name: Seq<u8>, k: int)
    requires
        0 <= k <= list.len(),
    ensures
        namespace::entry_named(list.push(e), name, k) == (match namespace::entry_named(
            list,
            name,
            k,
        ) {
            Some(found) => Some(found),
            None => if e.name == name {
                Some(e)
            } else {
                None
            },
        }),
    decreases list.len() - k,
{
    let more = list.push(e);
    if k < list.len() {
        assert(more[k] == list[k]);
        lemma_named_push(list, e, name, k + 1);
    } else {
        assert(more[k] == e);
        assert(namespace::entry_named(more, name, k + 1) is None);
    }
}

proof fn lemma_named_first(es: Seq<DirEntryModel>, name: Seq<u8>, i: int)
    requires
        !dots(name),
        0 <= i < es.len(),
        es[i].name == name,
        forall|j: int| 0 <= j < i ==> (#[trigger] es[j]).name != name,
    ensures
        namespace::entry_named(namespace::without_dots(es), name, 0) == Some(es[i]),
    decreases es.len(),
{
    let front = es.drop_last();
    let kept = namespace::without_dots(front);
    lemma_named_push(kept, es.last(), name, 0);
    if i < front.len() {
        assert forall|j: int| 0 <= j < i implies (#[trigger] front[j]).name != name by {
            assert(front[j] == es[j]);
        }
        lemma_named_first(front, name, i);
    } else {
        assert forall|j: int| 0 <= j < front.len() implies (#[trigger] front[j]).name != name by {
            assert(front[j] == es[j]);
        }
        lemma_named_none(front, name);
    }
}

proof fn lemma_named_none(es: Seq<DirEntryModel>, name: Seq<u8>)
    requires
        forall|j: int| 0 <= j < es.len() ==> (#[trigger] es[j]).name != name,
    ensures
        namespace::entry_named(namespace::without_dots(es), name, 0) is None,
    decreases es.len(),
{
    if es.len() > 0 {
        let front = es.drop_last();
        assert forall|j: int| 0 <= j < front.len() implies (#[trigger] front[j]).name != name by {
            assert(front[j] == es[j]);
        }
        lemma_named_none(front, name);
        lemma_named_push(namespace::without_dots(front), es.last(), name, 0);
    }
}

/// A name leads to what the first record that bears it names, among those
/// filed under its hash in the directory: the inode of that number where the
/// record names an inode, and a refusal where it names a subvolume.
pub proof fn law_a_name_leads_where_its_record_says(
    items: Seq<ItemModel>,
    d: u64,
    name: Seq<u8>,
    x: ItemModel,
    i: int,
)
    requires
        leaf_edit::sorted(items),
        is_dir(items, d),
        !dots(name),
        items.contains(x),
        x.key.objectid == d,
        x.key.key_type == 84,
        x.key.offset == hash(name),
        record_laws::readable(x.data),
        first_named(x.data, i, name),
    ensures
        ({
            let p = record_laws::starts(x.data, 0)[i];
            if x.data[p + 8] == 1 {
                namespace::lookup_outcome(items, d, name) == namespace::inode_of(
                    items,
                    bytes::u64_at(x.data, p),
                )
            } else {
                namespace::lookup_outcome(items, d, name) matches Err(e) && e is UnsupportedFeature
            }
        }),
{
    lemma_under(items, x);
    record_laws::law_entries_are_the_records(x.data);
    let s = record_laws::starts(x.data, 0);
    let es = dir::entries_from(x.data, 0, Seq::empty())->Ok_0;
    assert(record_laws::describes(x.data, s[i], es[i]));
    assert forall|j: int| 0 <= j < i implies (#[trigger] es[j]).name != name by {
        assert(record_laws::describes(x.data, s[j], es[j]));
    }
    lemma_named_first(es, name, i);
    assert(x.key == DiskKey { objectid: d, key_type: 84, offset: dir::hash_of(name) });
}

/// A name that no record filed under its hash in the directory bears is not
/// found.
pub proof fn law_a_name_without_a_record_is_not_found(
    items: Seq<ItemModel>,
    d: u64,
    name: Seq<u8>,
)
    requires
        leaf_edit::sorted(items),
        is_dir(items, d),
        forall|x: ItemModel| #[trigger]
            items.contains(x) && x.key.objectid == d && x.key.key_type == 84 && x.key.offset
                == hash(name) ==> record_laws::readable(x.data) && none_named(x.data, name),
    ensures
        namespace::lookup_outcome(items, d, name) == Err::<Inode, ErrorView>(ErrorView::NotFound),
{
    let key = DiskKey { objectid: d, key_type: 84, offset: dir::hash_of(name) };
    if exists|x: ItemModel| #[trigger] items.contains(x) && x.key == key {
        let x = choose|x: ItemModel| #[trigger] items.contains(x) && x.key == key;
        lemma_under(items, x);
        record_laws::law_entries_are_the_records(x.data);
        let s = record_laws::starts(x.data, 0);
        let es = dir::entries_from(x.data, 0, Seq::empty())->Ok_0;
        assert forall|j: int| 0 <= j < es.len() implies (#[trigger] es[j]).name != name by {
            assert(record_laws::describes(x.data, s[j], es[j]));
            assert(record_laws::name(x.data, s[j]) != name);
        }
        lemma_named_none(es, name);
    } else {
        assert forall|x: ItemModel| #[trigger] items.contains(x) implies x.key != key by {}
        lemma_not_under(items, key);
    }
}

/// Nothing is looked up in, and nothing listed of, what is no directory.
pub proof fn law_only_a_directory_has_entries(items: Seq<ItemModel>, d: u64, name: Seq<u8>)
    requires
        !is_dir(items, d),
    ensures
        namespace::lookup_outcome(items, d, name) is Err,
        namespace::dir_outcome(items, d) is Err,
{
}

/// Whether an index item of directory `d` at offset `o` has a record that
/// describes `e`.
pub open spec fn indexed(items: Seq<ItemModel>, d: u64, o: u64, e: DirEntryModel) -> bool {
    exists|x: ItemModel, i: int|
        #![trigger items.contains(x), record_laws::starts(x.data, 0)[i]]
        items.contains(x) && x.key == (DiskKey { objectid: d, key_type: 96, offset: o }) && 0 <= i
            < record_laws::starts(x.data, 0).len() && record_laws::describes(
            x.data,
            record_laws::starts(x.data, 0)[i],
            e,
        )
}

/// Whether `o` are offsets of index items of directory `d`, not descending,
/// each of an item that has a record for the entry in the same place.
pub open spec fn in_index_order(
    items: Seq<ItemModel>,
    d: u64,
    entries: Seq<DirEntryModel>,
    o: Seq<u64>,
) -> bool {
    &&& o.len() == entries.len()
    &&& forall|i: int, j: int| 0 <= i < j < o.len() ==> #[trigger] o[i] <= #[trigger] o[j]
    &&& forall|i: int| 0 <= i < o.len() ==> indexed(items, d, #[trigger] o[i], entries[i])
}

proof fn lemma_kept(es: Seq<DirEntryModel>)
    ensures
        forall|e: DirEntryModel| #[trigger]
            namespace::without_dots(es).contains(e) <==> es.contains(e) && !dots(e.name),
    decreases es.len(),
{
    if es.len() > 0 {
        let front = es.drop_last();
        let before = namespace::without_dots(front);
        let all = namespace::without_dots(es);
        lemma_kept(front);
        assert forall|e: DirEntryModel| #[trigger] all.contains(e) <==> es.contains(e) && !dots(
            e.name,
        ) by {
            if all.contains(e) {
                let k = choose|k: int| 0 <= k < all.len() && all[k] == e;
                if k < before.len() {
                    assert(before[k] == e);
                    assert(before.contains(e));
                    let m = choose|m: int| 0 <= m < front.len() && front[m] == e;
                    assert(es[m] == e);
                } else {
                    assert(es[es.len() - 1] == e);
                }
            }
            if es.contains(e) && !dots(e.name) {
                let m = choose|m: int| 0 <= m < es.len() && es[m] == e;
                if m < front.len() {
                    assert(front[m] == e);
                    assert(before.contains(e));
                    let k = choose|k: int| 0 <= k < before.len() && before[k] == e;
                    assert(all[k] == e);
                } else {
                    assert(all[all.len() - 1] == e);
                }
            }
        }
    }
}

proof fn lemma_kind_in_order(s: Seq<ItemModel>, d: u64, kind: u8)
    requires
        leaf_edit::sorted(s),
    ensures
        ({
            let f = item_map::of_kind(s, d, kind);
            &&& forall|i: int, j: int|
                0 <= i < j < f.len() ==> (#[trigger] f[i]).key.offset <= (
                #[trigger] f[j]).key.offset
            &&& forall|i: int|
                0 <= i < f.len() ==> s.contains(#[trigger] f[i]) && f[i].key.objectid == d
                    && f[i].key.key_type == kind
            &&& forall|x: ItemModel| #[trigger]
                s.contains(x) && x.key.objectid == d && x.key.key_type == kind ==> f.contains(x)
        }),
{
    let keep = item_map::is_kind(d, kind);
    let f = item_map::of_kind(s, d, kind);
    crate::fs::laws::lemma_filter_keeps_order(s, d, kind);
    assert forall|i: int| 0 <= i < f.len() implies s.contains(#[trigger] f[i])
        && f[i].key.objectid == d && f[i].key.key_type == kind by {
        assert(keep(f[i]));
    }
    assert forall|x: ItemModel| #[trigger]
        s.contains(x) && x.key.objectid == d && x.key.key_type == kind implies f.contains(x) by {
        let at = choose|at: int| 0 <= at < s.len() && s[at] == x;
        assert(keep(s[at]));
        s.lemma_filter_contains(keep, at);
    }
}

proof fn lemma_listed(
    items: Seq<ItemModel>,
    d: u64,
    from: int,
    before: Seq<DirEntryModel>,
    o: Seq<u64>,
) -> (all_o: Seq<u64>)
    requires
        leaf_edit::sorted(items),
        ({
            let f = item_map::of_kind(items, d, 96);
            &&& 0 <= from <= f.len()
            &&& in_index_order(items, d, before, o)
            &&& forall|i: int|
                0 <= i < o.len() && from < f.len() ==> #[trigger] o[i] <= f[from].key.offset
            &&& namespace::listed_from(f, from, before) is Ok
        }),
    ensures
        ({
            let f = item_map::of_kind(items, d, 96);
            let all = namespace::listed_from(f, from, before)->Ok_0;
            &&& in_index_order(items, d, all, all_o)
            &&& forall|e: DirEntryModel| #[trigger] before.contains(e) ==> all.contains(e)
            &&& forall|k: int, i: int, e: DirEntryModel|
                #![trigger record_laws::describes(
                    f[k].data,
                    record_laws::starts(f[k].data, 0)[i],
                    e,
                )]
                from <= k < f.len() && 0 <= i < record_laws::starts(f[k].data, 0).len()
                    && record_laws::describes(
                    f[k].data,
                    record_laws::starts(f[k].data, 0)[i],
                    e,
                ) && !dots(e.name) ==> all.contains(e)
        }),
    decreases item_map::of_kind(items, d, 96).len() - from,
{
    let f = item_map::of_kind(items, d, 96);
    lemma_kind_in_order(items, d, 96);
    if from == f.len() {
        o
    } else {
        let data = f[from].data;
        let s = record_laws::starts(data, 0);
        record_laws::law_entries_are_the_records(data);
        let es = dir::entries_from(data, 0, Seq::empty())->Ok_0;
        let kept = namespace::without_dots(es);
        lemma_kept(es);
        let next = before + kept;
        let at = f[from].key.offset;
        let more = Seq::new(kept.len(), |i: int| at);
        let next_o = o + more;
        assert(in_index_order(items, d, next, next_o)) by {
            assert forall|i: int| 0 <= i < next_o.len() implies indexed(
                items,
                d,
                #[trigger] next_o[i],
                next[i],
            ) by {
                if i < o.len() {
                    assert(next_o[i] == o[i] && next[i] == before[i]);
                } else {
                    let e = kept[i - before.len()];
                    assert(next[i] == e);
                    assert(kept.contains(e));
                    let m = choose|m: int| 0 <= m < es.len() && es[m] == e;
                    assert(record_laws::describes(data, s[m], es[m]));
                    assert(items.contains(f[from]));
                    assert(f[from].key == DiskKey { objectid: d, key_type: 96, offset: at });
                }
            }
        }
        let all_o = lemma_listed(items, d, from + 1, next, next_o);
        let all = namespace::listed_from(f, from, before)->Ok_0;
        assert forall|e: DirEntryModel| #[trigger] before.contains(e) implies all.contains(e) by {
            let k = choose|k: int| 0 <= k < before.len() && before[k] == e;
            assert(next[k] == e);
            assert(next.contains(e));
        }
        assert forall|k: int, i: int, e: DirEntryModel|
            #![trigger record_laws::describes(f[k].data, record_laws::starts(f[k].data, 0)[i], e)]
            from <= k < f.len() && 0 <= i < record_laws::starts(f[k].data, 0).len()
                && record_laws::describes(f[k].data, record_laws::starts(f[k].data, 0)[i], e)
                && !dots(e.name) implies all.contains(e) by {
            if k == from {
                assert(record_laws::describes(data, s[i], es[i]));
                assert(es[i] == e);
                assert(es.contains(e));
                assert(kept.contains(e));
                let m = choose|m: int| 0 <= m < kept.len() && kept[m] == e;
                assert(next[before.len() + m] == e);
                assert(next.contains(e));
            }
        }
        all_o
    }
}

/// A directory lists what the records of its index describe, but for `.` and
/// `..`, and lists it in the order of the index.
pub proof fn law_a_listing_is_the_index(items: Seq<ItemModel>, d: u64)
    requires
        leaf_edit::sorted(items),
        namespace::dir_outcome(items, d) is Ok,
    ensures
        ({
            let entries = namespace::dir_outcome(items, d)->Ok_0;
            &&& is_dir(items, d)
            &&& exists|o: Seq<u64>| #[trigger] in_index_order(items, d, entries, o)
            &&& forall|i: int| 0 <= i < entries.len() ==> !dots((#[trigger] entries[i]).name)
            &&& forall|o: u64, e: DirEntryModel| #[trigger]
                indexed(items, d, o, e) && !dots(e.name) ==> entries.contains(e)
        }),
{
    let f = item_map::of_kind(items, d, 96);
    let entries = namespace::dir_outcome(items, d)->Ok_0;
    let o = lemma_listed(items, d, 0, Seq::empty(), Seq::empty());
    assert(in_index_order(items, d, entries, o));
    namespace::law_a_listing_has_no_dots(items, d);
    lemma_kind_in_order(items, d, 96);
    assert forall|o: u64, e: DirEntryModel| #[trigger]
        indexed(items, d, o, e) && !dots(e.name) implies entries.contains(e) by {
        let (x, i) = choose|x: ItemModel, i: int|
            #![trigger items.contains(x), record_laws::starts(x.data, 0)[i]]
            items.contains(x) && x.key == (DiskKey { objectid: d, key_type: 96, offset: o }) && 0
                <= i < record_laws::starts(x.data, 0).len() && record_laws::describes(
                x.data,
                record_laws::starts(x.data, 0)[i],
                e,
            );
        assert(f.contains(x));
        let k = choose|k: int| 0 <= k < f.len() && f[k] == x;
        assert(record_laws::describes(f[k].data, record_laws::starts(f[k].data, 0)[i], e));
    }
}

proof fn lemma_value_first(es: Seq<XattrModel>, name: Seq<u8>, k: int, i: int)
    requires
        0 <= k <= i < es.len(),
        es[i].name == name,
        forall|j: int| 0 <= j < i ==> (#[trigger] es[j]).name != name,
    ensures
        xattrs::value_named(es, name, k) == Some(es[i].value),
    decreases i - k,
{
    if k < i {
        lemma_value_first(es, name, k + 1, i);
    }
}

proof fn lemma_value_none(es: Seq<XattrModel>, name: Seq<u8>, k: int)
    requires
        0 <= k,
        forall|j: int| 0 <= j < es.len() ==> (#[trigger] es[j]).name != name,
    ensures
        xattrs::value_named(es, name, k) is None,
    decreases es.len() - k,
{
    if k < es.len() {
        assert(es[k].name != name);
        lemma_value_none(es, name, k + 1);
    }
}

/// The value of an attribute is the value of the first record that bears its
/// name, among those filed under the name's hash for the inode.
pub proof fn law_an_attribute_is_what_its_record_holds(
    items: Seq<ItemModel>,
    ino: u64,
    name: Seq<u8>,
    x: ItemModel,
    i: int,
)
    requires
        leaf_edit::sorted(items),
        namespace::inode_of(items, ino) is Ok,
        items.contains(x),
        x.key.objectid == ino,
        x.key.key_type == 24,
        x.key.offset == hash(name),
        xattr::xattrs_outcome(x.data) is Ok,
        first_named(x.data, i, name),
    ensures
        xattrs::value_under(items, ino, dir::hash_of(name), name) == Ok::<
            Option<Seq<u8>>,
            ErrorView,
        >(Some(record_laws::value(x.data, record_laws::starts(x.data, 0)[i]))),
{
    lemma_under(items, x);
    record_laws::law_attributes_are_the_records(x.data);
    let s = record_laws::starts(x.data, 0);
    let es = xattr::xattrs_outcome(x.data)->Ok_0;
    assert(es[i].name == record_laws::name(x.data, s[i]));
    assert forall|j: int| 0 <= j < i implies (#[trigger] es[j]).name != name by {
        assert(es[j].name == record_laws::name(x.data, s[j]));
    }
    lemma_value_first(es, name, 0, i);
    assert(x.key == DiskKey { objectid: ino, key_type: 24, offset: dir::hash_of(name) });
}

/// An attribute that no record filed under its hash bears is not there.
pub proof fn law_an_attribute_without_a_record_is_not_there(
    items: Seq<ItemModel>,
    ino: u64,
    name: Seq<u8>,
)
    requires
        leaf_edit::sorted(items),
        namespace::inode_of(items, ino) is Ok,
        forall|x: ItemModel| #[trigger]
            items.contains(x) && x.key.objectid == ino && x.key.key_type == 24 && x.key.offset
                == hash(name) ==> xattr::xattrs_outcome(x.data) is Ok && none_named(x.data, name),
    ensures
        xattrs::value_under(items, ino, dir::hash_of(name), name) == Ok::<
            Option<Seq<u8>>,
            ErrorView,
        >(None),
{
    let key = DiskKey { objectid: ino, key_type: 24, offset: dir::hash_of(name) };
    if exists|x: ItemModel| #[trigger] items.contains(x) && x.key == key {
        let x = choose|x: ItemModel| #[trigger] items.contains(x) && x.key == key;
        lemma_under(items, x);
        record_laws::law_attributes_are_the_records(x.data);
        let s = record_laws::starts(x.data, 0);
        let es = xattr::xattrs_outcome(x.data)->Ok_0;
        assert forall|j: int| 0 <= j < es.len() implies (#[trigger] es[j]).name != name by {
            assert(es[j].name == record_laws::name(x.data, s[j]));
            assert(record_laws::name(x.data, s[j]) != name);
        }
        lemma_value_none(es, name, 0);
    } else {
        assert forall|x: ItemModel| #[trigger] items.contains(x) implies x.key != key by {}
        lemma_not_under(items, key);
    }
}

/// Whether some attribute item of inode `ino` has a record of that name and
/// value.
pub open spec fn recorded(items: Seq<ItemModel>, ino: u64, e: XattrModel) -> bool {
    exists|x: ItemModel, i: int|
        #![trigger items.contains(x), record_laws::starts(x.data, 0)[i]]
        items.contains(x) && x.key.objectid == ino && x.key.key_type == 24 && 0 <= i
            < record_laws::starts(x.data, 0).len() && e.name == record_laws::name(
            x.data,
            record_laws::starts(x.data, 0)[i],
        ) && e.value == record_laws::value(x.data, record_laws::starts(x.data, 0)[i])
}

proof fn lemma_attributes(items: Seq<ItemModel>, ino: u64, from: int, before: Seq<XattrModel>)
    requires
        leaf_edit::sorted(items),
        0 <= from <= item_map::of_kind(items, ino, 24).len(),
        forall|i: int| 0 <= i < before.len() ==> recorded(items, ino, #[trigger] before[i]),
        xattrs::attributes_from(item_map::of_kind(items, ino, 24), from, before) is Ok,
    ensures
        ({
            let f = item_map::of_kind(items, ino, 24);
            let all = xattrs::attributes_from(f, from, before)->Ok_0;
            &&& forall|i: int| 0 <= i < all.len() ==> recorded(items, ino, #[trigger] all[i])
            &&& forall|e: XattrModel| #[trigger] before.contains(e) ==> all.contains(e)
            &&& forall|k: int, i: int|
                #![trigger record_laws::starts(f[k].data, 0)[i]]
                from <= k < f.len() && 0 <= i < record_laws::starts(f[k].data, 0).len()
                    ==> all.contains(
                    XattrModel {
                        name: record_laws::name(
                            f[k].data,
                            record_laws::starts(f[k].data, 0)[i],
                        ),
                        value: record_laws::value(
                            f[k].data,
                            record_laws::starts(f[k].data, 0)[i],
                        ),
                    },
                )
        }),
    decreases item_map::of_kind(items, ino, 24).len() - from,
{
    let f = item_map::of_kind(items, ino, 24);
    lemma_kind_in_order(items, ino, 24);
    if from < f.len() {
        let data = f[from].data;
        let s = record_laws::starts(data, 0);
        record_laws::law_attributes_are_the_records(data);
        let es = xattr::xattrs_outcome(data)->Ok_0;
        let next = before + es;
        assert(items.contains(f[from]));
        assert forall|i: int| 0 <= i < next.len() implies recorded(
            items,
            ino,
            #[trigger] next[i],
        ) by {
            if i < before.len() {
                assert(next[i] == before[i]);
            } else {
                let m = i - before.len();
                assert(next[i] == es[m]);
                assert(es[m].name == record_laws::name(data, s[m]));
                assert(record_laws::starts(f[from].data, 0)[m] == s[m]);
            }
        }
        lemma_attributes(items, ino, from + 1, next);
        let all = xattrs::attributes_from(f, from, before)->Ok_0;
        assert forall|e: XattrModel| #[trigger] before.contains(e) implies all.contains(e) by {
            let k = choose|k: int| 0 <= k < before.len() && before[k] == e;
            assert(next[k] == e);
            assert(next.contains(e));
        }
        assert forall|k: int, i: int|
            #![trigger record_laws::starts(f[k].data, 0)[i]]
            from <= k < f.len() && 0 <= i < record_laws::starts(
                f[k].data,
                0,
            ).len() implies all.contains(
            XattrModel {
                name: record_laws::name(f[k].data, record_laws::starts(f[k].data, 0)[i]),
                value: record_laws::value(f[k].data, record_laws::starts(f[k].data, 0)[i]),
            },
        ) by {
            if k == from {
                assert(next[before.len() + i] == es[i]);
                assert(es[i] == XattrModel {
                    name: record_laws::name(data, s[i]),
                    value: record_laws::value(data, s[i]),
                });
                assert(next.contains(es[i]));
            }
        }
    }
}

/// The attributes of an inode are those its attribute items record, and all of
/// them.
pub proof fn law_attributes_are_those_recorded(items: Seq<ItemModel>, ino: u64, e: XattrModel)
    requires
        leaf_edit::sorted(items),
        xattrs::listed(items, ino) is Ok,
    ensures
        xattrs::listed(items, ino)->Ok_0.contains(e) <==> recorded(items, ino, e),
{
    let f = item_map::of_kind(items, ino, 24);
    let all = xattrs::listed(items, ino)->Ok_0;
    lemma_attributes(items, ino, 0, Seq::empty());
    lemma_kind_in_order(items, ino, 24);
    if recorded(items, ino, e) {
        let (x, i) = choose|x: ItemModel, i: int|
            #![trigger items.contains(x), record_laws::starts(x.data, 0)[i]]
            items.contains(x) && x.key.objectid == ino && x.key.key_type == 24 && 0 <= i
                < record_laws::starts(x.data, 0).len() && e.name == record_laws::name(
                x.data,
                record_laws::starts(x.data, 0)[i],
            ) && e.value == record_laws::value(x.data, record_laws::starts(x.data, 0)[i]);
        assert(f.contains(x));
        let k = choose|k: int| 0 <= k < f.len() && f[k] == x;
        assert(all.contains(
            XattrModel {
                name: record_laws::name(f[k].data, record_laws::starts(f[k].data, 0)[i]),
                value: record_laws::value(f[k].data, record_laws::starts(f[k].data, 0)[i]),
            },
        ));
        assert(e =~= XattrModel {
            name: record_laws::name(f[k].data, record_laws::starts(f[k].data, 0)[i]),
            value: record_laws::value(f[k].data, record_laws::starts(f[k].data, 0)[i]),
        });
    }
    if all.contains(e) {
        let k = choose|k: int| 0 <= k < all.len() && all[k] == e;
        assert(recorded(items, ino, all[k]));
    }
}

} // verus!
