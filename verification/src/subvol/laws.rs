//! What a listing of subvolumes says, on the bytes of the root tree.

use vstd::prelude::*;

use crate::btree::ItemModel;
use crate::bytes;
use crate::error::ErrorView;
use crate::fs::FilesystemModel;
use crate::strings;
use crate::subvol;
use crate::subvol::SubvolumeModel;
use crate::volume;

verus! {

/// Whether an item of the root tree is the root item of a subvolume: of the
/// default one, or of one whose id lies in the range ids are given out from.
pub open spec fn roots_subvolume(item: ItemModel) -> bool {
    &&& item.key.key_type == 132
    &&& item.key.objectid == 5 || 256 <= item.key.objectid <= 0xFFFF_FFFF_FFFF_FF00
    &&& item.data.len() >= 216
}

/// Whether a listed subvolume is what the root item `item` says: where its
/// tree is, when it was last written and last snapshotted, that it may not be
/// written where the lowest bit of its flags is set, and that it is a
/// snapshot where its key's offset is not zero.
pub open spec fn says(item: ItemModel, v: SubvolumeModel) -> bool {
    &&& v.id == item.key.objectid
    &&& v.bytenr == bytes::u64_at(item.data, 176)
    &&& v.generation == bytes::u64_at(item.data, 160)
    &&& v.last_snapshot == bytes::u64_at(item.data, 200)
    &&& v.read_only == (item.data[208] % 2 == 1)
    &&& v.is_snapshot == (item.key.offset != 0)
}

/// The lowest bit of a field is that of its first byte.
proof fn lemma_lowest_bit(b: Seq<u8>, at: int)
    ensures
        (bytes::u64_at(b, at) & 1 != 0) == (b[at] % 2 == 1),
{
    reveal(bytes::u64_at);
    let v = bytes::u64_at(b, at);
    let sum: int = b[at] + 0x100 * b[at + 1] + 0x10000 * b[at + 2] + 0x1000000 * b[at + 3]
        + 0x100000000 * b[at + 4] + 0x10000000000 * b[at + 5] + 0x1000000000000 * b[at + 6]
        + 0x100000000000000 * b[at + 7];
    assert(v == sum);
    assert(v % 2 == b[at] % 2);
    assert(v & 1 == v % 2) by (bit_vector);
}

proof fn lemma_says(item: ItemModel, names: Map<u64, (u64, Seq<u8>)>)
    ensures
        match subvol::subvolume_of(item, names) {
            Some(v) => roots_subvolume(item) && says(item, v) && v.path == subvol::path_text(
                v.id,
                names,
            ) && v.parent == (if names.contains_key(v.id) {
                names[v.id].0
            } else {
                0
            }) && v.name == (if names.contains_key(v.id) {
                names[v.id].1
            } else {
                Seq::empty()
            }),
            None => !roots_subvolume(item),
        },
{
    lemma_lowest_bit(item.data, 208);
}

/// Whether a listed subvolume is what one of `items` says.
pub open spec fn said_by(items: Seq<ItemModel>, v: SubvolumeModel) -> bool {
    exists|i: int|
        0 <= i < items.len() && roots_subvolume(#[trigger] items[i]) && says(items[i], v)
}

proof fn lemma_listed(
    items: Seq<ItemModel>,
    from: int,
    names: Map<u64, (u64, Seq<u8>)>,
    list: Seq<SubvolumeModel>,
)
    requires
        0 <= from <= items.len(),
    ensures
        ({
            let all = subvol::listed_from(items, from, names, list);
            &&& forall|v: SubvolumeModel| #[trigger]
                all.contains(v) <==> list.contains(v) || exists|i: int|
                    from <= i < items.len() && subvol::subvolume_of(#[trigger] items[i], names)
                        == Some(v)
            &&& all.len() == list.len() + items.skip(from).filter(
                |i: ItemModel| roots_subvolume(i),
            ).len()
        }),
    decreases items.len() - from,
{
    let keep = |i: ItemModel| roots_subvolume(i);
    let all = subvol::listed_from(items, from, names, list);
    if from < items.len() {
        let rest = items.skip(from + 1);
        let tail = items.skip(from);
        assert(tail =~= seq![items[from]] + rest);
        lemma_filter_first(items[from], rest, keep);
        lemma_says(items[from], names);
        match subvol::subvolume_of(items[from], names) {
            Some(v) => {
                let at = subvol::place(list, v.id);
                subvol::lemma_place(list, v.id);
                let next = list.insert(at, v);
                lemma_inserted(list, at, v);
                lemma_listed(items, from + 1, names, next);
                assert forall|x: SubvolumeModel| #[trigger] all.contains(x) <==> list.contains(x)
                    || exists|i: int|
                    from <= i < items.len() && subvol::subvolume_of(#[trigger] items[i], names)
                        == Some(x) by {
                    if all.contains(x) && !list.contains(x) && next.contains(x) {
                        assert(subvol::subvolume_of(items[from], names) == Some(x));
                    }
                }
            },
            None => lemma_listed(items, from + 1, names, list),
        }
    } else {
        assert(items.skip(from) =~= Seq::<ItemModel>::empty());
        reveal(Seq::filter);
    }
}

proof fn lemma_filter_first(x: ItemModel, rest: Seq<ItemModel>, keep: spec_fn(ItemModel) -> bool)
    ensures
        (seq![x] + rest).filter(keep).len() == rest.filter(keep).len() + (if keep(x) {
            1int
        } else {
            0
        }),
    decreases rest.len(),
{
    reveal(Seq::filter);
    let all = seq![x] + rest;
    if rest.len() == 0 {
        assert(all.drop_last() =~= Seq::<ItemModel>::empty());
        assert(all.last() == x);
        assert(rest.filter(keep) =~= Seq::<ItemModel>::empty());
        assert(Seq::<ItemModel>::empty().filter(keep) =~= Seq::<ItemModel>::empty());
    } else {
        lemma_filter_first(x, rest.drop_last(), keep);
        assert(all.drop_last() =~= seq![x] + rest.drop_last());
        assert(all.last() == rest.last());
    }
}

proof fn lemma_inserted(list: Seq<SubvolumeModel>, at: int, v: SubvolumeModel)
    requires
        0 <= at <= list.len(),
    ensures
        forall|x: SubvolumeModel| #[trigger]
            list.insert(at, v).contains(x) <==> list.contains(x) || x == v,
{
    let next = list.insert(at, v);
    assert(next[at] == v);
    assert forall|x: SubvolumeModel| #[trigger] next.contains(x) <==> list.contains(x) || x == v by {
        if next.contains(x) && x != v {
            let i = choose|i: int| 0 <= i < next.len() && next[i] == x;
            if i < at {
                assert(list[i] == x);
            } else {
                assert(list[i - 1] == x);
            }
        }
        if list.contains(x) {
            let i = choose|i: int| 0 <= i < list.len() && list[i] == x;
            if i < at {
                assert(next[i] == x);
            } else {
                assert(next[i + 1] == x);
            }
        }
    }
}

/// A listing is the root items of the subvolumes and nothing else: each entry
/// says what a root item says, each such item has an entry, and there are as
/// many of the one as of the other. In particular an entry is a snapshot
/// exactly where the offset of its item's key is not zero.
pub proof fn law_a_listing_is_the_root_items(items: Seq<ItemModel>)
    ensures
        forall|n: int|
            0 <= n < subvol::subvolumes_in(items).len() ==> said_by(
                items,
                #[trigger] subvol::subvolumes_in(items)[n],
            ),
        forall|i: int|
            0 <= i < items.len() && roots_subvolume(#[trigger] items[i]) ==> exists|n: int|
                0 <= n < subvol::subvolumes_in(items).len() && says(
                    items[i],
                    #[trigger] subvol::subvolumes_in(items)[n],
                ),
        subvol::subvolumes_in(items).len() == items.filter(
            |i: ItemModel| roots_subvolume(i),
        ).len(),
{
    let names = subvol::names_from(items, 0, Map::empty());
    let list = subvol::subvolumes_in(items);
    lemma_listed(items, 0, names, Seq::empty());
    assert(items.skip(0) =~= items);
    assert forall|n: int| 0 <= n < list.len() implies said_by(items, #[trigger] list[n]) by {
        let v = list[n];
        assert(list.contains(v));
        let i = choose|i: int|
            0 <= i < items.len() && subvol::subvolume_of(#[trigger] items[i], names) == Some(v);
        lemma_says(items[i], names);
    }
    assert forall|i: int| 0 <= i < items.len() && roots_subvolume(#[trigger] items[i]) implies exists|
        n: int,
    | 0 <= n < list.len() && says(items[i], #[trigger] list[n]) by {
        lemma_says(items[i], names);
        let v = subvol::subvolume_of(items[i], names)->Some_0;
        assert(list.contains(v));
        let n = choose|n: int| 0 <= n < list.len() && list[n] == v;
        assert(says(items[i], list[n]));
    }
}

/// Whether item `j` is what the root tree says of where subvolume `id` is
/// reached: the one reference back from it, to `parent` under `name`.
pub open spec fn reached_by(
    items: Seq<ItemModel>,
    j: int,
    id: u64,
    parent: u64,
    name: Seq<u8>,
) -> bool {
    &&& 0 <= j < items.len()
    &&& items[j].key.objectid == id
    &&& items[j].key.key_type == 144
    &&& items[j].key.offset == parent
    &&& 18 + bytes::u16_at(items[j].data, 16) <= items[j].data.len()
    &&& name == items[j].data.subrange(18, 18 + bytes::u16_at(items[j].data, 16))
    &&& forall|k: int|
        0 <= k < items.len() && k != j && (#[trigger] items[k]).key.objectid == id
            ==> items[k].key.key_type != 144
}

proof fn lemma_named(
    items: Seq<ItemModel>,
    from: int,
    names: Map<u64, (u64, Seq<u8>)>,
    j: int,
    id: u64,
    parent: u64,
    name: Seq<u8>,
)
    requires
        0 <= from <= items.len(),
        256 <= id <= 0xFFFF_FFFF_FFFF_FF00,
        reached_by(items, j, id, parent, name),
        from > j ==> names.contains_key(id) && names[id] == (parent, name),
    ensures
        subvol::names_from(items, from, names).contains_key(id),
        subvol::names_from(items, from, names)[id] == (parent, name),
    decreases items.len() - from,
{
    if from < items.len() {
        let item = items[from];
        let next = if item.key.key_type == subvol::ROOT_BACKREF_KEY && subvol::names_subvolume(
            item.key.objectid,
        ) {
            match subvol::name_in(item.data) {
                Some(n) => names.insert(item.key.objectid, (item.key.offset, n)),
                None => names,
            }
        } else {
            names
        };
        assert(items[from].key.objectid == id ==> from == j || items[from].key.key_type != 144);
        lemma_named(items, from + 1, next, j, id, parent, name);
    }
}

proof fn lemma_unnamed(
    items: Seq<ItemModel>,
    from: int,
    names: Map<u64, (u64, Seq<u8>)>,
    id: u64,
)
    requires
        0 <= from <= items.len(),
        !names.contains_key(id),
        forall|k: int|
            0 <= k < items.len() && (#[trigger] items[k]).key.objectid == id
                ==> items[k].key.key_type != 144,
    ensures
        !subvol::names_from(items, from, names).contains_key(id),
    decreases items.len() - from,
{
    if from < items.len() {
        let item = items[from];
        let next = if item.key.key_type == subvol::ROOT_BACKREF_KEY && subvol::names_subvolume(
            item.key.objectid,
        ) {
            match subvol::name_in(item.data) {
                Some(n) => names.insert(item.key.objectid, (item.key.offset, n)),
                None => names,
            }
        } else {
            names
        };
        assert(items[from].key.objectid == id ==> items[from].key.key_type != 144);
        lemma_unnamed(items, from + 1, next, id);
    }
}

/// Parts of a path with slashes between, the last part first.
pub open spec fn along(labels: Seq<Seq<u8>>) -> Seq<char>
    decreases labels.len(),
{
    if labels.len() == 0 {
        Seq::empty()
    } else if labels.len() == 1 {
        strings::lossy(labels[0])
    } else {
        along(labels.skip(1)) + "/"@ + strings::lossy(labels[0])
    }
}

/// Whether `ids` lead from a subvolume up to the default one, each reached
/// from the next under its label, and none comes twice.
pub open spec fn leads_up(
    items: Seq<ItemModel>,
    ids: Seq<u64>,
    labels: Seq<Seq<u8>>,
    at: Seq<int>,
) -> bool {
    &&& ids.len() > 0
    &&& labels.len() == ids.len()
    &&& at.len() == ids.len()
    &&& ids.no_duplicates()
    &&& forall|k: int|
        0 <= k < ids.len() ==> 256 <= #[trigger] ids[k] <= 0xFFFF_FFFF_FFFF_FF00 && reached_by(
            items,
            at[k],
            ids[k],
            if k + 1 < ids.len() {
                ids[k + 1]
            } else {
                5
            },
            labels[k],
        )
}

/// The parts of a chain that is known.
spec fn knows(names: Map<u64, (u64, Seq<u8>)>, ids: Seq<u64>, labels: Seq<Seq<u8>>) -> bool {
    &&& labels.len() == ids.len()
    &&& forall|k: int|
        0 <= k < ids.len() ==> #[trigger] ids[k] != 5 && names.contains_key(ids[k])
            && names[ids[k]] == (
            if k + 1 < ids.len() {
                ids[k + 1]
            } else {
                5u64
            },
            labels[k],
        )
}

proof fn lemma_chain(
    names: Map<u64, (u64, Seq<u8>)>,
    ids: Seq<u64>,
    labels: Seq<Seq<u8>>,
    steps: nat,
)
    requires
        ids.len() > 0,
        knows(names, ids, labels),
        steps >= ids.len(),
    ensures
        subvol::joined(subvol::chain(names, ids[0], steps)) == along(labels),
        subvol::chain(names, ids[0], steps).len() == ids.len(),
    decreases ids.len(),
{
    let parts = subvol::chain(names, ids[0], steps);
    assert(ids[0] != 5 && names.contains_key(ids[0]));
    if ids.len() == 1 {
        assert(parts =~= seq![strings::lossy(labels[0])]);
    } else {
        let rest = ids.skip(1);
        let more = labels.skip(1);
        assert forall|k: int| 0 <= k < rest.len() implies #[trigger] rest[k] != 5
            && names.contains_key(rest[k]) && names[rest[k]] == (
            if k + 1 < rest.len() {
                rest[k + 1]
            } else {
                5u64
            },
            more[k],
        ) by {
            assert(ids[k + 1] != 5);
        }
        lemma_chain(names, rest, more, (steps - 1) as nat);
        assert(ids[1] != 5);
        let tail = subvol::chain(names, rest[0], (steps - 1) as nat);
        assert(parts =~= seq![strings::lossy(labels[0])] + tail);
        assert(parts.drop_first() =~= tail);
    }
}

/// A listed subvolume is found where the references lead: its parent and name
/// are those of its reference back, and its path is the names on the way up
/// to the default subvolume, the outermost first, with slashes between.
pub proof fn law_a_path_leads_up_to_the_default_subvolume(
    items: Seq<ItemModel>,
    n: int,
    ids: Seq<u64>,
    labels: Seq<Seq<u8>>,
    at: Seq<int>,
)
    requires
        leads_up(items, ids, labels, at),
        0 <= n < subvol::subvolumes_in(items).len(),
        subvol::subvolumes_in(items)[n].id == ids[0],
    ensures
        ({
            let v = subvol::subvolumes_in(items)[n];
            &&& v.path == along(labels)
            &&& v.name == labels[0]
            &&& v.parent == (if ids.len() > 1 {
                ids[1]
            } else {
                5
            })
        }),
{
    let names = subvol::names_from(items, 0, Map::empty());
    let list = subvol::subvolumes_in(items);
    lemma_listed(items, 0, names, Seq::empty());
    assert(list.contains(list[n]));
    let i = choose|i: int|
        0 <= i < items.len() && subvol::subvolume_of(#[trigger] items[i], names) == Some(list[n]);
    lemma_says(items[i], names);
    assert forall|k: int| 0 <= k < ids.len() implies #[trigger] ids[k] != 5 && names.contains_key(
        ids[k],
    ) && names[ids[k]] == (
        if k + 1 < ids.len() {
            ids[k + 1]
        } else {
            5u64
        },
        labels[k],
    ) by {
        lemma_named(
            items,
            0,
            Map::empty(),
            at[k],
            ids[k],
            if k + 1 < ids.len() {
                ids[k + 1]
            } else {
                5
            },
            labels[k],
        );
    }
    lemma_finite(items, 0, Map::empty());
    assert(ids.to_set().subset_of(names.dom())) by {
        assert forall|x: u64| ids.to_set().contains(x) implies names.dom().contains(x) by {
            let k = choose|k: int| 0 <= k < ids.len() && ids[k] == x;
            assert(names.contains_key(ids[k]));
        }
    }
    ids.unique_seq_to_set();
    vstd::set_lib::lemma_len_subset(ids.to_set(), names.dom());
    lemma_chain(names, ids, labels, names.len() + 1);
    assert(ids[0] != 5);
}

proof fn lemma_finite(items: Seq<ItemModel>, from: int, names: Map<u64, (u64, Seq<u8>)>)
    requires
        names.dom().finite(),
    ensures
        subvol::names_from(items, from, names).dom().finite(),
    decreases items.len() - from,
{
    if 0 <= from < items.len() {
        let item = items[from];
        let next = if item.key.key_type == subvol::ROOT_BACKREF_KEY && subvol::names_subvolume(
            item.key.objectid,
        ) {
            match subvol::name_in(item.data) {
                Some(n) => names.insert(item.key.objectid, (item.key.offset, n)),
                None => names,
            }
        } else {
            names
        };
        lemma_finite(items, from + 1, next);
    }
}

/// The default subvolume is the top: its path is a slash, and where nothing
/// refers back from it it has neither parent nor name.
pub proof fn law_the_default_subvolume_is_the_top(items: Seq<ItemModel>, n: int)
    requires
        0 <= n < subvol::subvolumes_in(items).len(),
        subvol::subvolumes_in(items)[n].id == 5,
    ensures
        subvol::subvolumes_in(items)[n].path == "/"@,
        (forall|k: int|
            0 <= k < items.len() && (#[trigger] items[k]).key.objectid == 5
                ==> items[k].key.key_type != 144) ==> subvol::subvolumes_in(items)[n].parent == 0
            && subvol::subvolumes_in(items)[n].name == Seq::<u8>::empty(),
{
    let names = subvol::names_from(items, 0, Map::empty());
    let list = subvol::subvolumes_in(items);
    lemma_listed(items, 0, names, Seq::empty());
    assert(list.contains(list[n]));
    let i = choose|i: int|
        0 <= i < items.len() && subvol::subvolume_of(#[trigger] items[i], names) == Some(list[n]);
    lemma_says(items[i], names);
    if forall|k: int|
        0 <= k < items.len() && (#[trigger] items[k]).key.objectid == 5 ==> items[k].key.key_type
            != 144 {
        lemma_unnamed(items, 0, Map::empty(), 5);
    }
}

proof fn lemma_with_id(list: Seq<SubvolumeModel>, id: u64, from: int)
    requires
        0 <= from,
    ensures
        match subvol::with_id(list, id, from) {
            Some(v) => v.id == id && list.contains(v),
            None => forall|i: int| from <= i < list.len() ==> (#[trigger] list[i]).id != id,
        },
    decreases list.len() - from,
{
    if from < list.len() {
        if list[from].id == id {
            assert(list.contains(list[from]));
        } else {
            lemma_with_id(list, id, from + 1);
        }
    }
}

/// Opening a subvolume reads the tree its root item names, and cannot write;
/// an id that no root item bears is not found.
pub proof fn law_a_subvolume_opens_at_its_root(
    fs: FilesystemModel,
    items: Seq<ItemModel>,
    id: u64,
    i: int,
)
    requires
        volume::whole(fs.volume.walk(fs.volume.sb.root)) == Ok::<Seq<ItemModel>, ErrorView>(items),
    ensures
        0 <= i < items.len() && roots_subvolume(items[i]) && items[i].key.objectid == id && (
        forall|k: int|
            0 <= k < items.len() && k != i && (#[trigger] items[k]).key.objectid == id
                ==> items[k].key.key_type != 132) ==> match subvol::subvolume_opened(fs, id) {
            Ok(opened) => {
                &&& opened.fs_tree_root == bytes::u64_at(items[i].data, 176)
                &&& opened.volume == fs.volume
                &&& opened.writable is None
            },
            Err(e) => fs.volume.walk(bytes::u64_at(items[i].data, 176)).fault == Some(e),
        },
        (forall|k: int| 0 <= k < items.len() ==> (#[trigger] items[k]).key.objectid != id)
            ==> subvol::subvolume_opened(fs, id) == Err::<FilesystemModel, ErrorView>(
            ErrorView::NotFound,
        ),
{
    let list = subvol::subvolumes_in(items);
    law_a_listing_is_the_root_items(items);
    lemma_with_id(list, id, 0);
    if let Some(v) = subvol::with_id(list, id, 0) {
        let n = choose|n: int| 0 <= n < list.len() && list[n] == v;
        assert(said_by(items, list[n]));
        let k = choose|k: int|
            0 <= k < items.len() && roots_subvolume(#[trigger] items[k]) && says(items[k], v);
        assert(items[k].key.objectid == id);
    } else if 0 <= i < items.len() && roots_subvolume(items[i]) && items[i].key.objectid == id {
        let n = choose|n: int| 0 <= n < list.len() && says(items[i], #[trigger] list[n]);
        assert(list[n].id == id);
    }
}

} // verus!
