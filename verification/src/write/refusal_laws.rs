//! What may be overwritten where it lies.

use vstd::prelude::*;

use crate::btree;
use crate::btree::ItemModel;
use crate::bytes;
use crate::device_write;
use crate::device_write::ActionModel;
use crate::error::ErrorView;
use crate::fs::content_laws;
use crate::fs::extents;
use crate::fs::extents::FileExtent;
use crate::fs::namespace;
use crate::fs::{FilesystemModel, EXTENT_DATA_KEY};
use crate::inode::Inode;
use crate::inode::layout_laws as inode_laws;
use crate::inode::FileType;
use crate::item_map;
use crate::leaf_edit;
use crate::volume::VolumeModel;

verus! {

/// Whether an item of the extent tree records the extent at `at` and how often
/// it is referred to.
pub open spec fn records(item: ItemModel, at: u64) -> bool {
    item.key.objectid == at && item.key.key_type == 168 && item.data.len() >= 8
}

/// What is known of an extent is what the first item of the extent tree that
/// records it says: its references, and its length in the key. Where none
/// records it, nothing is known.
pub proof fn law_an_extent_is_known_by_its_record(volume: VolumeModel, at: u64)
    ensures
        match crate::write::extent_record(volume, at) {
            Ok((refs, len)) => volume.tree_root(2) matches Ok(root) && exists|i: int|
                0 <= i < volume.walk(root).items.len() && records(
                    #[trigger] volume.walk(root).items[i],
                    at,
                ) && refs == bytes::u64_at(volume.walk(root).items[i].data, 0) && len
                    == volume.walk(root).items[i].key.offset && forall|j: int|
                    0 <= j < i ==> !records(#[trigger] volume.walk(root).items[j], at),
            Err(_) => volume.tree_root(2) matches Ok(root) ==> forall|i: int|
                0 <= i < volume.walk(root).items.len() ==> !records(
                    #[trigger] volume.walk(root).items[i],
                    at,
                ),
        },
{
    if let Ok(root) = volume.tree_root(2) {
        let s = volume.walk(root);
        let pass = crate::write::passes_extent(at);
        btree::lemma_seen(s.items, pass);
        assert forall|i: int| 0 <= i < s.items.len() implies pass(#[trigger] s.items[i])
            == !records(s.items[i], at) by {}
        if btree::stopped(s.items, pass) {
            let n = btree::seen_count(s.items, pass) - 1;
            assert(!pass(s.items[n]));
            assert forall|j: int| 0 <= j < n implies !records(#[trigger] s.items[j], at) by {
                assert(pass(s.items[j]));
            }
        } else {
            assert forall|i: int| 0 <= i < s.items.len() implies !records(
                #[trigger] s.items[i],
                at,
            ) by {
                assert(pass(s.items[i]));
            }
        }
    }
}

/// Whether `e` is the extent that an extent item describes: where in the file
/// it starts, how far it goes, where its bytes lie if they may be overwritten
/// there, and where the whole extent starts that they are part of.
pub open spec fn described(x: ItemModel, e: FileExtent) -> bool {
    &&& e.start == x.key.offset
    &&& x.data.len() >= 21
    &&& x.data[20] == 0 ==> e.logical is None && !e.compressed && e.extent_start == 0 && (
    x.data[16] == 0 ==> e.len == (x.data.len() - 21) as u64)
    &&& x.data[20] != 0 ==> {
        &&& x.data[20] == 1
        &&& x.data.len() >= 53
        &&& bytes::u64_at(x.data, 21) != 0
        &&& e.len == bytes::u64_at(x.data, 45)
        &&& e.extent_start == bytes::u64_at(x.data, 21)
        &&& e.compressed == (x.data[16] != 0)
        &&& if x.data[16] == 0 {
            e.logical matches Some(l) && l == bytes::u64_at(x.data, 21) + bytes::u64_at(x.data, 37)
        } else {
            e.logical is None
        }
    }
}

/// Whether an extent item describes bytes at all, not a hole or space that is
/// set aside unwritten.
pub open spec fn has_bytes(x: ItemModel) -> bool {
    !(x.data.len() >= 53 && (x.data[20] == 2 || (x.data[20] == 1 && bytes::u64_at(x.data, 21)
        == 0)))
}

proof fn lemma_described(x: ItemModel, ino: u64, sectorsize: u32)
    requires
        extents::piece_outcome(x.data, ino, sectorsize) is Ok,
    ensures
        ({
            let piece = extents::piece_outcome(x.data, ino, sectorsize)->Ok_0;
            match extents::file_extent_of(x, piece) {
                Some(e) => described(x, e) && has_bytes(x),
                None => !has_bytes(x),
            }
        }),
{
    reveal(extents::piece_outcome);
}

/// Whether one of `items` describes `e`.
pub open spec fn has_item(items: Seq<ItemModel>, ino: u64, e: FileExtent) -> bool {
    exists|x: ItemModel| #[trigger]
        items.contains(x) && content_laws::extent_of(x, ino) && described(x, e) && has_bytes(x)
}

/// Whether one of `list` is what `x` describes.
pub open spec fn is_listed(list: Seq<FileExtent>, x: ItemModel) -> bool {
    exists|i: int| 0 <= i < list.len() && described(x, #[trigger] list[i])
}

proof fn lemma_listed(
    items: Seq<ItemModel>,
    kind: Seq<ItemModel>,
    ino: u64,
    sectorsize: u32,
    from: int,
    before: Seq<FileExtent>,
)
    requires
        0 <= from <= kind.len(),
        forall|i: int|
            0 <= i < kind.len() ==> items.contains(#[trigger] kind[i]) && content_laws::extent_of(
                kind[i],
                ino,
            ),
        forall|i: int| 0 <= i < before.len() ==> has_item(items, ino, #[trigger] before[i]),
        forall|i: int|
            0 <= i < from && has_bytes(#[trigger] kind[i]) ==> is_listed(before, kind[i]),
        extents::extents_from(kind, ino, sectorsize, from, before) is Ok,
    ensures
        ({
            let all = extents::extents_from(kind, ino, sectorsize, from, before)->Ok_0;
            &&& forall|i: int| 0 <= i < all.len() ==> has_item(items, ino, #[trigger] all[i])
            &&& forall|i: int|
                0 <= i < kind.len() && has_bytes(#[trigger] kind[i]) ==> is_listed(all, kind[i])
        }),
    decreases kind.len() - from,
{
    if from < kind.len() {
        let piece = extents::piece_outcome(kind[from].data, ino, sectorsize)->Ok_0;
        lemma_described(kind[from], ino, sectorsize);
        let next = match extents::file_extent_of(kind[from], piece) {
            Some(e) => before.push(e),
            None => before,
        };
        assert forall|i: int| 0 <= i < next.len() implies has_item(
            items,
            ino,
            #[trigger] next[i],
        ) by {
            if i < before.len() {
                assert(next[i] == before[i]);
            } else {
                assert(items.contains(kind[from]));
            }
        }
        assert forall|i: int| 0 <= i < from + 1 && has_bytes(#[trigger] kind[i]) implies is_listed(
            next,
            kind[i],
        ) by {
            if i < from {
                let k = choose|k: int| 0 <= k < before.len() && described(
                    kind[i],
                    #[trigger] before[k],
                );
                assert(next[k] == before[k]);
            } else {
                assert(next[before.len() as int] == extents::file_extent_of(
                    kind[from],
                    piece,
                )->Some_0);
            }
        }
        lemma_listed(items, kind, ino, sectorsize, from + 1, next);
    }
}

/// The extents of a file are those its extent items describe, and all of them
/// that hold bytes.
pub proof fn law_the_extents_of_a_file_are_its_items(
    items: Seq<ItemModel>,
    ino: u64,
    sectorsize: u32,
)
    requires
        leaf_edit::sorted(items),
        extents::extents_of(items, ino, sectorsize) is Ok,
    ensures
        ({
            let list = extents::extents_of(items, ino, sectorsize)->Ok_0;
            &&& forall|i: int| 0 <= i < list.len() ==> has_item(items, ino, #[trigger] list[i])
            &&& forall|x: ItemModel| #[trigger]
                items.contains(x) && content_laws::extent_of(x, ino) && has_bytes(x) ==> is_listed(
                    list,
                    x,
                )
        }),
{
    let kind = item_map::of_kind(items, ino, EXTENT_DATA_KEY);
    let list = extents::extents_of(items, ino, sectorsize)->Ok_0;
    crate::fs::laws::lemma_filter_keeps_order(items, ino, EXTENT_DATA_KEY);
    assert forall|i: int| 0 <= i < kind.len() implies items.contains(#[trigger] kind[i])
        && content_laws::extent_of(kind[i], ino) by {
        assert(item_map::is_kind(ino, EXTENT_DATA_KEY)(kind[i]));
    }
    lemma_listed(items, kind, ino, sectorsize, 0, Seq::empty());
    assert forall|x: ItemModel| #[trigger]
        items.contains(x) && content_laws::extent_of(x, ino) && has_bytes(x) implies is_listed(
        list,
        x,
    ) by {
        let at = choose|at: int| 0 <= at < items.len() && items[at] == x;
        assert(item_map::is_kind(ino, EXTENT_DATA_KEY)(items[at]));
        items.lemma_filter_contains(item_map::is_kind(ino, EXTENT_DATA_KEY), at);
        let k = choose|k: int| 0 <= k < kind.len() && kind[k] == x;
        assert(has_bytes(kind[k]));
    }
}

/// Whether the bytes of an extent may be overwritten where they lie: they are
/// not packed, lie inside the extent that is recorded, and nothing but the
/// file refers to that.
pub open spec fn free_to_change(volume: VolumeModel, e: FileExtent) -> bool {
    &&& !e.compressed
    &&& e.logical matches Some(l) && (crate::write::extent_record(volume, e.extent_start) matches Ok(
        (refs, len),
    ) && refs == 1 && e.extent_start <= l && l + e.len <= e.extent_start + len && e.extent_start
        + len <= u64::MAX)
}

/// Whether an inode is a regular file that is neither copied on write nor
/// checksummed.
pub open spec fn kept_in_place(inode: Inode) -> bool {
    inode.mode / 0x1000 % 16 == 8 && inode.flags % 4 == 3
}

proof fn lemma_kept(inode: Inode)
    ensures
        kept_in_place(inode) <==> crate::inode::type_of_mode(inode.mode) == Some(
            crate::inode::FileType::Regular,
        ) && inode.flags & 2 != 0 && inode.flags & 1 != 0,
        kept_in_place(inode) <==> crate::inode::type_of_mode(inode.mode) == Some(
            crate::inode::FileType::Regular,
        ) && inode.flags & (2u64 | 1u64) == (2u64 | 1u64),
{
    crate::inode::layout_laws::law_a_mode_names_its_type(
        inode.mode,
        crate::inode::FileType::Regular,
    );
    let f = inode.flags;
    assert(f % 4 == 3 <==> f & 2 != 0 && f & 1 != 0) by (bit_vector);
    assert(f % 4 == 3 <==> f & (2u64 | 1u64) == (2u64 | 1u64)) by (bit_vector);
}

proof fn lemma_all(volume: VolumeModel, list: Seq<FileExtent>, from: int)
    requires
        0 <= from,
    ensures
        crate::write::all_writable(volume, list, from) == Ok::<bool, ErrorView>(true) <==> forall|
            i: int,
        |
            from <= i < list.len() ==> free_to_change(volume, #[trigger] list[i]),
    decreases list.len() - from,
{
    if from < list.len() {
        lemma_all(volume, list, from + 1);
        if free_to_change(volume, list[from]) {
            assert(crate::write::all_writable(volume, list, from) == crate::write::all_writable(
                volume,
                list,
                from + 1,
            ));
        }
    }
}

/// A file can be written where it lies exactly where it is kept in place and
/// every extent of it is free to change.
pub proof fn law_a_file_is_writable_where_nothing_else_depends_on_it(
    fs: FilesystemModel,
    ino: u64,
)
    requires
        namespace::inode_of(fs.items, ino) is Ok,
    ensures
        crate::write::writable_outcome(fs, ino) == Ok::<bool, ErrorView>(true) <==> kept_in_place(
            namespace::inode_of(fs.items, ino)->Ok_0,
        ) && (extents::extents_of(fs.items, ino, fs.volume.sb.sectorsize) matches Ok(list)
            && forall|i: int|
            0 <= i < list.len() ==> free_to_change(fs.volume, #[trigger] list[i])),
        !kept_in_place(namespace::inode_of(fs.items, ino)->Ok_0)
            ==> crate::write::writable_outcome(fs, ino) == Ok::<bool, ErrorView>(false),
{
    lemma_kept(namespace::inode_of(fs.items, ino)->Ok_0);
    if let Ok(list) = extents::extents_of(fs.items, ino, fs.volume.sb.sectorsize) {
        lemma_all(fs.volume, list, 0);
    }
}

/// What is written over a file is written only where the volume was opened to
/// be written, the file is kept in place, and the range lies inside it; and
/// its last action is a flush.
pub proof fn law_only_what_is_kept_in_place_is_overwritten(
    fs: FilesystemModel,
    ino: u64,
    offset: u64,
    data: Seq<u8>,
)
    requires
        data.len() > 0,
        crate::write::write_outcome(fs, ino, offset, data) is Ok,
    ensures
        fs.writable is Some,
        namespace::inode_of(fs.items, ino) matches Ok(inode) && kept_in_place(inode) && offset
            + data.len() <= inode.size,
        ({
            let actions = crate::write::write_outcome(fs, ino, offset, data)->Ok_0;
            actions.len() > 0 && actions.last() == ActionModel::Flush
        }),
{
    lemma_kept(namespace::inode_of(fs.items, ino)->Ok_0);
}

/// A volume that was not opened to be written is never written. Where it was,
/// writing nothing takes nothing, what is not a regular file is refused as not
/// a file, and a file that is not kept in place, or that the range would grow,
/// as something that is not done.
pub proof fn law_a_refused_write_says_why(
    fs: FilesystemModel,
    ino: u64,
    offset: u64,
    data: Seq<u8>,
)
    ensures
        ({
            let r = crate::write::write_outcome(fs, ino, offset, data);
            &&& fs.writable is None ==> r == Err::<Seq<ActionModel>, ErrorView>(ErrorView::ReadOnly)
            &&& fs.writable is Some && data.len() == 0 ==> r == Ok::<Seq<ActionModel>, ErrorView>(
                Seq::empty(),
            )
            &&& fs.writable is Some && data.len() > 0 ==> match namespace::inode_of(fs.items, ino) {
                Err(e) => r == Err::<Seq<ActionModel>, ErrorView>(e),
                Ok(inode) => {
                    &&& inode.mode / 0x1000 % 16 != 8 ==> r == Err::<Seq<ActionModel>, ErrorView>(
                        ErrorView::NotAFile,
                    )
                    &&& inode.mode / 0x1000 % 16 == 8 && (!kept_in_place(inode) || offset
                        + data.len() > inode.size) ==> (r matches Err(e)
                        && e is UnsupportedFeature)
                },
            }
        }),
{
    if let Ok(inode) = namespace::inode_of(fs.items, ino) {
        lemma_kept(inode);
        inode_laws::law_a_mode_names_its_type(inode.mode, FileType::Regular);
    }
}

/// Whether every copy of each part of `plan` can be written: of data of the
/// part's length, whatever the data is.
pub open spec fn parts_have_room(fs: FilesystemModel, size: u64, plan: Seq<(u64, usize)>) -> bool {
    forall|k: int, part: Seq<u8>|
        0 <= k < plan.len() && part.len() == (#[trigger] plan[k]).1
            ==> #[trigger] device_write::copies_written(fs.volume.map, size, plan[k].0, part) is Ok
}

proof fn lemma_parts(
    fs: FilesystemModel,
    size: u64,
    plan: Seq<(u64, usize)>,
    data: Seq<u8>,
    k: int,
    done: int,
    before: Seq<ActionModel>,
)
    requires
        0 <= k <= plan.len(),
        0 <= done,
        done + crate::write::plan_len(plan.skip(k)) == data.len(),
        parts_have_room(fs, size, plan),
    ensures
        crate::write::parts_written(fs.volume.map, size, plan, data, k, done, before) is Ok,
    decreases plan.len() - k,
{
    if k < plan.len() {
        let rest = plan.skip(k);
        lemma_plan_len(rest);
        assert(rest[0] == plan[k]);
        assert(rest.skip(1) =~= plan.skip(k + 1));
        let part = data.subrange(done, done + plan[k].1);
        assert(part.len() == plan[k].1);
        let r = device_write::copies_written(fs.volume.map, size, plan[k].0, part);
        assert(r is Ok);
        lemma_parts(fs, size, plan, data, k + 1, done + plan[k].1, before + r->Ok_0);
    }
}

proof fn lemma_plan_len(plan: Seq<(u64, usize)>)
    requires
        plan.len() > 0,
    ensures
        crate::write::plan_len(plan) == plan[0].1 + crate::write::plan_len(plan.skip(1)),
        crate::write::plan_len(plan) >= plan[0].1,
    decreases plan.len(),
{
    if plan.len() > 1 {
        lemma_plan_len(plan.drop_last());
        assert(plan.drop_last().skip(1) =~= plan.skip(1).drop_last());
        assert(plan.skip(1).last() == plan.last());
    } else {
        assert(plan.skip(1) =~= Seq::empty());
        assert(plan.drop_last() =~= Seq::empty());
    }
}

/// Data is written over a file that is kept in place, up to its last byte,
/// wherever its extents are free to change and there is room for every copy.
pub proof fn law_a_file_kept_in_place_takes_writes_to_its_end(
    fs: FilesystemModel,
    ino: u64,
    offset: u64,
    data: Seq<u8>,
    size: u64,
    plan: Seq<(u64, usize)>,
)
    requires
        fs.writable == Some(size),
        namespace::inode_of(fs.items, ino) matches Ok(inode) && kept_in_place(inode) && offset
            + data.len() <= inode.size,
        crate::write::plan_outcome(fs, ino, offset, data.len()) == Ok::<
            Seq<(u64, usize)>,
            ErrorView,
        >(plan),
        crate::write::plan_len(plan) == data.len(),
        parts_have_room(fs, size, plan),
    ensures
        crate::write::write_outcome(fs, ino, offset, data) is Ok,
{
    lemma_kept(namespace::inode_of(fs.items, ino)->Ok_0);
    assert(plan.skip(0) =~= plan);
    lemma_parts(fs, size, plan, data, 0, 0, Seq::empty());
}

} // verus!
