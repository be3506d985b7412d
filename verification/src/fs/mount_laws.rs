//! What opening a volume takes from its devices.

use vstd::prelude::*;

use crate::btree;
use crate::btree::ItemModel;
use crate::bytes;
use crate::chunk;
use crate::chunk::{ChunkModel, Mapping};
use crate::device;
use crate::device::Disk;
use crate::error::ErrorView;
use crate::fs::laws;
use crate::fs::mount;
use crate::fs::FilesystemModel;
use crate::item_map;
use crate::leaf_edit;
use crate::superblock;
use crate::volume;
use crate::volume::VolumeModel;

verus! {

/// Whether an item of the root tree names the root block of tree `tree`.
pub open spec fn roots(item: ItemModel, tree: u64) -> bool {
    item.key.objectid == tree && item.key.key_type == 132 && item.data.len() >= 184
}

/// The root of a tree is the address in the first item of the root tree that
/// names it; there is none where the whole root tree names none.
pub proof fn law_a_root_is_what_its_item_names(volume: VolumeModel, tree: u64)
    ensures
        ({
            let s = volume.walk(volume.sb.root);
            match volume.root_if_any(tree) {
                Ok(Some(root)) => exists|i: int|
                    0 <= i < s.items.len() && roots(#[trigger] s.items[i], tree) && bytes::u64_at(
                        s.items[i].data,
                        176,
                    ) == root && forall|j: int| 0 <= j < i ==> !roots(#[trigger] s.items[j], tree),
                Ok(None) => s.fault is None && forall|i: int|
                    0 <= i < s.items.len() ==> !roots(#[trigger] s.items[i], tree),
                Err(e) => s.fault == Some(e) && forall|i: int|
                    0 <= i < s.items.len() ==> !roots(#[trigger] s.items[i], tree),
            }
        }),
        match volume.tree_root(tree) {
            Ok(root) => volume.root_if_any(tree) == Ok::<Option<u64>, ErrorView>(Some(root)),
            Err(_) => !(volume.root_if_any(tree) matches Ok(Some(_))),
        },
{
    let s = volume.walk(volume.sb.root);
    let pass = volume::passes_root(tree);
    btree::lemma_seen(s.items, pass);
    assert forall|i: int| 0 <= i < s.items.len() implies pass(#[trigger] s.items[i]) == !roots(
        s.items[i],
        tree,
    ) by {}
    if btree::stopped(s.items, pass) {
        let n = btree::seen_count(s.items, pass) - 1;
        assert(!pass(s.items[n]));
        assert forall|j: int| 0 <= j < n implies !roots(#[trigger] s.items[j], tree) by {
            assert(pass(s.items[j]));
        }
    } else {
        assert forall|i: int| 0 <= i < s.items.len() implies !roots(#[trigger] s.items[i], tree) by {
            assert(pass(s.items[i]));
        }
    }
}

proof fn lemma_lowest(ids: Seq<u64>)
    ensures
        ids.len() == 0 ==> mount::lowest(ids) == 0,
        ids.len() > 0 ==> 0 <= mount::lowest(ids) < ids.len(),
        forall|i: int| 0 <= i < ids.len() ==> ids[mount::lowest(ids)] <= #[trigger] ids[i],
    decreases ids.len(),
{
    if ids.len() > 1 {
        let front = ids.drop_last();
        lemma_lowest(front);
        let before = mount::lowest(front);
        assert(ids[before] == front[before]);
        assert forall|i: int| 0 <= i < ids.len() implies ids[mount::lowest(ids)]
            <= #[trigger] ids[i] by {
            if i < front.len() {
                assert(front[i] == ids[i]);
            }
        }
    }
}

proof fn lemma_inserted_members(s: Seq<ChunkModel>, c: ChunkModel)
    requires
        chunk::ordered(s),
        chunk::inserted(s, c) is Ok,
    ensures
        forall|x: ChunkModel| #[trigger]
            chunk::inserted(s, c)->Ok_0.contains(x) <==> s.contains(x) || x == c,
{
    let at = chunk::place_for(s, c.logical);
    chunk::lemma_place_for(s, c.logical);
    let t = chunk::inserted(s, c)->Ok_0;
    assert forall|x: ChunkModel| #[trigger] t.contains(x) <==> s.contains(x) || x == c by {
        if t.contains(x) {
            let k = choose|k: int| 0 <= k < t.len() && t[k] == x;
            if k < at {
                assert(s[k] == x);
            } else if k > at {
                assert(s[k - 1] == x);
            }
        }
        if s.contains(x) {
            let k = choose|k: int| 0 <= k < s.len() && s[k] == x;
            if k < at {
                assert(t[k] == x);
            } else {
                assert(t[k + 1] == x);
            }
        }
        if x == c {
            assert(t[at] == c);
        }
    }
}

/// Whether an item of the chunk tree describes `c`.
pub open spec fn describes(item: ItemModel, c: ChunkModel) -> bool {
    chunk::chunk_outcome(item.key.offset, item.data) == Ok::<ChunkModel, ErrorView>(c)
}

/// Whether one of `items` describes `c`.
pub open spec fn described(items: Seq<ItemModel>, c: ChunkModel) -> bool {
    exists|i: int| 0 <= i < items.len() && describes(#[trigger] items[i], c)
}

proof fn lemma_folded(map: Seq<ChunkModel>, items: Seq<ItemModel>, from: int)
    requires
        chunk::ordered(map),
        0 <= from <= items.len(),
        mount::chunks_folded(map, items, from) is Ok,
    ensures
        ({
            let all = mount::chunks_folded(map, items, from)->Ok_0;
            &&& chunk::ordered(all)
            &&& forall|c: ChunkModel| #[trigger] map.contains(c) ==> all.contains(c)
            &&& forall|i: int, c: ChunkModel|
                from <= i < items.len() && #[trigger] describes(items[i], c) ==> all.contains(c)
            &&& forall|c: ChunkModel| #[trigger]
                all.contains(c) ==> map.contains(c) || described(items, c)
        }),
    decreases items.len() - from,
{
    if from < items.len() {
        let next = mount::chunk_folded(map, items[from])->Ok_0;
        if let Ok(c) = chunk::chunk_outcome(items[from].key.offset, items[from].data) {
            chunk::law_lookup_finds_the_covering_chunk(map, c.logical);
            if chunk::chunk_at(map, c.logical) != Some(c) {
                lemma_inserted_members(map, c);
                chunk::law_insert_keeps_order(map, c);
            }
            assert(next.contains(c));
            assert(describes(items[from], c));
        }
        lemma_folded(next, items, from + 1);
        let all = mount::chunks_folded(map, items, from)->Ok_0;
        assert forall|i: int, c: ChunkModel|
            from <= i < items.len() && #[trigger] describes(items[i], c) implies all.contains(c) by {
            if i == from {
                assert(next.contains(c));
            }
        }
        assert forall|c: ChunkModel| #[trigger] map.contains(c) implies all.contains(c) by {
            assert(next.contains(c));
        }
        assert forall|c: ChunkModel| #[trigger] all.contains(c) implies map.contains(c)
            || described(items, c) by {
            if next.contains(c) && !map.contains(c) {
                assert(describes(items[from], c));
            }
        }
    }
}

proof fn lemma_boot_ordered(array: Seq<u8>, sectorsize: u32, pos: int, s: Seq<ChunkModel>)
    requires
        chunk::ordered(s),
    ensures
        chunk::sys_chunks(array, sectorsize, pos, s) matches Ok(t) ==> chunk::ordered(t),
    decreases array.len() - pos,
{
    if 0 <= pos < array.len() && chunk::sys_chunks(array, sectorsize, pos, s) is Ok {
        let key = chunk::key_at(array, pos);
        let c = chunk::chunk_outcome(key.offset, array.skip(pos + chunk::DISK_KEY_SIZE))->Ok_0;
        chunk::law_insert_keeps_order(s, c);
        lemma_boot_ordered(
            array,
            sectorsize,
            pos + chunk::DISK_KEY_SIZE + chunk::CHUNK_HEADER_SIZE + c.num_stripes
                * chunk::STRIPE_SIZE,
            chunk::inserted(s, c)->Ok_0,
        );
    }
}

/// The address map of a mounted volume holds the chunks its superblock embeds
/// and every chunk its chunk tree describes, and no other.
pub proof fn law_the_map_is_what_the_chunk_tree_says(
    disk: Disk,
    ids: Seq<u64>,
    writable: Option<u64>,
)
    requires
        mount::mounted(disk, ids, writable) is Ok,
    ensures
        ({
            let volume = mount::mounted(disk, ids, writable)->Ok_0.volume;
            let boot = chunk::sys_chunks(
                volume.sb.sys_chunk_array,
                volume.sb.sectorsize,
                0,
                Seq::empty(),
            );
            let s = (VolumeModel { map: boot->Ok_0, ..volume }).walk(volume.sb.chunk_root);
            &&& boot is Ok
            &&& s.fault is None
            &&& chunk::ordered(volume.map)
            &&& forall|c: ChunkModel| #[trigger]
                volume.map.contains(c) <==> boot->Ok_0.contains(c) || described(s.items, c)
        }),
{
    let volume = mount::mounted(disk, ids, writable)->Ok_0.volume;
    let boot = chunk::sys_chunks(
        volume.sb.sys_chunk_array,
        volume.sb.sectorsize,
        0,
        Seq::empty(),
    )->Ok_0;
    lemma_boot_ordered(volume.sb.sys_chunk_array, volume.sb.sectorsize, 0, Seq::empty());
    let s = (VolumeModel { disk, ids, sb: volume.sb, map: boot }).walk(volume.sb.chunk_root);
    lemma_folded(boot, s.items, 0);
}

/// A volume is opened by the superblock 64 KiB into the device with the lowest
/// id, or into the only one. What it then holds is the tree of the default
/// subvolume, tree 5, as the root tree names it.
pub proof fn law_opening_reads_the_default_tree(disk: Disk, ids: Seq<u64>, writable: Option<u64>)
    requires
        mount::mounted(disk, ids, writable) is Ok,
    ensures
        ({
            let fs = mount::mounted(disk, ids, writable)->Ok_0;
            let s = fs.volume.walk(fs.fs_tree_root);
            &&& fs.volume.disk == disk
            &&& fs.volume.ids == ids
            &&& fs.writable == writable
            &&& exists|d: int| #[trigger] opened_by(disk, ids, d, fs)
            &&& fs.volume.tree_root(5) == Ok::<u64, ErrorView>(fs.fs_tree_root)
            &&& s.fault is None
            &&& leaf_edit::sorted(s.items) ==> fs.items == s.items
        }),
{
    let fs = mount::mounted(disk, ids, writable)->Ok_0;
    let s = fs.volume.walk(fs.fs_tree_root);
    lemma_lowest(ids);
    assert(opened_by(disk, ids, mount::lowest(ids), fs));
    if leaf_edit::sorted(s.items) {
        item_map::law_ordered_items_are_held_as_they_are(s.items);
    }
}

/// Whether device `d` is the one with the lowest id, or the only one, and the
/// superblock of `fs` is the one that device holds.
pub open spec fn opened_by(disk: Disk, ids: Seq<u64>, d: int, fs: FilesystemModel) -> bool {
    &&& ids.len() == 0 ==> d == 0
    &&& ids.len() > 0 ==> 0 <= d < ids.len()
    &&& forall|i: int| 0 <= i < ids.len() ==> ids[d] <= #[trigger] ids[i]
    &&& disk(d as usize, 65536, 4096) matches Ok(b) && superblock::parse_at_outcome(
        b,
        superblock::intact(b),
        65536,
    ) == Ok::<superblock::SuperblockModel, ErrorView>(fs.volume.sb)
}

/// Whether device `k` says that its id is `id` and that it belongs to the
/// filesystem `fsid`.
pub open spec fn claims(disk: Disk, k: int, id: u64, fsid: Seq<u8>) -> bool {
    disk(k as usize, 65536, 4096) matches Ok(b) && superblock::parse_at_outcome(
        b,
        superblock::intact(b),
        65536,
    ) matches Ok(sb) && sb.dev_item.devid == id && sb.fsid == fsid
}

proof fn lemma_absent(ids: Seq<u64>, id: u64, from: int)
    requires
        0 <= from,
        device::index_from(ids, id, from) is None,
    ensures
        forall|i: int| from <= i < ids.len() ==> #[trigger] ids[i] != id,
    decreases ids.len() - from,
{
    if from < ids.len() {
        lemma_absent(ids, id, from + 1);
    }
}

proof fn lemma_enlisted(disk: Disk, count: int, i: int, fsid: Option<Seq<u8>>, ids: Seq<u64>)
    requires
        0 <= i <= count,
        ids.len() == i,
        ids.no_duplicates(),
        i > 0 ==> fsid is Some,
        forall|k: int| 0 <= k < i ==> claims(disk, k, #[trigger] ids[k], fsid->Some_0),
        mount::enlisted(disk, count, i, fsid, ids) is Ok,
    ensures
        ({
            let all = mount::enlisted(disk, count, i, fsid, ids)->Ok_0;
            &&& all.len() == count
            &&& all.no_duplicates()
            &&& count > 0 ==> exists|f: Seq<u8>| #[trigger] all_claim(disk, all, f)
        }),
    decreases count - i,
{
    if i < count {
        let sb = mount::superblock_on(disk, i)->Ok_0;
        let next = ids.push(sb.dev_item.devid);
        lemma_absent(ids, sb.dev_item.devid, 0);
        assert forall|k: int| 0 <= k < i + 1 implies claims(
            disk,
            k,
            #[trigger] next[k],
            sb.fsid,
        ) by {
            if k < i {
                assert(next[k] == ids[k]);
            }
        }
        lemma_enlisted(disk, count, i + 1, Some(sb.fsid), next);
    } else if count > 0 {
        assert(all_claim(disk, ids, fsid->Some_0));
    }
}

/// Whether every device says that it is the one of its id in the filesystem
/// `fsid`.
pub open spec fn all_claim(disk: Disk, ids: Seq<u64>, fsid: Seq<u8>) -> bool {
    forall|k: int| 0 <= k < ids.len() ==> claims(disk, k, #[trigger] ids[k], fsid)
}

/// The devices of a pool are known by the ids they claim, no two claim the
/// same, and all belong to the filesystem that is opened.
pub proof fn law_a_pool_is_one_filesystem(disk: Disk, count: int)
    requires
        0 <= count <= usize::MAX,
        mount::pool_mounted(disk, count) is Ok,
    ensures
        ({
            let fs = mount::pool_mounted(disk, count)->Ok_0;
            &&& fs.volume.ids.len() == count > 0
            &&& fs.volume.ids.no_duplicates()
            &&& all_claim(disk, fs.volume.ids, fs.volume.sb.fsid)
            &&& fs.volume.sb.num_devices > 1 ==> count == fs.volume.sb.num_devices
            &&& fs.writable is None
        }),
{
    let fs = mount::pool_mounted(disk, count)->Ok_0;
    let ids = mount::enlisted(disk, count, 0, None, Seq::empty())->Ok_0;
    lemma_enlisted(disk, count, 0, None, Seq::empty());
    lemma_lowest(ids);
    let f = choose|f: Seq<u8>| #[trigger] all_claim(disk, ids, f);
    let d = mount::lowest(ids);
    assert(claims(disk, d, ids[d], f));
}

/// A volume with changes waiting in its log is not opened, nor one that spans
/// several devices with any other number of them. Nothing else stands in the
/// way of a sound one: where its map can be read, and the root tree and the
/// tree of the default subvolume behind it, it is opened.
pub proof fn law_what_can_be_read_is_opened(
    disk: Disk,
    ids: Seq<u64>,
    writable: Option<u64>,
    d: int,
    b: Seq<u8>,
    sb: superblock::SuperblockModel,
)
    requires
        ids.len() == 0 ==> d == 0,
        ids.len() > 0 ==> 0 <= d < ids.len(),
        forall|i: int| 0 <= i < ids.len() && i != d ==> ids[d] < #[trigger] ids[i],
        disk(d as usize, 65536, 4096) == Ok::<Seq<u8>, ErrorView>(b),
        superblock::parse_at_outcome(b, superblock::intact(b), 65536) == Ok::<
            superblock::SuperblockModel,
            ErrorView,
        >(sb),
    ensures
        ({
            let r = mount::mounted(disk, ids, writable);
            let spread = sb.num_devices > 1 && ids.len() != sb.num_devices;
            &&& spread ==> (r matches Err(e) && e is UnsupportedFeature)
            &&& !spread && sb.log_root != 0 ==> r == Err::<FilesystemModel, ErrorView>(
                ErrorView::DirtyLog,
            )
            &&& !spread && sb.log_root == 0 ==> match mount::full_map(disk, ids, sb) {
                Err(e) => r == Err::<FilesystemModel, ErrorView>(e),
                Ok(map) => {
                    let volume = VolumeModel { disk, ids, sb, map };
                    r is Ok <==> (volume.tree_root(5) matches Ok(root) && volume.walk(root).fault
                        is None)
                },
            }
        }),
{
    lemma_lowest(ids);
    let k = mount::lowest(ids);
    if ids.len() > 0 {
        assert(ids[k] <= ids[d]);
        assert(k == d);
    }
}

/// Devices that are each sound, all of one filesystem and each of its own id
/// are told apart by their ids, whatever their order.
pub proof fn law_devices_of_one_filesystem_are_a_pool(
    disk: Disk,
    count: int,
    fsid: Seq<u8>,
    ids: Seq<u64>,
)
    requires
        0 < count == ids.len(),
        ids.no_duplicates(),
        all_claim(disk, ids, fsid),
    ensures
        mount::pool_mounted(disk, count) == mount::mounted(disk, ids, None),
{
    assert(ids.take(0) =~= Seq::<u64>::empty());
    lemma_pooled(disk, count, fsid, ids, 0);
}

proof fn lemma_pooled(disk: Disk, count: int, fsid: Seq<u8>, ids: Seq<u64>, i: int)
    requires
        0 <= i <= count == ids.len(),
        ids.no_duplicates(),
        all_claim(disk, ids, fsid),
    ensures
        mount::enlisted(
            disk,
            count,
            i,
            if i == 0 {
                None
            } else {
                Some(fsid)
            },
            ids.take(i),
        ) == Ok::<Seq<u64>, ErrorView>(ids),
    decreases count - i,
{
    if i < count {
        assert(claims(disk, i, ids[i], fsid));
        lemma_index_none(ids.take(i), ids[i], 0);
        assert(ids.take(i).push(ids[i]) =~= ids.take(i + 1));
        lemma_pooled(disk, count, fsid, ids, i + 1);
    } else {
        assert(ids.take(i) =~= ids);
    }
}

/// A byte of a volume is the byte its first copy has, on the device that its
/// chunk names.
pub proof fn law_a_byte_is_read_from_its_device(volume: VolumeModel, at: u64, m: Mapping)
    requires
        chunk::mapped_by(volume.map, at, 0) == Ok::<Mapping, ErrorView>(m),
        m.len > 0,
    ensures
        volume.ids.len() == 0 ==> volume.bytes_at(at, 1) == (volume.disk)(0, m.physical, 1),
        forall|d: int|
            0 <= d < volume.ids.len() && #[trigger] volume.ids[d] == m.devid && (forall|e: int|
                0 <= e < d ==> #[trigger] volume.ids[e] != m.devid) ==> volume.bytes_at(at, 1) == (
            volume.disk)(d as usize, m.physical, 1),
        volume.ids.len() > 0 && !volume.ids.contains(m.devid) ==> volume.bytes_at(at, 1) is Err,
{
    lemma_one_byte(volume, at, m);
    assert forall|d: int|
        0 <= d < volume.ids.len() && #[trigger] volume.ids[d] == m.devid && (forall|e: int|
            0 <= e < d ==> #[trigger] volume.ids[e] != m.devid) implies volume.bytes_at(at, 1) == (
    volume.disk)(d as usize, m.physical, 1) by {
        lemma_index_is(volume.ids, m.devid, 0, d);
    }
    if volume.ids.len() > 0 && !volume.ids.contains(m.devid) {
        lemma_index_none(volume.ids, m.devid, 0);
    }
}

proof fn lemma_index_is(ids: Seq<u64>, id: u64, from: int, d: int)
    requires
        0 <= from <= d < ids.len(),
        ids[d] == id,
        forall|e: int| 0 <= e < d ==> #[trigger] ids[e] != id,
    ensures
        device::index_from(ids, id, from) == Some(d),
    decreases d - from,
{
    if from < d {
        lemma_index_is(ids, id, from + 1, d);
    }
}

proof fn lemma_index_none(ids: Seq<u64>, id: u64, from: int)
    requires
        0 <= from,
        !ids.contains(id),
    ensures
        device::index_from(ids, id, from) is None,
    decreases ids.len() - from,
{
    if from < ids.len() {
        assert(ids[from] != id);
        lemma_index_none(ids, id, from + 1);
    }
}

proof fn lemma_one_byte(volume: VolumeModel, at: u64, m: Mapping)
    requires
        chunk::mapped_by(volume.map, at, 0) == Ok::<Mapping, ErrorView>(m),
        m.len > 0,
    ensures
        volume.bytes_at(at, 1) == (match device::answering(
            volume.ids,
            device::ANY_DEVICE,
            at,
            m,
        ) {
            Err(e) => Err(e),
            Ok(d) => (volume.disk)(d as usize, m.physical, 1),
        }),
{
    if let Ok(d) = device::answering(volume.ids, device::ANY_DEVICE, at, m) {
        if let Ok(head) = (volume.disk)(d as usize, m.physical, 1) {
            assert(device::gathered(
                volume.disk,
                volume.ids,
                device::ANY_DEVICE,
                volume.map,
                (at + 1) as u64,
                0,
            ) == Ok::<Seq<u8>, ErrorView>(Seq::empty()));
            assert(head + Seq::<u8>::empty() =~= head);
        }
    }
}

/// What is read of a volume at once is what it gives byte by byte.
pub proof fn law_a_range_is_its_bytes(volume: VolumeModel, at: u64, len: nat, k: nat)
    requires
        laws::steady(volume.disk),
        volume.ids.len() <= usize::MAX,
        chunk::ordered(volume.map),
        chunk::divisible(volume.map),
        len <= usize::MAX,
        k < len,
        volume.bytes_at(at, len) is Ok,
    ensures
        volume.bytes_at(at, len)->Ok_0.len() == len,
        at + k <= u64::MAX,
        volume.bytes_at((at + k) as u64, 1) == Ok::<Seq<u8>, ErrorView>(
            seq![volume.bytes_at(at, len)->Ok_0[k as int]],
        ),
{
    let b = volume.bytes_at(at, len)->Ok_0;
    laws::lemma_gathered_len(volume.disk, volume.ids, volume.map, at, len);
    laws::lemma_no_end(volume, at, len);
    laws::lemma_gathered_part(volume.disk, volume.ids, volume.map, at, len, k, 1);
    assert(b.subrange(k as int, (k + 1) as int) =~= seq![b[k as int]]);
}

} // verus!
