//! What holds of file contents as a whole.

use vstd::prelude::*;

use crate::btree;
use crate::btree::ItemModel;
use crate::bytes;
use crate::chunk;
use crate::chunk::{ChunkModel, Mapping};
use crate::device;
use crate::device::Disk;
use crate::error::ErrorView;
use crate::fs::extents;
use crate::fs::extents::PieceModel;
use crate::fs::namespace;
use crate::fs::read;
use crate::fs::sums;
use crate::fs::{FilesystemModel, EXTENT_DATA_KEY};
use crate::inode::Inode;
use crate::item_map;
use crate::leaf_edit;
use crate::superblock::ChecksumType;
use crate::volume::VolumeModel;

verus! {

/// Whether a device answers with as many bytes as it is asked for, has none
/// past the end of the address space, and gives the same bytes whether they
/// are asked for alone or among others.
#[verifier::opaque]
pub open spec fn steady(disk: Disk) -> bool {
    &&& forall|d: usize, at: u64, len: usize|
        (#[trigger] disk(d, at, len)) matches Ok(b) ==> b.len() == len && at + len <= u64::MAX + 1
    &&& forall|d: usize, at: u64, len: usize, at2: u64, len2: usize|
        at <= at2 && at2 + len2 <= at + len && (#[trigger] disk(d, at, len)) is Ok
            ==> #[trigger] disk(d, at2, len2) == Ok::<Seq<u8>, ErrorView>(
            disk(d, at, len)->Ok_0.subrange(at2 - at, at2 - at + len2),
        )
}

proof fn lemma_answer(disk: Disk, d: usize, at: u64, len: usize)
    requires
        steady(disk),
    ensures
        disk(d, at, len) matches Ok(b) ==> b.len() == len && at + len <= u64::MAX + 1,
{
    reveal(steady);
}

proof fn lemma_answer_part(disk: Disk, d: usize, at: u64, len: usize, at2: u64, len2: usize)
    requires
        steady(disk),
        at <= at2,
        at2 + len2 <= at + len,
        disk(d, at, len) is Ok,
    ensures
        disk(d, at2, len2) == Ok::<Seq<u8>, ErrorView>(
            disk(d, at, len)->Ok_0.subrange(at2 - at, at2 - at + len2),
        ),
{
    reveal(steady);
}

/// How much of a range lies in the contiguous part it starts in.
spec fn first_len(m: Mapping, len: nat) -> nat {
    if m.len < len {
        m.len as nat
    } else {
        len
    }
}

/// A range that can be read is its first contiguous part and the rest.
proof fn lemma_unfold(disk: Disk, ids: Seq<u64>, map: Seq<ChunkModel>, logical: u64, len: nat) -> (r: (
    Mapping,
    usize,
    Seq<u8>,
    Seq<u8>,
))
    requires
        steady(disk),
        ids.len() <= usize::MAX,
        chunk::divisible(map),
        0 < len <= usize::MAX,
        device::pooled(disk, ids, map, logical, len) is Ok,
    ensures
        ({
            let (m, d, head, tail) = r;
            let h = first_len(m, len);
            &&& chunk::mapped_by(map, logical, 0) == Ok::<Mapping, ErrorView>(m)
            &&& device::answering(ids, device::ANY_DEVICE, logical, m) == Ok::<int, ErrorView>(
                d as int,
            )
            &&& disk(d, m.physical, h as usize) == Ok::<Seq<u8>, ErrorView>(head)
            &&& 0 < h <= len
            &&& logical + h <= u64::MAX
            &&& m.physical + h <= u64::MAX + 1
            &&& head.len() == h
            &&& device::pooled(disk, ids, map, (logical + h) as u64, (len - h) as nat) == Ok::<
                Seq<u8>,
                ErrorView,
            >(tail)
            &&& device::pooled(disk, ids, map, logical, len) == Ok::<Seq<u8>, ErrorView>(
                head + tail,
            )
        }),
{
    let m = chunk::mapped_by(map, logical, 0)->Ok_0;
    chunk::lemma_mapping_fits(map, logical, 0);
    let h = first_len(m, len);
    let d = device::answering(ids, device::ANY_DEVICE, logical, m)->Ok_0;
    lemma_device(ids, logical, m);
    let head = disk(d as usize, m.physical, h as usize)->Ok_0;
    lemma_answer(disk, d as usize, m.physical, h as usize);
    let tail = device::pooled(disk, ids, map, (logical + h) as u64, (len - h) as nat)->Ok_0;
    (m, d as usize, head, tail)
}

proof fn lemma_index(ids: Seq<u64>, id: u64, from: int)
    requires
        0 <= from,
    ensures
        device::index_from(ids, id, from) matches Some(i) ==> from <= i < ids.len(),
    decreases ids.len() - from,
{
    if from < ids.len() && ids[from] != id {
        lemma_index(ids, id, from + 1);
    }
}

proof fn lemma_device(ids: Seq<u64>, logical: u64, m: Mapping)
    requires
        ids.len() <= usize::MAX,
    ensures
        device::answering(ids, device::ANY_DEVICE, logical, m) matches Ok(d) ==> 0 <= d
            <= usize::MAX,
{
    lemma_index(ids, m.devid, 0);
}

/// A first contiguous part and the rest make a range.
proof fn lemma_fold(
    disk: Disk,
    ids: Seq<u64>,
    map: Seq<ChunkModel>,
    logical: u64,
    len: nat,
    m: Mapping,
    d: usize,
    head: Seq<u8>,
    tail: Seq<u8>,
)
    requires
        0 < len,
        m.len > 0,
        chunk::mapped_by(map, logical, 0) == Ok::<Mapping, ErrorView>(m),
        device::answering(ids, device::ANY_DEVICE, logical, m) == Ok::<int, ErrorView>(d as int),
        disk(d, m.physical, first_len(m, len) as usize) == Ok::<Seq<u8>, ErrorView>(head),
        device::pooled(
            disk,
            ids,
            map,
            (logical + first_len(m, len)) as u64,
            (len - first_len(m, len)) as nat,
        ) == Ok::<Seq<u8>, ErrorView>(tail),
    ensures
        device::pooled(disk, ids, map, logical, len) == Ok::<Seq<u8>, ErrorView>(head + tail),
{
}

pub(crate) proof fn lemma_gathered_len(
    disk: Disk,
    ids: Seq<u64>,
    map: Seq<ChunkModel>,
    logical: u64,
    len: nat,
)
    requires
        steady(disk),
        len <= usize::MAX,
    ensures
        device::pooled(disk, ids, map, logical, len) matches Ok(b) ==> b.len() == len,
    decreases len,
{
    if len > 0 && device::pooled(disk, ids, map, logical, len) is Ok {
        let m = chunk::mapped_by(map, logical, 0)->Ok_0;
        let n = first_len(m, len);
        let d = device::answering(ids, device::ANY_DEVICE, logical, m)->Ok_0;
        lemma_answer(disk, d as usize, m.physical, n as usize);
        lemma_gathered_len(disk, ids, map, (logical + n) as u64, (len - n) as nat);
    }
}

/// The mapping of an address further on in the same contiguous part.
proof fn lemma_mapped_further(map: Seq<ChunkModel>, logical: u64, k: u64)
    requires
        chunk::ordered(map),
        chunk::divisible(map),
        chunk::mapped_by(map, logical, 0) matches Ok(m) && k < m.len && m.physical + k <= u64::MAX,
    ensures
        logical + k <= u64::MAX,
        chunk::mapped_by(map, (logical + k) as u64, 0) matches Ok(m2) && {
            let m = chunk::mapped_by(map, logical, 0)->Ok_0;
            &&& m2.devid == m.devid
            &&& m2.physical == m.physical + k
            &&& m2.len == m.len - k
        },
{
    chunk::lemma_mapping_fits(map, logical, 0);
    chunk::law_lookup_finds_the_covering_chunk(map, logical);
    let c = chunk::chunk_at(map, logical)->Some_0;
    let at = choose|at: int| 0 <= at < map.len() && map[at] == c;
    assert(map[at].divisible());
    chunk::laws::law_mapping_stays_in_its_chunk(c, logical, 0);
    let further = (logical + k) as u64;
    assert(c.covers(further));
    chunk::law_lookup_finds_the_covering_chunk(map, further);
    assert(map[at].covers(further));
    chunk::laws::law_mapping_is_contiguous(c, logical, 0, k);
}

/// Bytes that lie inside a range that can be read are read alike alone.
#[verifier::rlimit(40)]
pub(crate) proof fn lemma_gathered_part(
    disk: Disk,
    ids: Seq<u64>,
    map: Seq<ChunkModel>,
    logical: u64,
    len: nat,
    k: nat,
    n: nat,
)
    requires
        steady(disk),
        ids.len() <= usize::MAX,
        chunk::ordered(map),
        chunk::divisible(map),
        len <= usize::MAX,
        k + n <= len,
        logical + k <= u64::MAX,
        device::pooled(disk, ids, map, logical, len) is Ok,
    ensures
        device::pooled(disk, ids, map, (logical + k) as u64, n) == Ok::<Seq<u8>, ErrorView>(
            device::pooled(disk, ids, map, logical, len)->Ok_0.subrange(k as int, (k + n) as int),
        ),
    decreases len,
{
    let whole = device::pooled(disk, ids, map, logical, len)->Ok_0;
    lemma_gathered_len(disk, ids, map, logical, len);
    if n == 0 {
        assert(whole.subrange(k as int, k as int) =~= Seq::<u8>::empty());
    } else {
        let (m, d, head, tail) = lemma_unfold(disk, ids, map, logical, len);
        let h = first_len(m, len);
        let next = (logical + h) as u64;
        lemma_gathered_len(disk, ids, map, next, (len - h) as nat);
        if k >= h {
            lemma_gathered_part(disk, ids, map, next, (len - h) as nat, (k - h) as nat, n);
            assert(tail.subrange(k - h, k - h + n) =~= whole.subrange(k as int, (k + n) as int));
        } else {
            let at = (logical + k) as u64;
            lemma_mapped_further(map, logical, k as u64);
            let m2 = chunk::mapped_by(map, at, 0)->Ok_0;
            let h2 = first_len(m2, n);
            lemma_answer_part(
                disk,
                d,
                m.physical,
                h as usize,
                m2.physical,
                h2 as usize,
            );
            let head2 = head.subrange(k as int, (k + h2) as int);
            if h2 < n {
                lemma_gathered_part(disk, ids, map, next, (len - h) as nat, 0, (n - h2) as nat);
                let tail2 = tail.subrange(0, n - h2);
                lemma_fold(disk, ids, map, at, n, m2, d, head2, tail2);
                assert(head2 + tail2 =~= whole.subrange(k as int, (k + n) as int));
            } else {
                lemma_fold(disk, ids, map, at, n, m2, d, head2, Seq::empty());
                assert(head2 + Seq::<u8>::empty() =~= whole.subrange(k as int, (k + n) as int));
            }
        }
    }
}

/// Whether an extent item puts bytes at file offset `offset`.
pub open spec fn puts_bytes(item: ItemModel, ino: u64, sectorsize: u32, offset: int) -> bool {
    extents::piece_outcome(item.data, ino, sectorsize) matches Ok(piece) && read::piece_len(
        piece,
    ) matches Some(len) && item.key.offset <= offset < item.key.offset + len
}

pub(crate) proof fn lemma_checked_len(
    volume: VolumeModel,
    m: Map<u64, Seq<u8>>,
    ino: u64,
    at: u64,
    take: nat,
)
    requires
        steady(volume.disk),
        volume.sb.sectorsize > 0,
        take <= usize::MAX,
    ensures
        sums::checked_bytes(volume, m, ino, at, take) matches Ok(b) ==> b.len() == take,
{
    reveal(sums::checked_bytes);
    let s = volume.sb.sectorsize;
    let lo = sums::sector_of(at, s);
    let hi = sums::sectors_end(at, take, s);
    sums::lemma_sector_of(at, s);
    sums::lemma_sectors_end(at, take, s);
    lemma_gathered_len(volume.disk, volume.ids, volume.map, at, take);
    if hi - lo <= isize::MAX {
        lemma_gathered_len(volume.disk, volume.ids, volume.map, lo, (hi - lo) as nat);
    }
}

/// Bytes that lie inside a range no digest speaks of are read alike alone.
proof fn lemma_plain_part(
    volume: VolumeModel,
    m: Map<u64, Seq<u8>>,
    ino: u64,
    at: u64,
    take: nat,
    skip: nat,
    n: nat,
)
    requires
        steady(volume.disk),
        volume.ids.len() <= usize::MAX,
        volume.sb.sectorsize > 0,
        chunk::ordered(volume.map),
        chunk::divisible(volume.map),
        take <= usize::MAX,
        skip + n <= take,
        n > 0,
        volume.bytes_at(at, take) is Ok,
        sums::silent(
            m,
            sums::sector_of(at, volume.sb.sectorsize),
            sums::sectors_end(at, take, volume.sb.sectorsize),
            volume.sb.sectorsize,
        ),
    ensures
        at + skip <= u64::MAX,
        sums::checked_bytes(volume, m, ino, (at + skip) as u64, n) == Ok::<Seq<u8>, ErrorView>(
            volume.bytes_at(at, take)->Ok_0.subrange(skip as int, (skip + n) as int),
        ),
{
    let s = volume.sb.sectorsize;
    lemma_no_end(volume, at, take);
    let at2 = (at + skip) as u64;
    let lo2 = sums::sector_of(at2, s);
    let hi2 = sums::sectors_end(at2, n, s);
    sums::lemma_sectors_nest(at, take, at2, n, s);
    lemma_gathered_part(volume.disk, volume.ids, volume.map, at, take, skip, n);
    assert(sums::silent(m, lo2, hi2, s)) by {
        assert forall|k: u64| sums::is_sector(lo2, hi2, s, k) implies !(#[trigger] m.contains_key(
            k,
        )) by {
            assert(sums::is_sector(
                sums::sector_of(at, s),
                sums::sectors_end(at, take, s),
                s,
                k,
            ));
        }
    }
    reveal(sums::checked_bytes);
}

/// Bytes that lie among sectors that match their digests match them alone.
proof fn lemma_wide_part(
    volume: VolumeModel,
    m: Map<u64, Seq<u8>>,
    ino: u64,
    lo: u64,
    hi: u64,
    at: u64,
    n: nat,
)
    requires
        steady(volume.disk),
        volume.ids.len() <= usize::MAX,
        volume.sb.sectorsize > 0,
        chunk::ordered(volume.map),
        chunk::divisible(volume.map),
        n > 0,
        lo % (volume.sb.sectorsize as u64) == 0,
        lo <= sums::sector_of(at, volume.sb.sectorsize),
        sums::sectors_end(at, n, volume.sb.sectorsize) <= hi,
        at + n <= u64::MAX,
        hi - lo <= isize::MAX,
        volume.bytes_at(lo, (hi - lo) as nat) is Ok,
        sums::first_rotten(
            volume.sb.csum_type,
            m,
            volume.sb.sectorsize,
            lo,
            hi,
            volume.bytes_at(lo, (hi - lo) as nat)->Ok_0,
            lo as int,
        ) is None,
    ensures
        sums::checked_bytes(volume, m, ino, at, n) == Ok::<Seq<u8>, ErrorView>(
            volume.bytes_at(lo, (hi - lo) as nat)->Ok_0.subrange(at - lo, at - lo + n),
        ),
{
    let s = volume.sb.sectorsize;
    let (disk, ids, map) = (volume.disk, volume.ids, volume.map);
    let lo2 = sums::sector_of(at, s);
    let hi2 = sums::sectors_end(at, n, s);
    let wide = volume.bytes_at(lo, (hi - lo) as nat)->Ok_0;
    sums::lemma_sector_of(at, s);
    sums::lemma_sectors_end(at, n, s);
    lemma_gathered_len(disk, ids, map, lo, (hi - lo) as nat);
    reveal(sums::checked_bytes);
    if sums::silent(m, lo2, hi2, s) {
        lemma_gathered_part(disk, ids, map, lo, (hi - lo) as nat, (at - lo) as nat, n);
    } else {
        lemma_gathered_part(
            disk,
            ids,
            map,
            lo,
            (hi - lo) as nat,
            (lo2 - lo) as nat,
            (hi2 - lo2) as nat,
        );
        let wide2 = wide.subrange(lo2 - lo, hi2 - lo);
        assert(volume.bytes_at(lo2, (hi2 - lo2) as nat) == Ok::<Seq<u8>, ErrorView>(wide2));
        lemma_inner_is_sound(volume.sb.csum_type, m, s, lo, hi, wide, lo2, hi2);
        assert(wide2.subrange(at - lo2, at - lo2 + n) =~= wide.subrange(at - lo, at - lo + n));
    }
}

/// Bytes that lie inside a range that passes its digests pass them alone.
#[verifier::rlimit(30)]
proof fn lemma_checked_part(
    volume: VolumeModel,
    m: Map<u64, Seq<u8>>,
    ino: u64,
    at: u64,
    take: nat,
    skip: nat,
    n: nat,
)
    requires
        steady(volume.disk),
        volume.ids.len() <= usize::MAX,
        volume.sb.sectorsize > 0,
        chunk::ordered(volume.map),
        chunk::divisible(volume.map),
        take <= usize::MAX,
        skip + n <= take,
        n > 0,
        sums::checked_bytes(volume, m, ino, at, take) is Ok,
    ensures
        at + skip <= u64::MAX,
        sums::checked_bytes(volume, m, ino, (at + skip) as u64, n) == Ok::<Seq<u8>, ErrorView>(
            sums::checked_bytes(volume, m, ino, at, take)->Ok_0.subrange(
                skip as int,
                (skip + n) as int,
            ),
        ),
{
    let s = volume.sb.sectorsize;
    let lo = sums::sector_of(at, s);
    let hi = sums::sectors_end(at, take, s);
    reveal(sums::checked_bytes);
    if at + take > u64::MAX {
        lemma_no_end(volume, at, take);
    }
    if sums::silent(m, lo, hi, s) {
        lemma_plain_part(volume, m, ino, at, take, skip, n);
    } else {
        let at2 = (at + skip) as u64;
        let wide = volume.bytes_at(lo, (hi - lo) as nat)->Ok_0;
        sums::lemma_sector_of(at, s);
        sums::lemma_sectors_end(at, take, s);
        sums::lemma_sectors_nest(at, take, at2, n, s);
        lemma_gathered_len(volume.disk, volume.ids, volume.map, lo, (hi - lo) as nat);
        lemma_wide_part(volume, m, ino, lo, hi, at2, n);
        assert(wide.subrange(at2 - lo, at2 - lo + n) =~= wide.subrange(
            at - lo,
            at - lo + take,
        ).subrange(skip as int, (skip + n) as int));
    }
}

/// A range that can be read ends inside the address space.
pub(crate) proof fn lemma_no_end(volume: VolumeModel, at: u64, take: nat)
    requires
        chunk::divisible(volume.map),
        take > 0,
        volume.bytes_at(at, take) is Ok,
    ensures
        at + take <= u64::MAX,
    decreases take,
{
    chunk::lemma_mapping_fits(volume.map, at, 0);
    let m = chunk::mapped_by(volume.map, at, 0)->Ok_0;
    if take > m.len {
        lemma_no_end(volume, (at + m.len) as u64, (take - m.len) as nat);
    }
}

/// Where no sector of a range is rotten, none of a range inside it is.
proof fn lemma_inner_is_sound(
    kind: ChecksumType,
    m: Map<u64, Seq<u8>>,
    s: u32,
    lo: u64,
    hi: u64,
    wide: Seq<u8>,
    lo2: u64,
    hi2: u64,
)
    requires
        s > 0,
        lo <= lo2 <= hi2 <= hi,
        wide.len() == hi - lo,
        lo % (s as u64) == 0,
        lo2 % (s as u64) == 0,
        sums::first_rotten(kind, m, s, lo, hi, wide, lo as int) is None,
    ensures
        sums::first_rotten(
            kind,
            m,
            s,
            lo2,
            hi2,
            wide.subrange(lo2 - lo, hi2 - lo),
            lo2 as int,
        ) is None,
{
    let wide2 = wide.subrange(lo2 - lo, hi2 - lo);
    sums::lemma_first_rotten(kind, m, s, lo, hi, wide, lo as int);
    sums::lemma_first_rotten(kind, m, s, lo2, hi2, wide2, lo2 as int);
    if let Some(k) = sums::first_rotten(kind, m, s, lo2, hi2, wide2, lo2 as int) {
        assert(wide2.subrange(k - lo2, k - lo2 + s) =~= wide.subrange(k - lo, k - lo + s));
        assert(sums::is_sector(lo, hi, s, k));
        assert(sums::rotten(kind, m, s, lo, wide, k));
    }
}

pub(crate) proof fn lemma_fetched_len(volume: VolumeModel, piece: PieceModel, ino: u64, skip: int, take: nat)
    requires
        steady(volume.disk),
        volume.sb.sectorsize > 0,
        take <= usize::MAX,
        0 <= skip,
        piece matches PieceModel::Inline(b) ==> skip + take <= b.len(),
    ensures
        read::fetched(volume, piece, ino, skip, take) matches Ok(src) ==> src.len() == take,
{
    reveal(read::fetched);
    if let PieceModel::Regular { logical, len } = piece {
        if logical + skip <= u64::MAX {
            if let Ok(m) = sums::named(volume, logical, len as nat) {
                lemma_checked_len(volume, m, ino, (logical + skip) as u64, take);
            }
        }
    }
}

/// Painting changes only the bytes the items put there.
pub(crate) proof fn lemma_painted(
    volume: VolumeModel,
    ino: u64,
    from: u64,
    end: u64,
    items: Seq<ItemModel>,
    k: int,
    buf: Seq<u8>,
)
    requires
        steady(volume.disk),
        volume.sb.sectorsize > 0,
        0 <= k,
        end <= from + buf.len(),
        buf.len() <= usize::MAX,
    ensures
        read::painted(volume, ino, from, end, items, k, buf) matches Ok(out) ==> out.len()
            == buf.len() && forall|p: int|
            0 <= p < buf.len() && (forall|j: int|
                k <= j < items.len() ==> !puts_bytes(
                    #[trigger] items[j],
                    ino,
                    volume.sb.sectorsize,
                    from + p,
                )) ==> #[trigger] out[p] == buf[p],
    decreases items.len() - k,
{
    if k < items.len() && items[k].key.offset < end {
        let at = items[k].key.offset;
        if let Ok(piece) = extents::piece_outcome(items[k].data, ino, volume.sb.sectorsize) {
            let stop = match read::piece_len(piece) {
                Some(len) => read::overlap_end(at, len, end),
                None => 0,
            };
            let start = read::overlap_start(at, from);
            if stop <= start {
                lemma_painted(volume, ino, from, end, items, k + 1, buf);
            } else {
                lemma_fetched_len(volume, piece, ino, start - at, (stop - start) as nat);
                if let Ok(src) = read::fetched(
                    volume,
                    piece,
                    ino,
                    start - at,
                    (stop - start) as nat,
                ) {
                    let next = bytes::splice(buf, start - from, src);
                    lemma_painted(volume, ino, from, end, items, k + 1, next);
                    if let Ok(out) = read::painted(volume, ino, from, end, items, k, buf) {
                        assert forall|p: int|
                            0 <= p < buf.len() && (forall|j: int|
                                k <= j < items.len() ==> !puts_bytes(
                                    #[trigger] items[j],
                                    ino,
                                    volume.sb.sectorsize,
                                    from + p,
                                )) implies #[trigger] out[p] == buf[p] by {
                            assert(!puts_bytes(items[k], ino, volume.sb.sectorsize, from + p));
                            assert(next[p] == buf[p]);
                        }
                    }
                }
            }
        }
    }
}

/// What no extent puts bytes at is a hole, and a hole reads as zeros.
pub proof fn law_holes_read_as_zeros(
    fs: FilesystemModel,
    inode: Inode,
    from: u64,
    len: nat,
    offset: int,
)
    requires
        steady(fs.volume.disk),
        fs.volume.sb.sectorsize > 0,
        len <= usize::MAX,
        from <= offset < from + len,
        forall|j: int|
            0 <= j < item_map::of_kind(fs.items, inode.ino, EXTENT_DATA_KEY).len() ==> !puts_bytes(
                #[trigger] item_map::of_kind(fs.items, inode.ino, EXTENT_DATA_KEY)[j],
                inode.ino,
                fs.volume.sb.sectorsize,
                offset,
            ),
    ensures
        read::range_outcome(fs, inode, from, len) matches Ok(out) ==> out.len() == len && out[offset
            - from] == 0,
{
    let items = item_map::of_kind(fs.items, inode.ino, EXTENT_DATA_KEY);
    let end = read::window_end(from, len, inode.size);
    lemma_painted(fs.volume, inode.ino, from, end, items, 0, bytes::zeros(len));
    if let Ok(out) = read::range_outcome(fs, inode, from, len) {
        assert(out[offset - from] == bytes::zeros(len)[offset - from]);
    }
}

/// Whether the extent items of a file stand in the order of their offsets.
pub open spec fn offsets_ascend(items: Seq<ItemModel>) -> bool {
    forall|i: int, j: int| 0 <= i < j < items.len() ==> (#[trigger] items[i]).key.offset <= (
    #[trigger] items[j]).key.offset
}

/// A piece read in part is the part of the piece read whole.
#[verifier::rlimit(40)]
proof fn lemma_fetched_part(
    volume: VolumeModel,
    piece: PieceModel,
    ino: u64,
    take: nat,
    skip: nat,
    n: nat,
)
    requires
        steady(volume.disk),
        volume.sb.sectorsize > 0,
        volume.ids.len() <= usize::MAX,
        chunk::ordered(volume.map),
        chunk::divisible(volume.map),
        take <= usize::MAX,
        skip + n <= take,
        n > 0,
        piece matches PieceModel::Inline(b) ==> take <= b.len(),
        piece !is Zeros,
        read::fetched(volume, piece, ino, 0, take) is Ok,
    ensures
        read::fetched(volume, piece, ino, skip as int, n) == Ok::<Seq<u8>, ErrorView>(
            read::fetched(volume, piece, ino, 0, take)->Ok_0.subrange(
                skip as int,
                (skip + n) as int,
            ),
        ),
{
    reveal(read::fetched);
    let src = read::fetched(volume, piece, ino, 0, take)->Ok_0;
    match piece {
        PieceModel::Inline(b) => {
            assert(b.subrange(skip as int, (skip + n) as int) =~= src.subrange(
                skip as int,
                (skip + n) as int,
            ));
        },
        PieceModel::Regular { logical, len } => {
            let m = sums::named(volume, logical, len as nat)->Ok_0;
            lemma_checked_part(volume, m, ino, logical, take, skip, n);
        },
        PieceModel::Compressed { logical, disk_len, ram_len, offset, algo, .. } => {
            let packed = read::packed_bytes(volume, ino, logical, disk_len)->Ok_0;
            let decoded = crate::compression::decompressed(
                algo,
                packed,
                ram_len as usize,
                volume.sb.sectorsize as usize,
            )->Ok_0;
            assert(decoded.subrange(offset + skip, offset + skip + n) =~= src.subrange(
                skip as int,
                (skip + n) as int,
            ));
        },
        PieceModel::Zeros => {},
    }
}

/// Laying a part of a piece over a window is laying the piece over the whole
/// and cutting the window out.
proof fn lemma_overlay(
    all: Seq<u8>,
    at: int,
    src: Seq<u8>,
    off: int,
    n: int,
    start: int,
    stop: int,
)
    requires
        0 <= off,
        0 <= n,
        off + n <= all.len(),
        0 <= at,
        at + src.len() <= all.len(),
        at <= start < stop <= at + src.len(),
        off <= start,
        stop <= off + n,
        start == (if at < off {
            off
        } else {
            at
        }),
        stop == (if at + src.len() < off + n {
            at + src.len()
        } else {
            off + n
        }),
    ensures
        bytes::splice(
            all.subrange(off, off + n),
            start - off,
            src.subrange(start - at, stop - at),
        ) == bytes::splice(all, at, src).subrange(off, off + n),
{
    assert(bytes::splice(
        all.subrange(off, off + n),
        start - off,
        src.subrange(start - at, stop - at),
    ) =~= bytes::splice(all, at, src).subrange(off, off + n));
}

/// Painting a window is painting the whole and cutting the window out.
#[verifier::rlimit(30)]
proof fn lemma_window(
    volume: VolumeModel,
    ino: u64,
    size: u64,
    off: u64,
    n: nat,
    items: Seq<ItemModel>,
    k: int,
    all: Seq<u8>,
    part: Seq<u8>,
)
    requires
        steady(volume.disk),
        volume.sb.sectorsize > 0,
        volume.ids.len() <= usize::MAX,
        chunk::ordered(volume.map),
        chunk::divisible(volume.map),
        offsets_ascend(items),
        0 <= k,
        n > 0,
        off + n <= size,
        size <= usize::MAX,
        all.len() == size,
        part == all.subrange(off as int, off + n),
        read::painted(volume, ino, 0, size, items, k, all) is Ok,
    ensures
        read::painted(volume, ino, off, (off + n) as u64, items, k, part) == Ok::<
            Seq<u8>,
            ErrorView,
        >(
            read::painted(volume, ino, 0, size, items, k, all)->Ok_0.subrange(
                off as int,
                off + n,
            ),
        ),
    decreases items.len() - k,
{
    let end = (off + n) as u64;
    lemma_painted(volume, ino, 0, size, items, k, all);
    let out = read::painted(volume, ino, 0, size, items, k, all)->Ok_0;
    if k >= items.len() {
    } else if items[k].key.offset >= end {
        assert forall|p: int| off <= p < end implies out[p] == all[p] by {
            assert forall|j: int| k <= j < items.len() implies !puts_bytes(
                #[trigger] items[j],
                ino,
                volume.sb.sectorsize,
                p,
            ) by {
                assert(items[k].key.offset <= items[j].key.offset);
            }
        }
        assert(out.subrange(off as int, off + n) =~= part);
    } else {
        let at = items[k].key.offset;
        let piece = extents::piece_outcome(items[k].data, ino, volume.sb.sectorsize)->Ok_0;
        match read::piece_len(piece) {
            None => {
                lemma_window(volume, ino, size, off, n, items, k + 1, all, part);
            },
            Some(len) => {
                let stop1 = read::overlap_end(at, len, size);
                let start2 = read::overlap_start(at, off);
                let stop2 = read::overlap_end(at, len, end);
                if stop1 <= at {
                    lemma_window(volume, ino, size, off, n, items, k + 1, all, part);
                } else {
                    let take: nat = (stop1 - at) as nat;
                    let src = read::fetched(volume, piece, ino, 0, take)->Ok_0;
                    lemma_fetched_len(volume, piece, ino, 0, take);
                    let all2 = bytes::splice(all, at as int, src);
                    if stop2 <= start2 {
                        assert(all2.subrange(off as int, off + n) =~= part);
                        lemma_window(volume, ino, size, off, n, items, k + 1, all2, part);
                    } else {
                        let skip: nat = (start2 - at) as nat;
                        let m: nat = (stop2 - start2) as nat;
                        lemma_fetched_part(volume, piece, ino, take, skip, m);
                        let src2 = src.subrange(skip as int, (skip + m) as int);
                        let part2 = bytes::splice(part, start2 - off, src2);
                        lemma_overlay(all, at as int, src, off as int, n as int, start2, stop2);
                        assert(part2 == all2.subrange(off as int, off + n));
                        lemma_window(volume, ino, size, off, n, items, k + 1, all2, part2);
                    }
                }
            },
        }
    }
}

pub(crate) proof fn lemma_filter_keeps_order(
    s: Seq<ItemModel>,
    ino: u64,
    key_type: u8,
)
    requires
        leaf_edit::sorted(s),
    ensures
        offsets_ascend(item_map::of_kind(s, ino, key_type)),
        forall|i: int|
            0 <= i < item_map::of_kind(s, ino, key_type).len() ==> s.contains(
                #[trigger] item_map::of_kind(s, ino, key_type)[i],
            ) && item_map::is_kind(ino, key_type)(item_map::of_kind(s, ino, key_type)[i]),
    decreases s.len(),
{
    reveal(Seq::filter);
    let keep = item_map::is_kind(ino, key_type);
    let f = item_map::of_kind(s, ino, key_type);
    if s.len() > 0 {
        let front = s.drop_last();
        assert forall|i: int, j: int| 0 <= i < j < front.len() implies btree::key_less(
            (#[trigger] front[i]).key,
            (#[trigger] front[j]).key,
        ) by {
            assert(front[i] == s[i] && front[j] == s[j]);
        }
        lemma_filter_keeps_order(front, ino, key_type);
        let g = item_map::of_kind(front, ino, key_type);
        assert forall|i: int| 0 <= i < f.len() implies s.contains(#[trigger] f[i]) && keep(f[i]) by {
            if i < g.len() {
                assert(f[i] == g[i]);
                let k = choose|k: int| 0 <= k < front.len() && front[k] == g[i];
                assert(s[k] == f[i]);
            } else {
                assert(f[i] == s[s.len() - 1]);
            }
        }
        if keep(s.last()) {
            assert(f == g.push(s.last()));
            assert forall|i: int, j: int| 0 <= i < j < f.len() implies (#[trigger] f[i]).key.offset
                <= (#[trigger] f[j]).key.offset by {
                if j == f.len() - 1 {
                    assert(f[i] == g[i]);
                    let k = choose|k: int| 0 <= k < front.len() && front[k] == g[i];
                    assert(btree::key_less(s[k].key, s[s.len() - 1].key));
                    assert(keep(g[i]));
                } else {
                    assert(f[i] == g[i] && f[j] == g[j]);
                }
            }
        }
    }
}

/// Reading part of a file gives that part of what reading the whole of it
/// gives: as many bytes as were asked for, or as many as the file still has.
pub proof fn law_a_part_is_cut_out_of_the_whole(
    fs: FilesystemModel,
    ino: u64,
    offset: u64,
    len: nat,
)
    requires
        steady(fs.volume.disk),
        fs.volume.sb.sectorsize > 0,
        fs.volume.ids.len() <= usize::MAX,
        chunk::ordered(fs.volume.map),
        chunk::divisible(fs.volume.map),
        leaf_edit::sorted(fs.items),
        read::file_outcome(fs, ino) is Ok,
    ensures
        ({
            let all = read::file_outcome(fs, ino)->Ok_0;
            &&& all.len() == namespace::inode_of(fs.items, ino)->Ok_0.size
            &&& read::part_outcome(fs, ino, offset, len) == Ok::<Seq<u8>, ErrorView>(
                if offset >= all.len() {
                    Seq::empty()
                } else if offset + len < all.len() {
                    all.subrange(offset as int, offset + len)
                } else {
                    all.skip(offset as int)
                },
            )
        }),
{
    let inode = namespace::inode_of(fs.items, ino)->Ok_0;
    let size = inode.size;
    let items = item_map::of_kind(fs.items, ino, EXTENT_DATA_KEY);
    let zeros = bytes::zeros(size as nat);
    let all = read::file_outcome(fs, ino)->Ok_0;
    lemma_filter_keeps_order(fs.items, ino, EXTENT_DATA_KEY);
    if size > 0 {
        lemma_painted(fs.volume, ino, 0, size, items, 0, zeros);
    }
    if offset < size {
        let end = read::window_end(offset, len, size);
        let n: nat = (end - offset) as nat;
        if n > 0 {
            let part = bytes::zeros(n);
            assert(part =~= zeros.subrange(offset as int, offset + n));
            lemma_window(fs.volume, ino, size, offset, n, items, 0, zeros, part);
            assert(read::window_end(offset, n, size) == end);
            assert(all.skip(offset as int) =~= all.subrange(offset as int, size as int));
        } else {
            assert(all.subrange(offset as int, offset as int) =~= Seq::<u8>::empty());
        }
    }
}

} // verus!
