//! What the bytes of a file's extent items say of the bytes of the file.

use vstd::prelude::*;

use crate::btree::ItemModel;
use crate::bytes;
use crate::chunk;
use crate::compression;
use crate::compression::Compression;
use crate::error::ErrorView;
use crate::fs::extents;
use crate::fs::extents::PieceModel;
use crate::fs::laws;
use crate::fs::namespace;
use crate::fs::read;
use crate::fs::sums;
use crate::fs::{FilesystemModel, EXTENT_DATA_KEY};
use crate::item_map;
use crate::leaf_edit;
use crate::volume::VolumeModel;

verus! {

/// Whether an item is an extent item of inode `ino`.
pub open spec fn extent_of(item: ItemModel, ino: u64) -> bool {
    item.key.objectid == ino && item.key.key_type == 108
}

/// Whether a filesystem can be read from at all: its device gives the same
/// bytes however it is asked, and its maps are as mounting leaves them.
pub open spec fn sound(fs: FilesystemModel) -> bool {
    &&& laws::steady(fs.volume.disk)
    &&& fs.volume.sb.sectorsize > 0
    &&& fs.volume.ids.len() <= usize::MAX
    &&& chunk::ordered(fs.volume.map)
    &&& chunk::divisible(fs.volume.map)
    &&& leaf_edit::sorted(fs.items)
}

/// Whether `x` is the last extent item of inode `ino` that starts at or before
/// offset `j` of the file.
pub open spec fn reaches(fs: FilesystemModel, ino: u64, x: ItemModel, j: int) -> bool {
    &&& fs.items.contains(x)
    &&& extent_of(x, ino)
    &&& x.key.offset <= j
    &&& forall|y: ItemModel|
        #[trigger] fs.items.contains(y) && extent_of(y, ino) ==> y.key.offset <= x.key.offset
            || j < y.key.offset
}

/// The byte at `p` is the one the last item that puts bytes there puts there.
proof fn lemma_painted_at(
    volume: VolumeModel,
    ino: u64,
    end: u64,
    items: Seq<ItemModel>,
    k: int,
    buf: Seq<u8>,
    i: int,
    p: int,
) -> (src: Seq<u8>)
    requires
        laws::steady(volume.disk),
        volume.sb.sectorsize > 0,
        laws::offsets_ascend(items),
        0 <= k <= i < items.len(),
        buf.len() == end,
        end <= usize::MAX,
        laws::puts_bytes(items[i], ino, volume.sb.sectorsize, p),
        p < end,
        forall|j: int|
            i < j < items.len() ==> !laws::puts_bytes(
                #[trigger] items[j],
                ino,
                volume.sb.sectorsize,
                p,
            ),
        read::painted(volume, ino, 0, end, items, k, buf) is Ok,
    ensures
        ({
            let at = items[i].key.offset;
            let piece = extents::piece_outcome(items[i].data, ino, volume.sb.sectorsize)->Ok_0;
            let len = read::piece_len(piece)->Some_0;
            &&& read::fetched(
                volume,
                piece,
                ino,
                0,
                (read::overlap_end(at, len, end) - at) as nat,
            ) == Ok::<Seq<u8>, ErrorView>(src)
            &&& src.len() == read::overlap_end(at, len, end) - at
            &&& read::painted(volume, ino, 0, end, items, k, buf)->Ok_0.len() == end
            &&& read::painted(volume, ino, 0, end, items, k, buf)->Ok_0[p] == src[p - at]
        }),
    decreases i - k,
{
    laws::lemma_painted(volume, ino, 0, end, items, k, buf);
    let at = items[k].key.offset;
    if k < i {
        assert(at <= items[i].key.offset);
    }
    let piece = extents::piece_outcome(items[k].data, ino, volume.sb.sectorsize)->Ok_0;
    let stop = match read::piece_len(piece) {
        Some(len) => read::overlap_end(at, len, end),
        None => 0,
    };
    if stop <= at {
        lemma_painted_at(volume, ino, end, items, k + 1, buf, i, p)
    } else {
        let src = read::fetched(volume, piece, ino, 0, (stop - at) as nat)->Ok_0;
        laws::lemma_fetched_len(volume, piece, ino, 0, (stop - at) as nat);
        let next = bytes::splice(buf, at as int, src);
        if k < i {
            lemma_painted_at(volume, ino, end, items, k + 1, next, i, p)
        } else {
            laws::lemma_painted(volume, ino, 0, end, items, k + 1, next);
            let out = read::painted(volume, ino, 0, end, items, k + 1, next)->Ok_0;
            assert(out[p] == next[p]);
            src
        }
    }
}

/// Every extent item that starts before the end of what could be read could
/// be read itself.
proof fn lemma_all_parsed(
    volume: VolumeModel,
    ino: u64,
    end: u64,
    items: Seq<ItemModel>,
    k: int,
    buf: Seq<u8>,
    i: int,
)
    requires
        laws::offsets_ascend(items),
        0 <= k <= i < items.len(),
        items[i].key.offset < end,
        read::painted(volume, ino, 0, end, items, k, buf) is Ok,
    ensures
        extents::piece_outcome(items[i].data, ino, volume.sb.sectorsize) is Ok,
    decreases i - k,
{
    if k < i {
        let at = items[k].key.offset;
        assert(at <= items[i].key.offset);
        let piece = extents::piece_outcome(items[k].data, ino, volume.sb.sectorsize)->Ok_0;
        let stop = match read::piece_len(piece) {
            Some(len) => read::overlap_end(at, len, end),
            None => 0,
        };
        let start = read::overlap_start(at, 0);
        if stop <= start {
            lemma_all_parsed(volume, ino, end, items, k + 1, buf, i);
        } else {
            let src = read::fetched(volume, piece, ino, start - at, (stop - start) as nat)->Ok_0;
            let next = bytes::splice(buf, start - 0, src);
            lemma_all_parsed(volume, ino, end, items, k + 1, next, i);
        }
    }
}

proof fn lemma_member(s: Seq<ItemModel>, ino: u64, x: ItemModel) -> (i: int)
    requires
        s.contains(x),
        extent_of(x, ino),
    ensures
        0 <= i < item_map::of_kind(s, ino, EXTENT_DATA_KEY).len(),
        item_map::of_kind(s, ino, EXTENT_DATA_KEY)[i] == x,
{
    let keep = item_map::is_kind(ino, EXTENT_DATA_KEY);
    let f = item_map::of_kind(s, ino, EXTENT_DATA_KEY);
    assert(keep(x));
    let at = choose|at: int| 0 <= at < s.len() && s[at] == x;
    s.lemma_filter_contains(keep, at);
    choose|i: int| 0 <= i < f.len() && f[i] == x
}

/// What a file reads as, of the piece that is the last to reach `j`.
proof fn lemma_byte_of_piece(
    fs: FilesystemModel,
    ino: u64,
    x: ItemModel,
    j: int,
) -> (src: Seq<u8>)
    requires
        sound(fs),
        read::file_outcome(fs, ino) is Ok,
        reaches(fs, ino, x, j),
        j < read::file_outcome(fs, ino)->Ok_0.len(),
        laws::puts_bytes(x, ino, fs.volume.sb.sectorsize, j),
    ensures
        ({
            let out = read::file_outcome(fs, ino)->Ok_0;
            let at = x.key.offset;
            let piece = extents::piece_outcome(x.data, ino, fs.volume.sb.sectorsize)->Ok_0;
            let len = read::piece_len(piece)->Some_0;
            let take = if at + len < out.len() {
                len as int
            } else {
                out.len() - at
            };
            &&& out.len() <= isize::MAX
            &&& read::fetched(fs.volume, piece, ino, 0, take as nat) == Ok::<
                Seq<u8>,
                ErrorView,
            >(src)
            &&& src.len() == take
            &&& j - at < take
            &&& out[j] == src[j - at]
        }),
{
    let inode = namespace::inode_of(fs.items, ino)->Ok_0;
    let items = item_map::of_kind(fs.items, ino, EXTENT_DATA_KEY);
    let out = read::file_outcome(fs, ino)->Ok_0;
    let size = inode.size;
    let zeros = bytes::zeros(size as nat);
    laws::lemma_filter_keeps_order(fs.items, ino, EXTENT_DATA_KEY);
    let i = lemma_member(fs.items, ino, x);
    laws::lemma_painted(fs.volume, ino, 0, size, items, 0, zeros);
    assert forall|m: int| i < m < items.len() implies !laws::puts_bytes(
        #[trigger] items[m],
        ino,
        fs.volume.sb.sectorsize,
        j,
    ) by {
        assert(fs.items.contains(items[m]) && item_map::is_kind(ino, EXTENT_DATA_KEY)(items[m]));
        assert(items[i].key.offset <= items[m].key.offset);
        lemma_offsets_differ(fs.items, ino, i, m);
        assert(x.key.offset < items[m].key.offset);
    }
    lemma_painted_at(fs.volume, ino, size, items, 0, zeros, i, j)
}

/// No two extent items of a file start at the same offset.
proof fn lemma_offsets_differ(s: Seq<ItemModel>, ino: u64, i: int, m: int)
    requires
        leaf_edit::sorted(s),
        0 <= i < m < item_map::of_kind(s, ino, EXTENT_DATA_KEY).len(),
    ensures
        item_map::of_kind(s, ino, EXTENT_DATA_KEY)[i].key.offset != item_map::of_kind(
            s,
            ino,
            EXTENT_DATA_KEY,
        )[m].key.offset,
    decreases s.len(),
{
    reveal(Seq::filter);
    let keep = item_map::is_kind(ino, EXTENT_DATA_KEY);
    let f = item_map::of_kind(s, ino, EXTENT_DATA_KEY);
    let front = s.drop_last();
    let g = item_map::of_kind(front, ino, EXTENT_DATA_KEY);
    assert(leaf_edit::sorted(front));
    laws::lemma_filter_keeps_order(front, ino, EXTENT_DATA_KEY);
    if m < g.len() {
        assert(f[i] == g[i] && f[m] == g[m]);
        lemma_offsets_differ(front, ino, i, m);
    } else {
        assert(f[m] == s[s.len() - 1]);
        assert(f[i] == g[i]);
        assert(front.contains(g[i]) && keep(g[i]));
        let k = choose|k: int| 0 <= k < front.len() && front[k] == g[i];
        assert(s[k] == g[i]);
        assert(keep(f[m]));
    }
}

/// Bytes that pass their digests are the bytes the volume holds.
proof fn lemma_checked_byte(
    volume: VolumeModel,
    m: Map<u64, Seq<u8>>,
    ino: u64,
    at: u64,
    take: nat,
    skip: nat,
    n: nat,
)
    requires
        laws::steady(volume.disk),
        volume.ids.len() <= usize::MAX,
        volume.sb.sectorsize > 0,
        chunk::ordered(volume.map),
        chunk::divisible(volume.map),
        take <= usize::MAX,
        skip + n <= take,
        n > 0,
        sums::checked_bytes(volume, m, ino, at, take) is Ok,
    ensures
        at + skip <= u64::MAX,
        volume.bytes_at((at + skip) as u64, n) == Ok::<Seq<u8>, ErrorView>(
            sums::checked_bytes(volume, m, ino, at, take)->Ok_0.subrange(
                skip as int,
                (skip + n) as int,
            ),
        ),
{
    let s = volume.sb.sectorsize;
    let lo = sums::sector_of(at, s);
    let hi = sums::sectors_end(at, take, s);
    let src = sums::checked_bytes(volume, m, ino, at, take)->Ok_0;
    reveal(sums::checked_bytes);
    if at + take > u64::MAX || sums::silent(m, lo, hi, s) {
        laws::lemma_no_end(volume, at, take);
        laws::lemma_gathered_part(volume.disk, volume.ids, volume.map, at, take, skip, n);
    } else {
        let wide = volume.bytes_at(lo, (hi - lo) as nat)->Ok_0;
        sums::lemma_sector_of(at, s);
        sums::lemma_sectors_end(at, take, s);
        laws::lemma_gathered_len(volume.disk, volume.ids, volume.map, lo, (hi - lo) as nat);
        laws::lemma_gathered_part(
            volume.disk,
            volume.ids,
            volume.map,
            lo,
            (hi - lo) as nat,
            (at - lo + skip) as nat,
            n,
        );
        assert(src.subrange(skip as int, (skip + n) as int) =~= wide.subrange(
            at - lo + skip,
            at - lo + skip + n,
        ));
    }
}

/// Byte `j` of a file, where an uncompressed extent on disk reaches it, is the
/// byte the volume holds as far into the extent as the reference starts and
/// `j` lies behind the reference's own offset in the file.
pub proof fn law_a_stored_extent_is_read_where_it_lies(
    fs: FilesystemModel,
    ino: u64,
    x: ItemModel,
    j: int,
)
    requires
        sound(fs),
        read::file_outcome(fs, ino) is Ok,
        j < read::file_outcome(fs, ino)->Ok_0.len(),
        reaches(fs, ino, x, j),
        x.data.len() >= 53,
        x.data[20] == 1,
        x.data[16] == 0,
        bytes::u64_at(x.data, 21) != 0,
        j < x.key.offset + bytes::u64_at(x.data, 45),
    ensures
        ({
            let place = bytes::u64_at(x.data, 21) + bytes::u64_at(x.data, 37) + (j - x.key.offset);
            &&& place <= u64::MAX
            &&& fs.volume.bytes_at(place as u64, 1) == Ok::<Seq<u8>, ErrorView>(
                seq![read::file_outcome(fs, ino)->Ok_0[j]],
            )
        }),
{
    let out = read::file_outcome(fs, ino)->Ok_0;
    let at = x.key.offset;
    let piece = lemma_parsed(fs, ino, x, j);
    reveal(extents::piece_outcome);
    assert(piece matches PieceModel::Regular { logical, len } && logical == bytes::u64_at(
        x.data,
        21,
    ) + bytes::u64_at(x.data, 37) && len == bytes::u64_at(x.data, 45));
    let src = lemma_byte_of_piece(fs, ino, x, j);
    reveal(read::fetched);
    if let PieceModel::Regular { logical, len } = piece {
        let m = sums::named(fs.volume, logical, len as nat)->Ok_0;
        let skip: nat = (j - at) as nat;
        lemma_checked_byte(fs.volume, m, ino, logical, src.len(), skip, 1);
        assert(src.subrange(skip as int, (skip + 1) as int) =~= seq![out[j]]);
    }
}

/// The piece an extent item of a file that could be read describes.
proof fn lemma_parsed(fs: FilesystemModel, ino: u64, x: ItemModel, j: int) -> (piece: PieceModel)
    requires
        sound(fs),
        read::file_outcome(fs, ino) is Ok,
        fs.items.contains(x),
        extent_of(x, ino),
        x.key.offset <= j < read::file_outcome(fs, ino)->Ok_0.len(),
    ensures
        extents::piece_outcome(x.data, ino, fs.volume.sb.sectorsize) == Ok::<
            PieceModel,
            ErrorView,
        >(piece),
{
    let inode = namespace::inode_of(fs.items, ino)->Ok_0;
    let items = item_map::of_kind(fs.items, ino, EXTENT_DATA_KEY);
    let zeros = bytes::zeros(inode.size as nat);
    laws::lemma_filter_keeps_order(fs.items, ino, EXTENT_DATA_KEY);
    laws::lemma_painted(fs.volume, ino, 0, inode.size, items, 0, zeros);
    let i = lemma_member(fs.items, ino, x);
    lemma_all_parsed(fs.volume, ino, inode.size, items, 0, zeros, i);
    extents::piece_outcome(x.data, ino, fs.volume.sb.sectorsize)->Ok_0
}

/// Byte `j` of a file, where uncompressed data in an item reaches it, is the
/// byte of the item that lies as far behind the item's 21 bytes of header as
/// `j` lies behind the item's offset in the file.
pub proof fn law_inline_data_is_read_from_the_item(
    fs: FilesystemModel,
    ino: u64,
    x: ItemModel,
    j: int,
)
    requires
        sound(fs),
        read::file_outcome(fs, ino) is Ok,
        j < read::file_outcome(fs, ino)->Ok_0.len(),
        reaches(fs, ino, x, j),
        x.data.len() >= 21,
        x.data[20] == 0,
        x.data[16] == 0,
        21 + (j - x.key.offset) < x.data.len(),
    ensures
        read::file_outcome(fs, ino)->Ok_0[j] == x.data[21 + (j - x.key.offset)],
{
    let piece = lemma_parsed(fs, ino, x, j);
    reveal(extents::piece_outcome);
    assert(piece == PieceModel::Inline(x.data.skip(21)));
    let src = lemma_byte_of_piece(fs, ino, x, j);
    reveal(read::fetched);
}

/// The algorithm an extent item's compression byte names.
pub open spec fn names(byte: u8, algo: Compression) -> bool {
    match algo {
        Compression::Stored => byte == 0,
        Compression::Zlib => byte == 1,
        Compression::Lzo => byte == 2,
        Compression::Zstd => byte == 3,
    }
}

/// Byte `j` of a file, where a compressed extent on disk reaches it, is the
/// byte of the whole extent, unpacked, as far in as the reference starts and
/// `j` lies behind the reference's own offset in the file.
pub proof fn law_a_packed_extent_is_unpacked_whole(
    fs: FilesystemModel,
    ino: u64,
    x: ItemModel,
    j: int,
    algo: Compression,
)
    requires
        sound(fs),
        read::file_outcome(fs, ino) is Ok,
        j < read::file_outcome(fs, ino)->Ok_0.len(),
        reaches(fs, ino, x, j),
        x.data.len() >= 53,
        x.data[20] == 1,
        algo != Compression::Stored,
        names(x.data[16], algo),
        bytes::u64_at(x.data, 21) != 0,
        0 < bytes::u64_at(x.data, 29) <= usize::MAX,
        j < x.key.offset + bytes::u64_at(x.data, 45),
    ensures
        ({
            let packed = fs.volume.bytes_at(
                bytes::u64_at(x.data, 21),
                bytes::u64_at(x.data, 29) as nat,
            );
            let unpacked = compression::decompressed(
                algo,
                packed->Ok_0,
                bytes::u64_at(x.data, 8) as usize,
                fs.volume.sb.sectorsize as usize,
            );
            &&& packed is Ok
            &&& unpacked is Ok
            &&& bytes::u64_at(x.data, 37) + (j - x.key.offset) < unpacked->Ok_0.len()
            &&& read::file_outcome(fs, ino)->Ok_0[j] == unpacked->Ok_0[bytes::u64_at(x.data, 37) + (
            j - x.key.offset)]
        }),
{
    let out = read::file_outcome(fs, ino)->Ok_0;
    let at = x.key.offset;
    let piece = lemma_parsed(fs, ino, x, j);
    reveal(extents::piece_outcome);
    assert(piece == PieceModel::Compressed {
        logical: bytes::u64_at(x.data, 21),
        disk_len: bytes::u64_at(x.data, 29),
        ram_len: bytes::u64_at(x.data, 8),
        offset: bytes::u64_at(x.data, 37),
        len: bytes::u64_at(x.data, 45),
        algo,
    });
    let src = lemma_byte_of_piece(fs, ino, x, j);
    reveal(read::fetched);
    let logical = bytes::u64_at(x.data, 21);
    let disk_len = bytes::u64_at(x.data, 29);
    let m = sums::named(fs.volume, logical, disk_len as nat)->Ok_0;
    let packed = sums::checked_bytes(fs.volume, m, ino, logical, disk_len as nat)->Ok_0;
    lemma_checked_byte(fs.volume, m, ino, logical, disk_len as nat, 0, disk_len as nat);
    laws::lemma_gathered_len(
        fs.volume.disk,
        fs.volume.ids,
        fs.volume.map,
        logical,
        disk_len as nat,
    );
    assert(packed.len() == disk_len) by {
        laws::lemma_checked_len(fs.volume, m, ino, logical, disk_len as nat);
    }
    assert(packed.subrange(0, disk_len as int) =~= packed);
}

/// Byte `j` of a file, where packed data in an item reaches it, is that byte
/// of the data, unpacked.
pub proof fn law_packed_inline_data_is_unpacked(
    fs: FilesystemModel,
    ino: u64,
    x: ItemModel,
    j: int,
    algo: Compression,
)
    requires
        sound(fs),
        read::file_outcome(fs, ino) is Ok,
        j < read::file_outcome(fs, ino)->Ok_0.len(),
        reaches(fs, ino, x, j),
        x.data.len() >= 21,
        x.data[20] == 0,
        algo != Compression::Stored,
        names(x.data[16], algo),
        j < x.key.offset + bytes::u64_at(x.data, 8),
    ensures
        ({
            let unpacked = compression::decompressed(
                algo,
                x.data.skip(21),
                bytes::u64_at(x.data, 8) as usize,
                fs.volume.sb.sectorsize as usize,
            );
            &&& unpacked is Ok
            &&& j - x.key.offset < unpacked->Ok_0.len()
            &&& read::file_outcome(fs, ino)->Ok_0[j] == unpacked->Ok_0[j - x.key.offset]
        }),
{
    let piece = lemma_parsed(fs, ino, x, j);
    reveal(extents::piece_outcome);
    let ram = bytes::u64_at(x.data, 8);
    let unpacked = compression::decompressed(
        algo,
        x.data.skip(21),
        ram as usize,
        fs.volume.sb.sectorsize as usize,
    );
    assert(ram <= isize::MAX);
    assert(unpacked is Ok);
    assert(unpacked->Ok_0.len() == ram);
    assert(piece == PieceModel::Inline(unpacked->Ok_0));
    let src = lemma_byte_of_piece(fs, ino, x, j);
    reveal(read::fetched);
}

/// Whether an extent item puts nothing at offset `j` of the file: it starts
/// behind `j`, or ends before it, or is a hole or space set aside unwritten.
pub open spec fn leaves_out(x: ItemModel, j: int) -> bool {
    ||| j < x.key.offset
    ||| x.data.len() >= 53 && x.data[20] == 2
    ||| x.data.len() >= 53 && x.data[20] == 1 && bytes::u64_at(x.data, 21) == 0
    ||| x.data.len() >= 53 && x.data[20] == 1 && x.key.offset + bytes::u64_at(x.data, 45) <= j
    ||| x.data.len() >= 21 && x.data[20] == 0 && x.data[16] == 0 && x.key.offset + (x.data.len()
        - 21) <= j
}

/// A byte of a file that every extent leaves out reads as zero.
pub proof fn law_what_no_extent_holds_is_zero(fs: FilesystemModel, ino: u64, j: int)
    requires
        sound(fs),
        read::file_outcome(fs, ino) is Ok,
        0 <= j < read::file_outcome(fs, ino)->Ok_0.len(),
        forall|x: ItemModel|
            #[trigger] fs.items.contains(x) && extent_of(x, ino) ==> leaves_out(x, j),
    ensures
        read::file_outcome(fs, ino)->Ok_0[j] == 0,
{
    let inode = namespace::inode_of(fs.items, ino)->Ok_0;
    let items = item_map::of_kind(fs.items, ino, EXTENT_DATA_KEY);
    let zeros = bytes::zeros(inode.size as nat);
    laws::lemma_filter_keeps_order(fs.items, ino, EXTENT_DATA_KEY);
    laws::lemma_painted(fs.volume, ino, 0, inode.size, items, 0, zeros);
    assert forall|i: int| 0 <= i < items.len() implies !laws::puts_bytes(
        #[trigger] items[i],
        ino,
        fs.volume.sb.sectorsize,
        j,
    ) by {
        let x = items[i];
        assert(fs.items.contains(x) && item_map::is_kind(ino, EXTENT_DATA_KEY)(x));
        assert(leaves_out(x, j));
        reveal(extents::piece_outcome);
    }
    let out = read::file_outcome(fs, ino)->Ok_0;
    assert(out[j] == zeros[j]);
}

/// A file one of whose extents is encrypted, encoded in a way unknown here or
/// of an unknown kind or packing is not read as if it were not.
pub proof fn law_an_unknown_encoding_is_not_read(
    fs: FilesystemModel,
    ino: u64,
    x: ItemModel,
)
    requires
        sound(fs),
        namespace::inode_of(fs.items, ino) is Ok,
        fs.items.contains(x),
        extent_of(x, ino),
        x.key.offset < namespace::inode_of(fs.items, ino)->Ok_0.size,
        x.data.len() < 21 || x.data[16] > 3 || x.data[17] != 0 || bytes::u16_at(x.data, 18) != 0
            || x.data[20] > 2 || (x.data[20] > 0 && x.data.len() < 53),
    ensures
        read::file_outcome(fs, ino) is Err,
{
    if read::file_outcome(fs, ino) is Ok {
        let inode = namespace::inode_of(fs.items, ino)->Ok_0;
        let items = item_map::of_kind(fs.items, ino, EXTENT_DATA_KEY);
        laws::lemma_painted(
            fs.volume,
            ino,
            0,
            inode.size,
            items,
            0,
            bytes::zeros(inode.size as nat),
        );
        let piece = lemma_parsed(fs, ino, x, x.key.offset as int);
        reveal(extents::piece_outcome);
    }
}

} // verus!
