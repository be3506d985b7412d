//! What a write leaves for a read to find.

use vstd::prelude::*;

use crate::btree::ItemModel;
use crate::bytes;
use crate::chunk;
use crate::chunk::ChunkModel;
use crate::device;
use crate::device_write;
use crate::device_write::ActionModel;
use crate::error::ErrorView;
use crate::fs::extents;
use crate::fs::extents::{FileExtent, PieceModel};
use crate::fs::namespace;
use crate::fs::read;
use crate::fs::sums;
use crate::fs::{FilesystemModel, EXTENT_DATA_KEY};
use crate::item_map;
use crate::volume::VolumeModel;

verus! {

/// Whether no offset in `offset .. offset + len` is covered by two of a
/// file's extents.
pub open spec fn covered_once(pieces: Seq<FileExtent>, offset: u64, len: nat) -> bool {
    forall|i: int, j: int, pos: u64|
        0 <= i < pieces.len() && 0 <= j < pieces.len() && offset <= pos < offset + len
            && #[trigger] crate::write::holds(pieces[i], pos) && #[trigger] crate::write::holds(pieces[j], pos)
            ==> i == j
}

/// A filesystem whose device came to hold `content`.
pub open spec fn on_device(fs: FilesystemModel, content: Seq<u8>) -> FilesystemModel {
    FilesystemModel {
        volume: VolumeModel { disk: device_write::holding(content), ..fs.volume },
        ..fs
    }
}

/// Whether the checksum tree names no sector of any extent that reaches into
/// the range, as it names none of a file that has no checksums.
pub open spec fn uncovered(
    volume: VolumeModel,
    pieces: Seq<FileExtent>,
    offset: u64,
    len: nat,
) -> bool {
    forall|i: int|
        0 <= i < pieces.len() && part_start(#[trigger] pieces[i], offset) < part_stop(
            pieces[i],
            offset,
            len,
        ) ==> (pieces[i].logical matches Some(logical) ==> sums::unnamed(
            volume,
            logical,
            pieces[i].len as nat,
        ))
}

/// Where the part of an extent inside a window begins.
pub open spec fn part_start(piece: FileExtent, offset: u64) -> int {
    read::overlap_start(piece.start, offset)
}

/// Where the part of an extent inside a window ends.
pub open spec fn part_stop(piece: FileExtent, offset: u64, len: nat) -> int {
    read::overlap_end(piece.start, piece.len as nat, (offset + len) as u64)
}

/// What a plan has behind it stays at its front.
proof fn lemma_plan_extends(
    volume: VolumeModel,
    pieces: Seq<FileExtent>,
    ino: u64,
    offset: u64,
    len: nat,
    done: nat,
    before: Seq<(u64, usize)>,
)
    ensures
        crate::write::plan_from(volume, pieces, ino, offset, len, done, before) matches Ok(plan)
            ==> before.len() <= plan.len() && plan.take(before.len() as int) == before,
    decreases len - done,
{
    if done < len {
        let pos = (offset + done) as u64;
        if let Some(piece) = crate::write::extent_at(pieces, pos, 0) {
            if crate::write::piece_refusal(volume, ino, pos, piece) is None {
                let within: int = pos - piece.start;
                let left: int = piece.len - within;
                let n: int = if left < len - done {
                    left
                } else {
                    len - done
                };
                if n > 0 {
                    let next = before.push(
                        ((piece.logical->Some_0 + within) as u64, n as usize),
                    );
                    lemma_plan_extends(volume, pieces, ino, offset, len, (done + n) as nat, next);
                    if let Ok(plan) = crate::write::plan_from(
                        volume,
                        pieces,
                        ino,
                        offset,
                        len,
                        done,
                        before,
                    ) {
                        assert(plan.take(before.len() as int) =~= plan.take(
                            next.len() as int,
                        ).take(before.len() as int));
                        assert(next.take(before.len() as int) =~= before);
                    }
                }
            }
        }
    }
    assert(before.take(before.len() as int) =~= before);
}

/// An extent that reaches into the window is a part of the plan, whole as far
/// as the window goes.
proof fn lemma_part_is_planned(
    volume: VolumeModel,
    pieces: Seq<FileExtent>,
    ino: u64,
    offset: u64,
    len: nat,
    done: nat,
    before: Seq<(u64, usize)>,
    plan: Seq<(u64, usize)>,
    j: int,
) -> (q: int)
    requires
        offset + len <= u64::MAX,
        len <= usize::MAX,
        covered_once(pieces, offset, len),
        0 <= j < pieces.len(),
        part_start(pieces[j], offset) < part_stop(pieces[j], offset, len),
        offset + done <= part_start(pieces[j], offset),
        crate::write::plan_len(before) == done,
        crate::write::plan_from(volume, pieces, ino, offset, len, done, before) == Ok::<
            Seq<(u64, usize)>,
            ErrorView,
        >(plan),
    ensures
        0 <= q < plan.len(),
        pieces[j].logical is Some,
        pieces[j].logical->Some_0 + pieces[j].len <= u64::MAX,
        plan[q].0 == pieces[j].logical->Some_0 + (part_start(pieces[j], offset) - pieces[j].start),
        plan[q].1 == part_stop(pieces[j], offset, len) - part_start(pieces[j], offset),
        crate::write::plan_len(plan.take(q)) == part_start(pieces[j], offset) - offset,
    decreases len - done,
{
    let target = pieces[j];
    let start = part_start(target, offset);
    let stop = part_stop(target, offset, len);
    let pos = (offset + done) as u64;
    assert(done < len);
    let piece = crate::write::extent_at(pieces, pos, 0)->Some_0;
    crate::write::lemma_extent_at(pieces, pos, 0);
    let i = choose|i: int| 0 <= i < pieces.len() && #[trigger] pieces[i] == piece;
    assert(crate::write::holds(pieces[i], pos));
    assert(crate::write::piece_refusal(volume, ino, pos, piece) is None);
    let within: int = pos - piece.start;
    let left: int = piece.len - within;
    let n: int = if left < len - done {
        left
    } else {
        len - done
    };
    let part = ((piece.logical->Some_0 + within) as u64, n as usize);
    let next = before.push(part);
    assert(next.drop_last() =~= before);
    if pos == start {
        assert(crate::write::holds(pieces[j], pos));
        assert(i == j);
        lemma_plan_extends(volume, pieces, ino, offset, len, (done + n) as nat, next);
        let q: int = before.len() as int;
        assert(plan.take(next.len() as int)[q] == plan[q]);
        assert(plan.take(q) =~= plan.take(next.len() as int).take(q));
        assert(next.take(q) =~= before);
        q
    } else {
        if pos + left > start {
            assert(crate::write::holds(pieces[i], start as u64));
            assert(crate::write::holds(pieces[j], start as u64));
            assert(i == j);
            assert(false);
        }
        lemma_part_is_planned(
            volume,
            pieces,
            ino,
            offset,
            len,
            (done + n) as nat,
            next,
            plan,
            j,
        )
    }
}

/// Every offset of a range that is planned whole is covered by an extent.
proof fn lemma_range_is_covered(
    volume: VolumeModel,
    pieces: Seq<FileExtent>,
    ino: u64,
    offset: u64,
    len: nat,
    done: nat,
    before: Seq<(u64, usize)>,
    pos: u64,
) -> (i: int)
    requires
        offset + len <= u64::MAX,
        offset + done <= pos < offset + len,
        crate::write::plan_from(volume, pieces, ino, offset, len, done, before) is Ok,
    ensures
        0 <= i < pieces.len(),
        crate::write::holds(pieces[i], pos),
    decreases len - done,
{
    let at = (offset + done) as u64;
    let piece = crate::write::extent_at(pieces, at, 0)->Some_0;
    crate::write::lemma_extent_at(pieces, at, 0);
    let i = choose|i: int| 0 <= i < pieces.len() && #[trigger] pieces[i] == piece;
    let within: int = at - piece.start;
    let left: int = piece.len - within;
    if pos < at + left {
        assert(crate::write::holds(pieces[i], pos));
        i
    } else {
        let next = before.push(((piece.logical->Some_0 + within) as u64, left as usize));
        lemma_range_is_covered(
            volume,
            pieces,
            ino,
            offset,
            len,
            (done + left) as nat,
            next,
            pos,
        )
    }
}

/// The writes of a part stand among the writes of the plan.
proof fn lemma_part_is_written(
    map: Seq<ChunkModel>,
    size: u64,
    plan: Seq<(u64, usize)>,
    data: Seq<u8>,
    k: int,
    done: int,
    before: Seq<ActionModel>,
    all: Seq<ActionModel>,
    q: int,
) -> (first: int)
    requires
        0 <= k <= q < plan.len(),
        done == crate::write::plan_len(plan.take(k)),
        crate::write::parts_written(map, size, plan, data, k, done, before) == Ok::<
            Seq<ActionModel>,
            ErrorView,
        >(all),
    ensures
        ({
            let from: int = crate::write::plan_len(plan.take(q)) as int;
            let part = data.subrange(from, from + plan[q].1);
            &&& device_write::copies_written(map, size, plan[q].0, part) matches Ok(writes)
                && 0 <= first && first + writes.len() <= all.len() && forall|i: int|
                0 <= i < writes.len() ==> #[trigger] writes[i] == all[first + i]
        }),
        before.len() <= all.len(),
        forall|i: int| 0 <= i < before.len() ==> #[trigger] all[i] == before[i],
    decreases plan.len() - k,
{
    let (logical, len) = plan[k];
    let part = data.subrange(done, done + len);
    let writes = device_write::copies_written(map, size, logical, part)->Ok_0;
    let next = before + writes;
    assert(plan.take(k + 1).drop_last() =~= plan.take(k));
    assert(plan.take(k + 1).last() == plan[k]);
    if k == q {
        lemma_writes_extend(map, size, plan, data, k + 1, done + len, next, all);
        assert forall|i: int| 0 <= i < writes.len() implies #[trigger] writes[i] == all[
        before.len() + i] by {
            assert(next[before.len() + i] == writes[i]);
        }
        assert forall|i: int| 0 <= i < before.len() implies #[trigger] all[i] == before[i] by {
            assert(next[i] == before[i]);
        }
        before.len() as int
    } else {
        let first = lemma_part_is_written(
            map,
            size,
            plan,
            data,
            k + 1,
            done + len,
            next,
            all,
            q,
        );
        assert forall|i: int| 0 <= i < before.len() implies #[trigger] all[i] == before[i] by {
            assert(next[i] == before[i]);
        }
        first
    }
}

/// What a plan's writes have behind them stays at their front.
proof fn lemma_writes_extend(
    map: Seq<ChunkModel>,
    size: u64,
    plan: Seq<(u64, usize)>,
    data: Seq<u8>,
    k: int,
    done: int,
    before: Seq<ActionModel>,
    all: Seq<ActionModel>,
)
    requires
        0 <= k,
        crate::write::parts_written(map, size, plan, data, k, done, before) == Ok::<
            Seq<ActionModel>,
            ErrorView,
        >(all),
    ensures
        before.len() <= all.len(),
        forall|i: int| 0 <= i < before.len() ==> #[trigger] all[i] == before[i],
    decreases plan.len() - k,
{
    if k < plan.len() {
        let (logical, len) = plan[k];
        let part = data.subrange(done, done + len);
        let writes = device_write::copies_written(map, size, logical, part)->Ok_0;
        let next = before + writes;
        lemma_writes_extend(map, size, plan, data, k + 1, done + len, next, all);
        assert forall|i: int| 0 <= i < before.len() implies #[trigger] all[i] == before[i] by {
            assert(next[i] == before[i]);
        }
    }
}

/// After all the writes of a plan, reading where a part of it went gives that
/// part of the data.
proof fn lemma_part_is_read(
    map: Seq<ChunkModel>,
    content: Seq<u8>,
    plan: Seq<(u64, usize)>,
    data: Seq<u8>,
    all: Seq<ActionModel>,
    actions: Seq<ActionModel>,
    q: int,
)
    requires
        chunk::divisible(map),
        content.len() <= u64::MAX,
        data.len() <= usize::MAX,
        0 <= q < plan.len(),
        write_end(plan, q) <= data.len(),
        crate::write::parts_written(
            map,
            content.len() as u64,
            plan,
            data,
            0,
            0,
            Seq::empty(),
        ) == Ok::<Seq<ActionModel>, ErrorView>(all),
        actions == all.push(ActionModel::Flush),
        device_write::apart(actions),
    ensures
        device::pooled(
            device_write::holding(device_write::performed(content, actions)),
            Seq::empty(),
            map,
            plan[q].0,
            plan[q].1 as nat,
        ) == Ok::<Seq<u8>, ErrorView>(
            data.subrange(write_end(plan, q) - plan[q].1, write_end(plan, q)),
        ),
{
    let size = content.len() as u64;
    let after = device_write::performed(content, actions);
    assert(plan.take(0) =~= Seq::<(u64, usize)>::empty());
    let first = lemma_part_is_written(map, size, plan, data, 0, 0, Seq::empty(), all, q);
    let from: int = crate::write::plan_len(plan.take(q)) as int;
    let part = data.subrange(from, from + plan[q].1);
    let writes = device_write::copies_written(map, size, plan[q].0, part)->Ok_0;
    let spans = device_write::spans_of(map, size, plan[q].0, part.len())->Ok_0;
    device_write::law_writes_stay_on_the_device(map, size, plan[q].0, part.len());
    assert forall|i: int| 0 <= i < spans.len() implies after.subrange(
        (#[trigger] spans[i]).physical as int,
        spans[i].physical + spans[i].len,
    ) == part.subrange(spans[i].from as int, spans[i].from + spans[i].len) by {
        assert(writes[i] == device_write::write_of(part, spans[i]));
        assert(actions[first + i] == writes[i]);
        device_write::lemma_written(content, actions, first + i);
    }
    device_write::lemma_written(content, actions, actions.len() - 1);
    device_write::lemma_held_is_read(map, plan[q].0, part, after, spans);
}

/// Where part `q` of a plan ends, counted from the start of the data.
spec fn write_end(plan: Seq<(u64, usize)>, q: int) -> int {
    crate::write::plan_len(plan.take(q)) + plan[q].1
}

/// Every item of a file whose extents are listed decodes, and unless it is a
/// hole its extent is listed.
proof fn lemma_item_is_listed(
    items: Seq<ItemModel>,
    ino: u64,
    sectorsize: u32,
    from: int,
    before: Seq<FileExtent>,
    all: Seq<FileExtent>,
    k: int,
) -> (i: int)
    requires
        0 <= from <= k < items.len(),
        extents::extents_from(items, ino, sectorsize, from, before) == Ok::<
            Seq<FileExtent>,
            ErrorView,
        >(all),
    ensures
        extents::piece_outcome(items[k].data, ino, sectorsize) is Ok,
        extents::file_extent_of(
            items[k],
            extents::piece_outcome(items[k].data, ino, sectorsize)->Ok_0,
        ) matches Some(e) ==> 0 <= i < all.len() && all[i] == e,
    decreases items.len() - from,
{
    let piece = extents::piece_outcome(items[from].data, ino, sectorsize)->Ok_0;
    let next = match extents::file_extent_of(items[from], piece) {
        Some(e) => before.push(e),
        None => before,
    };
    if k == from {
        lemma_list_extends(items, ino, sectorsize, from + 1, next, all);
        assert(extents::file_extent_of(items[from], piece) is Some ==> next[before.len() as int]
            == extents::file_extent_of(items[from], piece)->Some_0);
        before.len() as int
    } else {
        lemma_item_is_listed(items, ino, sectorsize, from + 1, next, all, k)
    }
}

/// What a list of extents has behind it stays at its front.
proof fn lemma_list_extends(
    items: Seq<ItemModel>,
    ino: u64,
    sectorsize: u32,
    from: int,
    before: Seq<FileExtent>,
    all: Seq<FileExtent>,
)
    requires
        0 <= from,
        extents::extents_from(items, ino, sectorsize, from, before) == Ok::<
            Seq<FileExtent>,
            ErrorView,
        >(all),
    ensures
        before.len() <= all.len(),
        forall|i: int| 0 <= i < before.len() ==> #[trigger] all[i] == before[i],
    decreases items.len() - from,
{
    if from < items.len() {
        let piece = extents::piece_outcome(items[from].data, ino, sectorsize)->Ok_0;
        let next = match extents::file_extent_of(items[from], piece) {
            Some(e) => before.push(e),
            None => before,
        };
        lemma_list_extends(items, ino, sectorsize, from + 1, next, all);
        assert forall|i: int| 0 <= i < before.len() implies #[trigger] all[i] == before[i] by {
            assert(next[i] == before[i]);
        }
    }
}

/// Every extent in the list comes from an item.
proof fn lemma_listed_has_item(
    items: Seq<ItemModel>,
    ino: u64,
    sectorsize: u32,
    from: int,
    before: Seq<FileExtent>,
    all: Seq<FileExtent>,
    i: int,
) -> (k: int)
    requires
        0 <= from,
        before.len() <= i < all.len(),
        extents::extents_from(items, ino, sectorsize, from, before) == Ok::<
            Seq<FileExtent>,
            ErrorView,
        >(all),
    ensures
        from <= k < items.len(),
        extents::piece_outcome(items[k].data, ino, sectorsize) matches Ok(piece)
            && extents::file_extent_of(items[k], piece) == Some(all[i]),
    decreases items.len() - from,
{
    let piece = extents::piece_outcome(items[from].data, ino, sectorsize)->Ok_0;
    let next = match extents::file_extent_of(items[from], piece) {
        Some(e) => before.push(e),
        None => before,
    };
    lemma_list_extends(items, ino, sectorsize, from + 1, next, all);
    if i < next.len() {
        assert(all[i] == next[i]);
        from
    } else {
        lemma_listed_has_item(items, ino, sectorsize, from + 1, next, all, i)
    }
}

/// What item `item` puts into the window, where it reaches into it.
spec fn put(
    volume: VolumeModel,
    ino: u64,
    from: u64,
    len: nat,
    item: ItemModel,
    piece: PieceModel,
) -> Option<std::result::Result<Seq<u8>, ErrorView>> {
    match read::piece_len(piece) {
        Some(n) => {
            let start = read::overlap_start(item.key.offset, from);
            let stop = read::overlap_end(item.key.offset, n, (from + len) as u64);
            if start < stop {
                Some(
                    read::fetched(
                        volume,
                        piece,
                        ino,
                        start - item.key.offset,
                        (stop - start) as nat,
                    ),
                )
            } else {
                None
            }
        },
        None => None,
    }
}

/// Whether what `item` puts into the window is the data that was written
/// there, or refused.
spec fn puts_data(
    volume: VolumeModel,
    ino: u64,
    from: u64,
    data: Seq<u8>,
    item: ItemModel,
) -> bool {
    extents::piece_outcome(item.data, ino, volume.sb.sectorsize) matches Ok(piece) && (put(
        volume,
        ino,
        from,
        data.len(),
        item,
        piece,
    ) matches Some(Ok(src)) ==> {
        let start = read::overlap_start(item.key.offset, from);
        src == data.subrange(start - from, start - from + src.len()) && src.len()
            == read::overlap_end(
            item.key.offset,
            read::piece_len(piece)->Some_0,
            (from + data.len()) as u64,
        ) - start
    })
}

/// Whether what `item` puts into the window is not refused.
spec fn puts_all(volume: VolumeModel, ino: u64, from: u64, len: nat, item: ItemModel) -> bool {
    extents::piece_outcome(item.data, ino, volume.sb.sectorsize) matches Ok(piece) ==> (put(
        volume,
        ino,
        from,
        len,
        item,
        piece,
    ) matches Some(r) ==> r is Ok)
}

/// Painting items that all put the written data gives the written data
/// wherever one of them reaches, unless one is refused.
#[verifier::rlimit(40)]
proof fn lemma_painted_data(
    volume: VolumeModel,
    ino: u64,
    from: u64,
    data: Seq<u8>,
    items: Seq<ItemModel>,
    k: int,
    buf: Seq<u8>,
)
    requires
        0 <= k,
        from + data.len() <= u64::MAX,
        buf.len() == data.len(),
        crate::fs::laws::offsets_ascend(items),
        forall|i: int|
            0 <= i < items.len() ==> puts_data(volume, ino, from, data, #[trigger] items[i]),
    ensures
        read::painted(volume, ino, from, (from + data.len()) as u64, items, k, buf) matches Ok(out)
            ==> out.len() == data.len() && forall|p: int|
            0 <= p < data.len() && (buf[p] == data[p] || exists|i: int|
                k <= i < items.len() && crate::fs::laws::puts_bytes(
                    #[trigger] items[i],
                    ino,
                    volume.sb.sectorsize,
                    from + p,
                )) ==> #[trigger] out[p] == data[p],
        (forall|i: int|
            0 <= i < items.len() ==> puts_all(volume, ino, from, data.len(), #[trigger] items[i]))
            ==> read::painted(volume, ino, from, (from + data.len()) as u64, items, k, buf) is Ok,
    decreases items.len() - k,
{
    let end = (from + data.len()) as u64;
    if k >= items.len() {
    } else if items[k].key.offset >= end {
        assert forall|p: int, i: int|
            0 <= p < data.len() && k <= i < items.len() implies !crate::fs::laws::puts_bytes(
            #[trigger] items[i],
            ino,
            volume.sb.sectorsize,
            #[trigger] (from + p),
        ) by {
            assert(items[k].key.offset <= items[i].key.offset);
        }
    } else {
        let item = items[k];
        assert(puts_data(volume, ino, from, data, item));
        let at = item.key.offset;
        let piece = extents::piece_outcome(item.data, ino, volume.sb.sectorsize)->Ok_0;
        let stop = match read::piece_len(piece) {
            Some(len) => read::overlap_end(at, len, end),
            None => 0,
        };
        let start = read::overlap_start(at, from);
        let next = if stop <= start {
            buf
        } else {
            bytes::splice(buf, start - from, data.subrange(start - from, stop - from))
        };
        lemma_painted_data(volume, ino, from, data, items, k + 1, next);
        if read::painted(volume, ino, from, end, items, k, buf) is Ok {
            let out = read::painted(volume, ino, from, end, items, k, buf)->Ok_0;
            assert forall|p: int|
                0 <= p < data.len() && (buf[p] == data[p] || exists|i: int|
                    k <= i < items.len() && crate::fs::laws::puts_bytes(
                        #[trigger] items[i],
                        ino,
                        volume.sb.sectorsize,
                        from + p,
                    )) implies #[trigger] out[p] == data[p] by {
                if buf[p] != data[p] {
                    let i = choose|i: int|
                        k <= i < items.len() && crate::fs::laws::puts_bytes(
                            #[trigger] items[i],
                            ino,
                            volume.sb.sectorsize,
                            from + p,
                        );
                    if i == k {
                        assert(start - from <= p < stop - from);
                        assert(next[p] == data[p]);
                    }
                } else {
                    assert(next[p] == data[p]);
                }
            }
        } else if stop > start && put(volume, ino, from, data.len(), item, piece)->Some_0 is Err {
            assert(!puts_all(volume, ino, from, data.len(), items[k]));
        }
    }
}

/// What an item's extent says of its piece: it covers as much of the file,
/// and only a regular one names a place that may be overwritten.
proof fn lemma_extent_of_piece(item: ItemModel, ino: u64, sectorsize: u32, piece: PieceModel)
    requires
        item.data.len() <= u64::MAX,
        extents::piece_outcome(item.data, ino, sectorsize) == Ok::<PieceModel, ErrorView>(piece),
    ensures
        match extents::file_extent_of(item, piece) {
            Some(e) => {
                &&& read::piece_len(piece) == Some(e.len as nat)
                &&& e.start == item.key.offset
                &&& e.logical matches Some(logical) ==> piece == (PieceModel::Regular {
                    logical,
                    len: e.len,
                })
            },
            None => read::piece_len(piece) is None,
        },
{
    if let PieceModel::Inline(b) = piece {
        reveal(extents::piece_outcome);
        assert(b.len() <= u64::MAX);
    }
}

/// A device that holds `content` answers steadily.
proof fn lemma_holding_is_steady(content: Seq<u8>)
    requires
        content.len() <= u64::MAX,
    ensures
        crate::fs::laws::steady(device_write::holding(content)),
{
    reveal(crate::fs::laws::steady);
    let disk = device_write::holding(content);
    assert forall|d: usize, at: u64, len: usize, at2: u64, len2: usize|
        at <= at2 && at2 + len2 <= at + len && (#[trigger] disk(
            d,
            at,
            len,
        )) is Ok implies #[trigger] disk(d, at2, len2) == Ok::<Seq<u8>, ErrorView>(
        disk(d, at, len)->Ok_0.subrange(at2 - at, at2 - at + len2),
    ) by {
        assert(content.subrange(at2 as int, at2 + len2) =~= content.subrange(
            at as int,
            at + len,
        ).subrange(at2 - at, at2 - at + len2));
    }
}

/// The part of a regular piece that lies at a place is what is read there,
/// unless a digest refuses it, and where the checksum tree names no sector of
/// the piece none does.
proof fn lemma_regular_fetched(
    volume: VolumeModel,
    logical: u64,
    len: u64,
    ino: u64,
    skip: int,
    take: nat,
    data: Seq<u8>,
)
    requires
        crate::fs::laws::steady(volume.disk),
        volume.ids.len() <= usize::MAX,
        volume.sb.sectorsize > 0,
        chunk::ordered(volume.map),
        chunk::divisible(volume.map),
        0 <= skip,
        logical + skip <= u64::MAX,
        0 < take <= usize::MAX,
        skip + take <= len,
        volume.bytes_at((logical + skip) as u64, take) == Ok::<Seq<u8>, ErrorView>(data),
    ensures
        read::fetched(volume, PieceModel::Regular { logical, len }, ino, skip, take) matches Ok(src)
            ==> src == data,
        sums::unnamed(volume, logical, len as nat) ==> read::fetched(
            volume,
            PieceModel::Regular { logical, len },
            ino,
            skip,
            take,
        ) is Ok,
{
    reveal(read::fetched);
    reveal(sums::checked_bytes);
    let s = volume.sb.sectorsize;
    let at = (logical + skip) as u64;
    let lo = sums::sector_of(at, s);
    let hi = sums::sectors_end(at, take, s);
    sums::lemma_sector_of(at, s);
    sums::lemma_sectors_end(at, take, s);
    sums::lemma_sectors_nest(logical, len as nat, at, take, s);
    if let Ok(m) = sums::named(volume, logical, len as nat) {
        if at + take <= u64::MAX && !sums::silent(m, lo, hi, s) && hi - lo <= isize::MAX
            && volume.bytes_at(lo, (hi - lo) as nat) is Ok {
            crate::fs::laws::lemma_gathered_part(
                volume.disk,
                volume.ids,
                volume.map,
                lo,
                (hi - lo) as nat,
                (at - lo) as nat,
                take,
            );
        }
        if sums::unnamed(volume, logical, len as nat) {
            assert(sums::silent(m, lo, hi, s)) by {
                assert forall|k: u64| sums::is_sector(lo, hi, s, k) implies !(
                #[trigger] m.contains_key(k)) by {
                    assert(sums::is_sector(
                        sums::sector_of(logical, s),
                        sums::sectors_end(logical, len as nat, s),
                        s,
                        k,
                    ));
                }
            }
        }
    }
}

/// After the writes of a plan, the part of an extent that lies in the window
/// is the data that was written there.
#[verifier::rlimit(40)]
proof fn lemma_extent_holds_data(
    volume: VolumeModel,
    pieces: Seq<FileExtent>,
    ino: u64,
    offset: u64,
    data: Seq<u8>,
    content: Seq<u8>,
    actions: Seq<ActionModel>,
    all: Seq<ActionModel>,
    plan: Seq<(u64, usize)>,
    j: int,
)
    requires
        chunk::divisible(volume.map),
        content.len() <= u64::MAX,
        0 < data.len() <= usize::MAX,
        offset + data.len() <= u64::MAX,
        covered_once(pieces, offset, data.len()),
        crate::write::plan_from(volume, pieces, ino, offset, data.len(), 0, Seq::empty()) == Ok::<
            Seq<(u64, usize)>,
            ErrorView,
        >(plan),
        crate::write::parts_written(
            volume.map,
            content.len() as u64,
            plan,
            data,
            0,
            0,
            Seq::empty(),
        ) == Ok::<Seq<ActionModel>, ErrorView>(all),
        actions == all.push(ActionModel::Flush),
        device_write::apart(actions),
        0 <= j < pieces.len(),
        part_start(pieces[j], offset) < part_stop(pieces[j], offset, data.len()),
    ensures
        ({
            let e = pieces[j];
            let start = part_start(e, offset);
            let stop = part_stop(e, offset, data.len());
            &&& e.logical is Some
            &&& e.logical->Some_0 + (start - e.start) <= u64::MAX
            &&& device::pooled(
                device_write::holding(device_write::performed(content, actions)),
                Seq::empty(),
                volume.map,
                (e.logical->Some_0 + (start - e.start)) as u64,
                (stop - start) as nat,
            ) == Ok::<Seq<u8>, ErrorView>(data.subrange(start - offset, stop - offset))
        }),
{
    let q = lemma_part_is_planned(
        volume,
        pieces,
        ino,
        offset,
        data.len(),
        0,
        Seq::empty(),
        plan,
        j,
    );
    lemma_part_is_read(volume.map, content, plan, data, all, actions, q);
}

/// After the writes of a plan, every extent of the file that reaches into the
/// window holds the data that was written there.
#[verifier::rlimit(30)]
proof fn lemma_item_puts_data(
    fs: FilesystemModel,
    ino: u64,
    offset: u64,
    data: Seq<u8>,
    content: Seq<u8>,
    actions: Seq<ActionModel>,
    all: Seq<ActionModel>,
    plan: Seq<(u64, usize)>,
    pieces: Seq<FileExtent>,
    items: Seq<ItemModel>,
    k: int,
)
    requires
        chunk::ordered(fs.volume.map),
        chunk::divisible(fs.volume.map),
        fs.volume.sb.sectorsize > 0,
        fs.volume.ids == Seq::<u64>::empty(),
        content.len() <= u64::MAX,
        0 < data.len() <= usize::MAX,
        offset + data.len() <= u64::MAX,
        extents::extents_from(items, ino, fs.volume.sb.sectorsize, 0, Seq::empty()) == Ok::<
            Seq<FileExtent>,
            ErrorView,
        >(pieces),
        covered_once(pieces, offset, data.len()),
        crate::write::plan_from(fs.volume, pieces, ino, offset, data.len(), 0, Seq::empty())
            == Ok::<Seq<(u64, usize)>, ErrorView>(plan),
        crate::write::parts_written(
            fs.volume.map,
            content.len() as u64,
            plan,
            data,
            0,
            0,
            Seq::empty(),
        ) == Ok::<Seq<ActionModel>, ErrorView>(all),
        actions == all.push(ActionModel::Flush),
        device_write::apart(actions),
        0 <= k < items.len(),
        items[k].data.len() <= u64::MAX,
    ensures
        puts_data(
            on_device(fs, device_write::performed(content, actions)).volume,
            ino,
            offset,
            data,
            items[k],
        ),
        uncovered(
            on_device(fs, device_write::performed(content, actions)).volume,
            pieces,
            offset,
            data.len(),
        ) ==> puts_all(
            on_device(fs, device_write::performed(content, actions)).volume,
            ino,
            offset,
            data.len(),
            items[k],
        ),
{
    let volume = on_device(fs, device_write::performed(content, actions)).volume;
    let sectorsize = fs.volume.sb.sectorsize;
    let item = items[k];
    let j = lemma_item_is_listed(items, ino, sectorsize, 0, Seq::empty(), pieces, k);
    let piece = extents::piece_outcome(item.data, ino, sectorsize)->Ok_0;
    lemma_extent_of_piece(item, ino, sectorsize, piece);
    if let Some(e) = extents::file_extent_of(item, piece) {
        let start = part_start(e, offset);
        let stop = part_stop(e, offset, data.len());
        if start < stop {
            lemma_extent_holds_data(
                fs.volume,
                pieces,
                ino,
                offset,
                data,
                content,
                actions,
                all,
                plan,
                j,
            );
            device_write::lemma_performed_len(content, actions);
            lemma_holding_is_steady(device_write::performed(content, actions));
            lemma_regular_fetched(
                volume,
                e.logical->Some_0,
                e.len,
                ino,
                start - e.start,
                (stop - start) as nat,
                data.subrange(start - offset, stop - offset),
            );
        }
    }
}

/// What is written into a file is what a read of that range then gives.
///
/// That takes three things of the volume: the range is covered by one extent
/// at a time, no two of the places the data goes to share a byte of the
/// device, and the volume lies on one device, as a volume that can be written
/// does. A read that is not refused gives the data; where the checksum tree
/// names no sector of the extents written to, as it names none of a file
/// without checksums, it is not refused.
#[verifier::rlimit(40)]
pub proof fn law_a_write_into_a_file_is_read_back(
    fs: FilesystemModel,
    ino: u64,
    offset: u64,
    data: Seq<u8>,
    content: Seq<u8>,
    actions: Seq<ActionModel>,
)
    requires
        chunk::ordered(fs.volume.map),
        chunk::divisible(fs.volume.map),
        fs.volume.sb.sectorsize > 0,
        crate::leaf_edit::sorted(fs.items),
        forall|i: int| 0 <= i < fs.items.len() ==> (#[trigger] fs.items[i]).data.len() <= u64::MAX,
        fs.volume.ids == Seq::<u64>::empty(),
        content.len() <= u64::MAX,
        fs.writable == Some(content.len() as u64),
        0 < data.len() <= usize::MAX,
        crate::write::write_outcome(fs, ino, offset, data) == Ok::<Seq<ActionModel>, ErrorView>(
            actions,
        ),
        extents::extents_of(fs.items, ino, fs.volume.sb.sectorsize) matches Ok(pieces)
            ==> covered_once(pieces, offset, data.len()),
        device_write::apart(actions),
    ensures
        read::part_outcome(
            on_device(fs, device_write::performed(content, actions)),
            ino,
            offset,
            data.len(),
        ) matches Ok(out) ==> out == data,
        uncovered(
            on_device(fs, device_write::performed(content, actions)).volume,
            extents::extents_of(fs.items, ino, fs.volume.sb.sectorsize)->Ok_0,
            offset,
            data.len(),
        ) ==> read::part_outcome(
            on_device(fs, device_write::performed(content, actions)),
            ino,
            offset,
            data.len(),
        ) == Ok::<Seq<u8>, ErrorView>(data),
{
    let after = on_device(fs, device_write::performed(content, actions));
    let volume = after.volume;
    let sectorsize = fs.volume.sb.sectorsize;
    let items = item_map::of_kind(fs.items, ino, EXTENT_DATA_KEY);
    let inode = namespace::inode_of(fs.items, ino)->Ok_0;
    let pieces = extents::extents_of(fs.items, ino, sectorsize)->Ok_0;
    let len = data.len();
    let plan = crate::write::plan_outcome(fs, ino, offset, len)->Ok_0;
    let all = crate::write::parts_written(
        fs.volume.map,
        content.len() as u64,
        plan,
        data,
        0,
        0,
        Seq::empty(),
    )->Ok_0;
    crate::fs::laws::lemma_filter_keeps_order(fs.items, ino, EXTENT_DATA_KEY);
    assert forall|k: int| 0 <= k < items.len() implies puts_data(
        volume,
        ino,
        offset,
        data,
        #[trigger] items[k],
    ) && (uncovered(volume, pieces, offset, len) ==> puts_all(
        volume,
        ino,
        offset,
        len,
        items[k],
    )) by {
        let i = choose|i: int| 0 <= i < fs.items.len() && fs.items[i] == items[k];
        assert(fs.items[i].data.len() <= u64::MAX);
        lemma_item_puts_data(
            fs,
            ino,
            offset,
            data,
            content,
            actions,
            all,
            plan,
            pieces,
            items,
            k,
        );
    }
    let buf = bytes::zeros(len);
    lemma_painted_data(volume, ino, offset, data, items, 0, buf);
    let end = (offset + len) as u64;
    assert(inode.ino == ino);
    if read::painted(volume, ino, offset, end, items, 0, buf) is Ok {
        let out = read::painted(volume, ino, offset, end, items, 0, buf)->Ok_0;
        assert forall|p: int| 0 <= p < len implies #[trigger] out[p] == data[p] by {
            let pos = (offset + p) as u64;
            let i = lemma_range_is_covered(
                fs.volume,
                pieces,
                ino,
                offset,
                len,
                0,
                Seq::empty(),
                pos,
            );
            let k = lemma_listed_has_item(items, ino, sectorsize, 0, Seq::empty(), pieces, i);
            assert(crate::fs::laws::puts_bytes(items[k], ino, sectorsize, offset + p));
        }
        assert(out =~= data);
    }
}

} // verus!
