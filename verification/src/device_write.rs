//! Writing to a logical address: where every copy of every byte goes.
//!
//! Nothing here touches a device. What is to be written comes out as a list
//! of actions, and whoever holds the device performs them in order.

use vstd::prelude::*;

use crate::bytes;
use crate::bytes::copy_range;
use crate::chunk;
use crate::chunk::{ChunkMap, ChunkModel};
use crate::device;
use crate::device::Disk;
use crate::error::{Error, ErrorView, Result};
use crate::text;
use crate::text::Part::{Dec, Lit};
use crate::text::{cat3, cat7};

pub mod mirror_laws;
pub mod room_laws;

verus! {

/// One step of putting a change on a device.
#[derive(Debug, Clone, PartialEq, Eq)]
pub enum Action {
    /// Write `bytes` at the byte offset `at`.
    Write { at: u64, bytes: Vec<u8> },
    /// Wait until everything written so far is on the device.
    Flush,
}

/// What an [`Action`] does.
pub enum ActionModel {
    Write { at: u64, bytes: Seq<u8> },
    Flush,
}

impl View for Action {
    type V = ActionModel;

    open spec fn view(&self) -> ActionModel {
        match self {
            Action::Write { at, bytes } => ActionModel::Write { at: *at, bytes: bytes@ },
            Action::Flush => ActionModel::Flush,
        }
    }
}

/// What a list of actions does.
pub open spec fn action_models(actions: Seq<Action>) -> Seq<ActionModel> {
    actions.map_values(|a: Action| a@)
}

/// What a list of actions, or the error in its place, holds.
pub open spec fn actions_seen(r: Result<Vec<Action>>) -> std::result::Result<
    Seq<ActionModel>,
    ErrorView,
> {
    match r {
        Ok(actions) => Ok(action_models(actions@)),
        Err(e) => Err(e@),
    }
}

/// Where a part of some data goes: the bytes `from .. from + len` of it, at
/// the byte offset `physical`.
#[derive(Debug, Clone, Copy, PartialEq, Eq, Structural)]
pub struct Span {
    pub physical: u64,
    pub from: usize,
    pub len: usize,
}

/// The complaint about a span that does not lie on a device of `size` bytes.
/// A stripe's offset is a raw number off the disk, and writing past the end
/// of a file-backed device would extend it.
pub open spec fn span_error(size: u64, physical: u64, len: nat) -> Option<ErrorView> {
    if physical + len > u64::MAX {
        Some(
            ErrorView::BadSuperblock(
                "a chunk maps a write to "@ + text::dec(physical as nat)
                    + ", which ends past the address space"@,
            ),
        )
    } else if physical + len > size {
        Some(
            ErrorView::BadSuperblock(
                "a chunk maps a write to ["@ + text::dec(physical as nat) + ", "@ + text::dec(
                    (physical + len) as nat,
                ) + ") on a device of "@ + text::dec(size as nat) + " bytes"@,
            ),
        )
    } else {
        None
    }
}

/// The spans of copy `mirror` of the bytes `done .. len` at `logical`, behind
/// `before`. With `size`, each must lie on a device of that many bytes.
pub open spec fn spans_from(
    map: Seq<ChunkModel>,
    size: Option<u64>,
    logical: u64,
    len: nat,
    mirror: nat,
    done: nat,
    before: Seq<Span>,
) -> std::result::Result<Seq<Span>, ErrorView>
    decreases len - done,
{
    if done >= len {
        Ok(before)
    } else {
        match chunk::mapped_by(map, (logical + done) as u64, mirror) {
            Err(e) => Err(e),
            Ok(m) => {
                let n: nat = if m.len < len - done {
                    m.len as nat
                } else {
                    (len - done) as nat
                };
                if n == 0 {
                    Err(ErrorView::UnmappedLogical((logical + done) as u64))
                } else if size is Some && span_error(size->Some_0, m.physical, n) is Some {
                    Err(span_error(size->Some_0, m.physical, n)->Some_0)
                } else {
                    spans_from(
                        map,
                        size,
                        logical,
                        len,
                        mirror,
                        done + n,
                        before.push(
                            Span { physical: m.physical, from: done as usize, len: n as usize },
                        ),
                    )
                }
            },
        }
    }
}

/// The spans of the copies `mirror .. count`, behind `before`.
pub open spec fn copies_from(
    map: Seq<ChunkModel>,
    size: u64,
    logical: u64,
    len: nat,
    mirror: nat,
    count: nat,
    before: Seq<Span>,
) -> std::result::Result<Seq<Span>, ErrorView>
    decreases count - mirror,
{
    if mirror >= count {
        Ok(before)
    } else {
        match spans_from(map, Some(size), logical, len, mirror, 0, before) {
            Err(e) => Err(e),
            Ok(next) => copies_from(map, size, logical, len, mirror + 1, count, next),
        }
    }
}

/// Where every copy of `len` bytes at `logical` goes on a device of `size`
/// bytes.
pub open spec fn spans_of(map: Seq<ChunkModel>, size: u64, logical: u64, len: nat) -> std::result::Result<
    Seq<Span>,
    ErrorView,
> {
    match chunk::chunk_at(map, logical) {
        None => Err(ErrorView::UnmappedLogical(logical)),
        Some(chunk) => copies_from(map, size, logical, len, 0, chunk.mirrors(), Seq::empty()),
    }
}

/// The write of the part of `data` that goes to `span`.
pub open spec fn write_of(data: Seq<u8>, span: Span) -> ActionModel {
    ActionModel::Write {
        at: span.physical,
        bytes: data.subrange(span.from as int, span.from + span.len),
    }
}

/// The writes that put `data` on `spans`.
pub open spec fn writes_of(data: Seq<u8>, spans: Seq<Span>) -> Seq<ActionModel> {
    spans.map_values(|s: Span| write_of(data, s))
}

/// The writes that put every copy of `data` at `logical`.
pub open spec fn copies_written(map: Seq<ChunkModel>, size: u64, logical: u64, data: Seq<u8>) -> std::result::Result<
    Seq<ActionModel>,
    ErrorView,
> {
    match spans_of(map, size, logical, data.len()) {
        Err(e) => Err(e),
        Ok(spans) => Ok(writes_of(data, spans)),
    }
}

/// Where a mapped range lands on the device, once it is known to be on it.
pub fn writable_span(size: u64, physical: u64, len: usize) -> (r: Result<()>)
    ensures
        match r {
            Ok(()) => span_error(size, physical, len as nat) is None,
            Err(e) => span_error(size, physical, len as nat) == Some(e@),
        },
{
    let end: u64 = match physical.checked_add(len as u64) {
        Some(end) => end,
        None => return Err(
            Error::BadSuperblock(
                cat3(
                    Lit("a chunk maps a write to "),
                    Dec(physical),
                    Lit(", which ends past the address space"),
                ),
            ),
        ),
    };
    if end > size {
        return Err(
            Error::BadSuperblock(
                cat7(
                    Lit("a chunk maps a write to ["),
                    Dec(physical),
                    Lit(", "),
                    Dec(end),
                    Lit(") on a device of "),
                    Dec(size),
                    Lit(" bytes"),
                ),
            ),
        );
    }
    Ok(())
}

/// Whether every span names a part of `len` bytes.
pub open spec fn parts_of(spans: Seq<Span>, len: nat) -> bool {
    forall|i: int| 0 <= i < spans.len() ==> (#[trigger] spans[i]).from + spans[i].len <= len
}

/// Add the spans of one copy to `out`.
fn copy_spans(
    map: &ChunkMap,
    size: Option<u64>,
    logical: u64,
    len: usize,
    mirror: usize,
    out: &mut Vec<Span>,
) -> (r: Result<()>)
    requires
        chunk::divisible(map@),
        parts_of(old(out)@, len as nat),
    ensures
        match r {
            Ok(()) => spans_from(map@, size, logical, len as nat, mirror as nat, 0, old(out)@)
                == Ok::<Seq<Span>, ErrorView>(final(out)@),
            Err(e) => spans_from(map@, size, logical, len as nat, mirror as nat, 0, old(out)@)
                == Err::<Seq<Span>, ErrorView>(e@),
        },
        parts_of(final(out)@, len as nat),
{
    let mut done: usize = 0;
    let mut at: u64 = logical;
    while done < len
        invariant
            chunk::divisible(map@),
            done <= len,
            at == logical + done,
            parts_of(out@, len as nat),
            spans_from(map@, size, logical, len as nat, mirror as nat, 0, old(out)@) == spans_from(
                map@,
                size,
                logical,
                len as nat,
                mirror as nat,
                done as nat,
                out@,
            ),
        decreases len - done,
    {
        let m = match map.map_mirror(at, mirror) {
            Ok(m) => m,
            Err(e) => return Err(e),
        };
        proof {
            chunk::lemma_mapping_fits(map@, at, mirror as nat);
        }
        let left: usize = len - done;
        let n: usize = if m.len < left as u64 {
            m.len as usize
        } else {
            left
        };
        if let Some(size) = size {
            if let Err(e) = writable_span(size, m.physical, n) {
                return Err(e);
            }
        }
        out.push(Span { physical: m.physical, from: done, len: n });
        at = at + n as u64;
        done = done + n;
    }
    Ok(())
}

/// Where every copy of `len` bytes at `logical` goes, each span known to lie
/// on a device of `size` bytes.
pub fn mirror_spans(size: u64, map: &ChunkMap, logical: u64, len: usize) -> (r: Result<Vec<Span>>)
    requires
        chunk::divisible(map@),
    ensures
        crate::error::viewed(r) == spans_of(map@, size, logical, len as nat),
        r matches Ok(spans) ==> parts_of(spans@, len as nat),
{
    let mirrors: usize = match map.mirrors_at(logical) {
        Ok(n) => n,
        Err(e) => return Err(e),
    };
    let mut out: Vec<Span> = Vec::new();
    assert(out@ =~= Seq::<Span>::empty());
    let mut mirror: usize = 0;
    while mirror < mirrors
        invariant
            chunk::divisible(map@),
            mirror <= mirrors,
            parts_of(out@, len as nat),
            spans_of(map@, size, logical, len as nat) == copies_from(
                map@,
                size,
                logical,
                len as nat,
                mirror as nat,
                mirrors as nat,
                out@,
            ),
        decreases mirrors - mirror,
    {
        if let Err(e) = copy_spans(map, Some(size), logical, len, mirror, &mut out) {
            return Err(e);
        }
        mirror = mirror + 1;
    }
    Ok(out)
}

/// The writes that put `data` on `spans`, added to `out`.
pub(crate) fn add_writes(data: &[u8], spans: &[Span], out: &mut Vec<Action>)
    requires
        parts_of(spans@, data@.len()),
    ensures
        action_models(final(out)@) == action_models(old(out)@) + writes_of(data@, spans@),
{
    let mut i: usize = 0;
    let ghost start = action_models(out@);
    assert(start + writes_of(data@, spans@.take(0)) =~= start);
    while i < spans.len()
        invariant
            i <= spans@.len(),
            parts_of(spans@, data@.len()),
            start == action_models(old(out)@),
            action_models(out@) == start + writes_of(data@, spans@.take(i as int)),
        decreases spans@.len() - i,
    {
        let span = spans[i];
        assert(spans@[i as int].from + spans@[i as int].len <= data@.len());
        let ghost before = action_models(out@);
        assert(span.from + span.len <= data.len());
        let part = copy_range(data, span.from, span.from + span.len);
        let action = Action::Write { at: span.physical, bytes: part };
        out.push(action);
        assert(action@ == write_of(data@, span));
        assert(action_models(out@) =~= before.push(action@));
        assert(writes_of(data@, spans@.take(i + 1)) =~= writes_of(
            data@,
            spans@.take(i as int),
        ).push(action@));
        i = i + 1;
        assert(action_models(out@) =~= start + writes_of(data@, spans@.take(i as int)));
    }
    assert(spans@.take(spans@.len() as int) =~= spans@);
}

/// The writes that put `data` at every copy of a logical range.
///
/// On a `DUP` or `RAID1` chunk, writing one copy only would leave the two
/// disagreeing with no record of which is current.
pub fn write_logical_all_mirrors(size: u64, map: &ChunkMap, logical: u64, data: &[u8]) -> (r: Result<
    Vec<Action>,
>)
    requires
        chunk::divisible(map@),
    ensures
        actions_seen(r) == copies_written(map@, size, logical, data@),
{
    let spans = match mirror_spans(size, map, logical, data.len()) {
        Ok(spans) => spans,
        Err(e) => return Err(e),
    };
    let mut out: Vec<Action> = Vec::new();
    let ghost none = action_models(out@);
    add_writes(data, spans.as_slice(), &mut out);
    assert(none + writes_of(data@, spans@) =~= writes_of(data@, spans@));
    Ok(out)
}

/// The writes that put `data` at the first copy of a logical range, following
/// the chunk map exactly as a read does.
pub fn write_logical(map: &ChunkMap, logical: u64, data: &[u8]) -> (r: Result<Vec<Action>>)
    requires
        chunk::divisible(map@),
    ensures
        actions_seen(r) == (match spans_from(
            map@,
            None,
            logical,
            data@.len(),
            0,
            0,
            Seq::empty(),
        ) {
            Ok(spans) => Ok(writes_of(data@, spans)),
            Err(e) => Err(e),
        }),
{
    let mut spans: Vec<Span> = Vec::new();
    assert(spans@ =~= Seq::<Span>::empty());
    if let Err(e) = copy_spans(map, None, logical, data.len(), 0, &mut spans) {
        return Err(e);
    }
    let mut out: Vec<Action> = Vec::new();
    let ghost none = action_models(out@);
    add_writes(data, spans.as_slice(), &mut out);
    assert(none + writes_of(data@, spans@) =~= writes_of(data@, spans@));
    Ok(out)
}

/// A device that holds `content`.
pub open spec fn holding(content: Seq<u8>) -> Disk {
    |d: usize, at: u64, len: usize|
        if d == 0 && at + len <= content.len() {
            Ok(content.subrange(at as int, at + len))
        } else {
            Err(ErrorView::Io(Seq::empty()))
        }
}

/// What a device that held `content` holds after `actions`.
pub open spec fn performed(content: Seq<u8>, actions: Seq<ActionModel>) -> Seq<u8>
    decreases actions.len(),
{
    if actions.len() == 0 {
        content
    } else {
        let before = performed(content, actions.drop_last());
        match actions.last() {
            ActionModel::Write { at, bytes } => bytes::splice(before, at as int, bytes),
            ActionModel::Flush => before,
        }
    }
}

/// Whether no two of `spans` share a byte of the device.
pub open spec fn disjoint(spans: Seq<Span>) -> bool {
    forall|i: int, j: int|
        0 <= i < j < spans.len() ==> {
            ||| (#[trigger] spans[i]).physical + spans[i].len <= (#[trigger] spans[j]).physical
            ||| spans[j].physical + spans[j].len <= spans[i].physical
        }
}

pub(crate) proof fn lemma_performed_len(content: Seq<u8>, actions: Seq<ActionModel>)
    ensures
        performed(content, actions).len() == content.len(),
    decreases actions.len(),
{
    if actions.len() > 0 {
        lemma_performed_len(content, actions.drop_last());
    }
}

/// Whether an action writes the byte at `a`.
pub open spec fn touches(action: ActionModel, a: int) -> bool {
    action matches ActionModel::Write { at, bytes } && at <= a < at + bytes.len()
}

/// Actions change only the bytes they write.
pub proof fn law_actions_change_only_what_they_write(
    content: Seq<u8>,
    actions: Seq<ActionModel>,
    a: int,
)
    requires
        0 <= a < content.len(),
        forall|i: int| 0 <= i < actions.len() ==> !touches(#[trigger] actions[i], a),
    ensures
        performed(content, actions).len() == content.len(),
        performed(content, actions)[a] == content[a],
    decreases actions.len(),
{
    lemma_performed_len(content, actions);
    if actions.len() > 0 {
        let front = actions.drop_last();
        assert forall|i: int| 0 <= i < front.len() implies !touches(#[trigger] front[i], a) by {
            assert(front[i] == actions[i]);
        }
        law_actions_change_only_what_they_write(content, front, a);
        assert(!touches(actions[actions.len() - 1], a));
    }
}

/// What is written to spans that share no byte is there afterwards.
proof fn lemma_performed(content: Seq<u8>, data: Seq<u8>, spans: Seq<Span>, i: int)
    requires
        disjoint(spans),
        parts_of(spans, data.len()),
        0 <= i < spans.len(),
        spans[i].physical + spans[i].len <= content.len(),
    ensures
        performed(content, writes_of(data, spans)).subrange(
            spans[i].physical as int,
            spans[i].physical + spans[i].len,
        ) == data.subrange(spans[i].from as int, spans[i].from + spans[i].len),
    decreases spans.len(),
{
    let front = spans.drop_last();
    let last = spans.last();
    let writes = writes_of(data, spans);
    assert(writes.drop_last() =~= writes_of(data, front));
    assert(writes.last() == write_of(data, last));
    let before = performed(content, writes_of(data, front));
    lemma_performed_len(content, writes_of(data, front));
    let after = performed(content, writes);
    let s = spans[i];
    let want = data.subrange(s.from as int, s.from + s.len);
    if i == spans.len() - 1 {
        assert(after.subrange(s.physical as int, s.physical + s.len) =~= want);
    } else {
        assert forall|a: int, b: int| 0 <= a < b < front.len() implies {
            ||| (#[trigger] front[a]).physical + front[a].len <= (#[trigger] front[b]).physical
            ||| front[b].physical + front[b].len <= front[a].physical
        } by {
            assert(front[a] == spans[a] && front[b] == spans[b]);
        }
        assert forall|a: int| 0 <= a < front.len() implies (#[trigger] front[a]).from
            + front[a].len <= data.len() by {
            assert(front[a] == spans[a]);
        }
        assert(front[i] == spans[i]);
        lemma_performed(content, data, front, i);
        assert(spans[spans.len() - 1] == last);
        assert(after.subrange(s.physical as int, s.physical + s.len) =~= before.subrange(
            s.physical as int,
            s.physical + s.len,
        ));
    }
}

/// Spans already found stay at the front, and all that are found lie on the
/// device and name parts of the data.
proof fn lemma_spans(
    map: Seq<ChunkModel>,
    size: u64,
    logical: u64,
    len: nat,
    mirror: nat,
    done: nat,
    before: Seq<Span>,
)
    requires
        chunk::divisible(map),
        len <= usize::MAX,
        done <= len,
        logical + done <= u64::MAX,
        parts_of(before, len),
        forall|i: int|
            0 <= i < before.len() ==> (#[trigger] before[i]).physical + before[i].len <= size,
    ensures
        spans_from(map, Some(size), logical, len, mirror, done, before) matches Ok(all) ==> {
            &&& before.len() <= all.len()
            &&& forall|i: int| 0 <= i < before.len() ==> #[trigger] all[i] == before[i]
            &&& parts_of(all, len)
            &&& forall|i: int|
                0 <= i < all.len() ==> (#[trigger] all[i]).physical + all[i].len <= size
        },
    decreases len - done,
{
    if done < len {
        if let Ok(m) = chunk::mapped_by(map, (logical + done) as u64, mirror) {
            chunk::lemma_mapping_fits(map, (logical + done) as u64, mirror);
            let n: nat = if m.len < len - done {
                m.len as nat
            } else {
                (len - done) as nat
            };
            if span_error(size, m.physical, n) is None {
                let next = before.push(
                    Span { physical: m.physical, from: done as usize, len: n as usize },
                );
                lemma_spans(map, size, logical, len, mirror, done + n, next);
                if let Ok(all) = spans_from(map, Some(size), logical, len, mirror, done, before) {
                    assert forall|i: int| 0 <= i < before.len() implies #[trigger] all[i]
                        == before[i] by {
                        assert(next[i] == before[i]);
                    }
                }
            }
        }
    }
}

proof fn lemma_copies(
    map: Seq<ChunkModel>,
    size: u64,
    logical: u64,
    len: nat,
    mirror: nat,
    count: nat,
    before: Seq<Span>,
)
    requires
        chunk::divisible(map),
        len <= usize::MAX,
        parts_of(before, len),
        forall|i: int|
            0 <= i < before.len() ==> (#[trigger] before[i]).physical + before[i].len <= size,
    ensures
        copies_from(map, size, logical, len, mirror, count, before) matches Ok(all) ==> {
            &&& before.len() <= all.len()
            &&& forall|i: int| 0 <= i < before.len() ==> #[trigger] all[i] == before[i]
            &&& parts_of(all, len)
            &&& forall|i: int|
                0 <= i < all.len() ==> (#[trigger] all[i]).physical + all[i].len <= size
        },
    decreases count - mirror,
{
    if mirror < count {
        lemma_spans(map, size, logical, len, mirror, 0, before);
        if let Ok(next) = spans_from(map, Some(size), logical, len, mirror, 0, before) {
            lemma_copies(map, size, logical, len, mirror + 1, count, next);
            if let Ok(all) = copies_from(map, size, logical, len, mirror, count, before) {
                assert forall|i: int| 0 <= i < before.len() implies #[trigger] all[i]
                    == before[i] by {
                    assert(next[i] == before[i]);
                }
            }
        }
    }
}

/// Every write lies on the device, whatever the chunks say.
pub proof fn law_writes_stay_on_the_device(
    map: Seq<ChunkModel>,
    size: u64,
    logical: u64,
    len: nat,
)
    requires
        chunk::divisible(map),
        len <= usize::MAX,
    ensures
        spans_of(map, size, logical, len) matches Ok(spans) ==> parts_of(spans, len) && forall|
            i: int,
        |
            0 <= i < spans.len() ==> (#[trigger] spans[i]).physical + spans[i].len <= size,
{
    if let Some(c) = chunk::chunk_at(map, logical) {
        lemma_copies(map, size, logical, len, 0, c.mirrors(), Seq::empty());
    }
}

/// Whether a device holds, at each of `spans`, its part of `data`.
pub open spec fn holds_parts(content: Seq<u8>, data: Seq<u8>, spans: Seq<Span>) -> bool {
    forall|i: int|
        0 <= i < spans.len() ==> content.subrange(
            (#[trigger] spans[i]).physical as int,
            spans[i].physical + spans[i].len,
        ) == data.subrange(spans[i].from as int, spans[i].from + spans[i].len)
}

/// Reading from `done` on gives the rest of the data, where the first copy's
/// spans from there on are among `all`.
proof fn lemma_read_back(
    map: Seq<ChunkModel>,
    size: u64,
    logical: u64,
    data: Seq<u8>,
    content: Seq<u8>,
    all: Seq<Span>,
    done: nat,
    before: Seq<Span>,
)
    requires
        chunk::divisible(map),
        data.len() <= usize::MAX,
        content.len() == size,
        done <= data.len(),
        logical + done <= u64::MAX,
        holds_parts(content, data, all),
        parts_of(before, data.len()),
        forall|i: int|
            0 <= i < before.len() ==> (#[trigger] before[i]).physical + before[i].len <= size,
        spans_from(map, Some(size), logical, data.len(), 0, done, before) matches Ok(found)
            && found.len() <= all.len() && forall|i: int|
            0 <= i < found.len() ==> #[trigger] found[i] == all[i],
    ensures
        device::pooled(
            holding(content),
            Seq::empty(),
            map,
            (logical + done) as u64,
            (data.len() - done) as nat,
        ) == Ok::<Seq<u8>, ErrorView>(data.skip(done as int)),
    decreases data.len() - done,
{
    if done == data.len() {
        assert(data.skip(done as int) =~= Seq::<u8>::empty());
    } else {
        let at = (logical + done) as u64;
        let m = chunk::mapped_by(map, at, 0)->Ok_0;
        chunk::lemma_mapping_fits(map, at, 0);
        let n: nat = if m.len < data.len() - done {
            m.len as nat
        } else {
            (data.len() - done) as nat
        };
        let span = Span { physical: m.physical, from: done as usize, len: n as usize };
        let next = before.push(span);
        lemma_spans(map, size, logical, data.len(), 0, done + n, next);
        let found = spans_from(map, Some(size), logical, data.len(), 0, done, before)->Ok_0;
        let i: int = before.len() as int;
        assert(found[i] == next[i]);
        assert(all[i] == span);
        lemma_read_back(map, size, logical, data, content, all, done + n, next);
        assert(device::answering(Seq::empty(), device::ANY_DEVICE, at, m) == Ok::<int, ErrorView>(
            0,
        ));
        assert(data.subrange(done as int, (done + n) as int) + data.skip((done + n) as int)
            =~= data.skip(done as int));
    }
}

/// A device that holds its part of the data at each of the places a write of
/// it goes to gives the data back.
pub proof fn lemma_held_is_read(
    map: Seq<ChunkModel>,
    logical: u64,
    data: Seq<u8>,
    content: Seq<u8>,
    spans: Seq<Span>,
)
    requires
        chunk::divisible(map),
        data.len() <= usize::MAX,
        content.len() <= u64::MAX,
        spans_of(map, content.len() as u64, logical, data.len()) == Ok::<Seq<Span>, ErrorView>(
            spans,
        ),
        holds_parts(content, data, spans),
    ensures
        device::pooled(holding(content), Seq::empty(), map, logical, data.len()) == Ok::<
            Seq<u8>,
            ErrorView,
        >(data),
{
    let size = content.len() as u64;
    let c = chunk::chunk_at(map, logical)->Some_0;
    chunk::lemma_found_is_member(map, logical);
    let k = choose|k: int| 0 <= k < map.len() && map[k] == c;
    assert(map[k].divisible());
    assert(c.mirrors() >= 1);
    let first = spans_from(map, Some(size), logical, data.len(), 0, 0, Seq::empty())->Ok_0;
    lemma_spans(map, size, logical, data.len(), 0, 0, Seq::empty());
    lemma_copies(map, size, logical, data.len(), 1, c.mirrors(), first);
    lemma_read_back(map, size, logical, data, content, spans, 0, Seq::empty());
    assert(data.skip(0) =~= data);
}

/// What is written to a logical range is what a read of it then gives, as
/// long as no two of the places it goes to share a byte of the device; and
/// every one of those places holds its part of the data.
pub proof fn law_a_write_is_read_back(
    map: Seq<ChunkModel>,
    logical: u64,
    data: Seq<u8>,
    content: Seq<u8>,
    spans: Seq<Span>,
)
    requires
        chunk::divisible(map),
        data.len() <= usize::MAX,
        content.len() <= u64::MAX,
        spans_of(map, content.len() as u64, logical, data.len()) == Ok::<Seq<Span>, ErrorView>(
            spans,
        ),
        disjoint(spans),
    ensures
        ({
            let after = performed(content, writes_of(data, spans));
            &&& device::pooled(holding(after), Seq::empty(), map, logical, data.len()) == Ok::<
                Seq<u8>,
                ErrorView,
            >(data)
            &&& forall|i: int|
                0 <= i < spans.len() ==> after.subrange(
                    (#[trigger] spans[i]).physical as int,
                    spans[i].physical + spans[i].len,
                ) == data.subrange(spans[i].from as int, spans[i].from + spans[i].len)
        }),
{
    let after = performed(content, writes_of(data, spans));
    law_writes_stay_on_the_device(map, content.len() as u64, logical, data.len());
    lemma_performed_len(content, writes_of(data, spans));
    assert forall|i: int| 0 <= i < spans.len() implies after.subrange(
        (#[trigger] spans[i]).physical as int,
        spans[i].physical + spans[i].len,
    ) == data.subrange(spans[i].from as int, spans[i].from + spans[i].len) by {
        lemma_performed(content, data, spans, i);
    }
    lemma_held_is_read(map, logical, data, after, spans);
}

/// Whether no two of `actions` write the same byte of the device.
pub open spec fn apart(actions: Seq<ActionModel>) -> bool {
    forall|i: int, j: int, a: int|
        0 <= i < j < actions.len() && #[trigger] touches(actions[i], a) ==> !(#[trigger] touches(
            actions[j],
            a,
        ))
}

/// What one of several writes that share no byte puts on the device is there
/// after all of them.
pub proof fn lemma_written(content: Seq<u8>, actions: Seq<ActionModel>, i: int)
    requires
        apart(actions),
        0 <= i < actions.len(),
    ensures
        performed(content, actions).len() == content.len(),
        actions[i] matches ActionModel::Write { at, bytes } ==> at + bytes.len() <= content.len()
            ==> performed(content, actions).subrange(at as int, at + bytes.len()) == bytes,
    decreases actions.len(),
{
    lemma_performed_len(content, actions);
    let front = actions.drop_last();
    let last = actions.len() - 1;
    lemma_performed_len(content, front);
    if let ActionModel::Write { at, bytes } = actions[i] {
        if at + bytes.len() <= content.len() {
            let after = performed(content, actions);
            if i < last {
                assert forall|x: int, y: int, a: int|
                    0 <= x < y < front.len() && #[trigger] touches(
                        front[x],
                        a,
                    ) implies !(#[trigger] touches(front[y], a)) by {
                    assert(touches(actions[x], a));
                    assert(!touches(actions[y], a));
                }
                lemma_written(content, front, i);
                assert(front[i] == actions[i]);
                let before = performed(content, front);
                assert forall|a: int| at <= a < at + bytes.len() implies after[a] == before[a] by {
                    assert(touches(actions[i], a));
                    assert(!touches(actions[last], a));
                }
                assert(after.subrange(at as int, at + bytes.len()) =~= before.subrange(
                    at as int,
                    at + bytes.len(),
                ));
            } else {
                assert(after.subrange(at as int, at + bytes.len()) =~= bytes);
            }
        }
    }
}

/// Whether `actions` write to no byte of the place the first copy of `len`
/// bytes at `logical` lies.
pub open spec fn avoids(map: Seq<ChunkModel>, logical: u64, len: nat, actions: Seq<ActionModel>) -> bool
    decreases len,
{
    if len == 0 {
        true
    } else {
        match chunk::mapped_by(map, logical, 0) {
            Err(_) => true,
            Ok(m) => {
                let n: nat = if m.len < len {
                    m.len as nat
                } else {
                    len
                };
                n == 0 || {
                    &&& forall|i: int, a: int|
                        0 <= i < actions.len() && m.physical <= a < m.physical + n
                            ==> !#[trigger] touches(actions[i], a)
                    &&& avoids(map, (logical + n) as u64, (len - n) as nat, actions)
                }
            },
        }
    }
}

/// What is not written reads as before: a range whose first copy the actions
/// do not touch gives the same bytes, or the same complaint, afterwards.
pub proof fn law_what_is_not_written_reads_as_before(
    map: Seq<ChunkModel>,
    logical: u64,
    len: nat,
    content: Seq<u8>,
    actions: Seq<ActionModel>,
)
    requires
        len <= usize::MAX,
        avoids(map, logical, len, actions),
    ensures
        device::pooled(holding(performed(content, actions)), Seq::empty(), map, logical, len)
            == device::pooled(holding(content), Seq::empty(), map, logical, len),
    decreases len,
{
    let after = performed(content, actions);
    lemma_performed_len(content, actions);
    if len > 0 {
        if let Ok(m) = chunk::mapped_by(map, logical, 0) {
            let n: nat = if m.len < len {
                m.len as nat
            } else {
                len
            };
            if n > 0 {
                law_what_is_not_written_reads_as_before(
                    map,
                    (logical + n) as u64,
                    (len - n) as nat,
                    content,
                    actions,
                );
                if m.physical + n <= content.len() {
                    assert forall|a: int| m.physical <= a < m.physical + n implies after[a]
                        == content[a] by {
                        assert forall|i: int| 0 <= i < actions.len() implies !touches(
                            #[trigger] actions[i],
                            a,
                        ) by {}
                        law_actions_change_only_what_they_write(content, actions, a);
                    }
                    assert(after.subrange(m.physical as int, m.physical + n) =~= content.subrange(
                        m.physical as int,
                        m.physical + n,
                    ));
                }
            }
        }
    }
}

} // verus!
