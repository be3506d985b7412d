//! That a write reaches every copy.

use vstd::prelude::*;

use crate::chunk;
use crate::chunk::place_laws;
use crate::chunk::ChunkModel;
use crate::device_write;
use crate::device_write::{ActionModel, Span};

verus! {

/// The mapping of an address further on in the same contiguous part.
pub(crate) proof fn lemma_further(map: Seq<ChunkModel>, logical: u64, mirror: nat, k: u64)
    requires
        chunk::ordered(map),
        chunk::divisible(map),
        chunk::mapped_by(map, logical, mirror) matches Ok(m) && k < m.len && m.physical + k
            <= u64::MAX,
    ensures
        logical + k <= u64::MAX,
        chunk::mapped_by(map, (logical + k) as u64, mirror) matches Ok(m2) && {
            let m = chunk::mapped_by(map, logical, mirror)->Ok_0;
            &&& m2.devid == m.devid
            &&& m2.physical == m.physical + k
        },
{
    chunk::lemma_mapping_fits(map, logical, mirror);
    chunk::law_lookup_finds_the_covering_chunk(map, logical);
    let c = chunk::chunk_at(map, logical)->Some_0;
    let at = choose|at: int| 0 <= at < map.len() && map[at] == c;
    assert(map[at].divisible());
    chunk::laws::law_mapping_stays_in_its_chunk(c, logical, mirror);
    let further = (logical + k) as u64;
    assert(c.covers(further));
    chunk::law_lookup_finds_the_covering_chunk(map, further);
    assert(map[at].covers(further));
    chunk::laws::law_mapping_is_contiguous(c, logical, mirror, k);
}

/// Whether one of `spans` puts byte `k` of the data at `physical`.
pub open spec fn lands(spans: Seq<Span>, k: int, physical: int) -> bool {
    exists|i: int|
        0 <= i < spans.len() && (#[trigger] spans[i]).from <= k < spans[i].from + spans[i].len
            && spans[i].physical + (k - spans[i].from) == physical
}

/// Whether a span puts its part of the data where copy `mirror` of it lies.
pub open spec fn is_part(map: Seq<ChunkModel>, logical: u64, span: Span, mirror: nat) -> bool {
    chunk::mapped_by(map, (logical + span.from) as u64, mirror) matches Ok(m) && m.physical
        == span.physical && span.len <= m.len
}

/// Whether a span puts its part of the data where one of `copies` copies of it
/// lies.
pub open spec fn in_place(map: Seq<ChunkModel>, logical: u64, span: Span, copies: nat) -> bool {
    exists|mirror: nat| mirror < copies && #[trigger] is_part(map, logical, span, mirror)
}

/// Whether each of `spans` puts bytes of the data only where a copy of them
/// belongs.
pub open spec fn belongs(map: Seq<ChunkModel>, logical: u64, spans: Seq<Span>, copies: nat) -> bool {
    forall|i: int| 0 <= i < spans.len() ==> in_place(map, logical, #[trigger] spans[i], copies)
}

proof fn lemma_spans(
    map: Seq<ChunkModel>,
    size: u64,
    logical: u64,
    len: nat,
    mirror: nat,
    done: nat,
    before: Seq<Span>,
    copies: nat,
)
    requires
        chunk::ordered(map),
        chunk::divisible(map),
        len <= usize::MAX,
        done < len ==> logical + done <= u64::MAX,
        mirror < copies,
        belongs(map, logical, before, copies),
        device_write::spans_from(map, Some(size), logical, len, mirror, done, before) is Ok,
    ensures
        ({
            let all = device_write::spans_from(
                map,
                Some(size),
                logical,
                len,
                mirror,
                done,
                before,
            )->Ok_0;
            &&& before.len() <= all.len()
            &&& forall|i: int| 0 <= i < before.len() ==> #[trigger] all[i] == before[i]
            &&& belongs(map, logical, all, copies)
            &&& forall|k: int|
                done <= k < len ==> logical + k <= u64::MAX && (#[trigger] chunk::mapped_by(
                    map,
                    (logical + k) as u64,
                    mirror,
                ) matches Ok(m) && lands(all, k, m.physical as int))
        }),
    decreases len - done,
{
    if done < len {
        let at = (logical + done) as u64;
        let m = chunk::mapped_by(map, at, mirror)->Ok_0;
        chunk::lemma_mapping_fits(map, at, mirror);
        let n: nat = if m.len < len - done {
            m.len as nat
        } else {
            (len - done) as nat
        };
        let span = Span { physical: m.physical, from: done as usize, len: n as usize };
        let next = before.push(span);
        assert(belongs(map, logical, next, copies)) by {
            assert forall|i: int| 0 <= i < next.len() implies in_place(
                map,
                logical,
                #[trigger] next[i],
                copies,
            ) by {
                if i < before.len() {
                    assert(next[i] == before[i]);
                } else {
                    assert(is_part(map, logical, span, mirror));
                }
            }
        }
        lemma_spans(map, size, logical, len, mirror, done + n, next, copies);
        let all = device_write::spans_from(
            map,
            Some(size),
            logical,
            len,
            mirror,
            done,
            before,
        )->Ok_0;
        assert(all[before.len() as int] == next[before.len() as int]);
        assert forall|i: int| 0 <= i < before.len() implies #[trigger] all[i] == before[i] by {
            assert(all[i] == next[i]);
        }
        assert forall|k: int| done <= k < len implies logical + k <= u64::MAX && (
        #[trigger] chunk::mapped_by(map, (logical + k) as u64, mirror) matches Ok(m2) && lands(
            all,
            k,
            m2.physical as int,
        )) by {
            if k < done + n {
                lemma_further(map, at, mirror, (k - done) as u64);
                assert((at + (k - done) as u64) as u64 == (logical + k) as u64);
                assert(all[before.len() as int] == span);
            }
        }
    }
}

#[verifier::spinoff_prover]
#[verifier::rlimit(40)]
proof fn lemma_copies(
    map: Seq<ChunkModel>,
    size: u64,
    logical: u64,
    len: nat,
    mirror: nat,
    count: nat,
    before: Seq<Span>,
)
    requires
        chunk::ordered(map),
        chunk::divisible(map),
        len <= usize::MAX,
        belongs(map, logical, before, count),
        device_write::copies_from(map, size, logical, len, mirror, count, before) is Ok,
    ensures
        ({
            let all = device_write::copies_from(
                map,
                size,
                logical,
                len,
                mirror,
                count,
                before,
            )->Ok_0;
            &&& before.len() <= all.len()
            &&& forall|i: int| 0 <= i < before.len() ==> #[trigger] all[i] == before[i]
            &&& belongs(map, logical, all, count)
            &&& forall|k: int, c: nat|
                0 <= k < len && mirror <= c < count ==> logical + k <= u64::MAX && (
                #[trigger] chunk::mapped_by(map, (logical + k) as u64, c) matches Ok(m) && lands(
                    all,
                    k,
                    m.physical as int,
                ))
        }),
    decreases count - mirror,
{
    if mirror < count {
        let next = device_write::spans_from(map, Some(size), logical, len, mirror, 0, before)->Ok_0;
        lemma_spans(map, size, logical, len, mirror, 0, before, count);
        lemma_copies(map, size, logical, len, mirror + 1, count, next);
        let all = device_write::copies_from(
            map,
            size,
            logical,
            len,
            mirror,
            count,
            before,
        )->Ok_0;
        assert forall|i: int| 0 <= i < before.len() implies #[trigger] all[i] == before[i] by {
            assert(all[i] == next[i]);
        }
        assert forall|k: int, c: nat| 0 <= k < len && mirror <= c < count implies logical + k
            <= u64::MAX && (#[trigger] chunk::mapped_by(map, (logical + k) as u64, c) matches Ok(m)
            && lands(all, k, m.physical as int)) by {
            if c == mirror {
                let m = chunk::mapped_by(map, (logical + k) as u64, c)->Ok_0;
                assert(lands(next, k, m.physical as int));
                let i = choose|i: int|
                    0 <= i < next.len() && (#[trigger] next[i]).from <= k < next[i].from
                        + next[i].len && next[i].physical + (k - next[i].from) == m.physical;
                assert(all[i] == next[i]);
            }
        }
    }
}

/// How many copies of a byte a chunk keeps.
pub open spec fn copies_kept(c: ChunkModel) -> nat {
    if c.chunk_type & 0x7f8 == 0x40 {
        c.sub_stripes as nat
    } else {
        place_laws::copies(c.chunk_type & 0x7f8)
    }
}

/// Whether one of `writes` puts `byte` at `physical`.
pub open spec fn wrote(writes: Seq<ActionModel>, physical: int, byte: u8) -> bool {
    exists|i: int|
        0 <= i < writes.len() && (#[trigger] writes[i] matches ActionModel::Write { at, bytes } && at
            <= physical < at + bytes.len() && bytes[physical - at] == byte)
}

/// Whether `action` puts the part of the data that `span` names where one of
/// `copies` copies of it lies.
pub open spec fn puts(
    map: Seq<ChunkModel>,
    logical: u64,
    data: Seq<u8>,
    action: ActionModel,
    span: Span,
    copies: nat,
) -> bool {
    &&& in_place(map, logical, span, copies)
    &&& span.from + span.len <= data.len()
    &&& action == (ActionModel::Write {
        at: span.physical,
        bytes: data.subrange(span.from as int, span.from + span.len),
    })
}

proof fn lemma_landed(data: Seq<u8>, spans: Seq<Span>, k: int, physical: int)
    requires
        0 <= k < data.len(),
        device_write::parts_of(spans, data.len()),
        lands(spans, k, physical),
    ensures
        wrote(device_write::writes_of(data, spans), physical, data[k]),
{
    let writes = device_write::writes_of(data, spans);
    let i = choose|i: int|
        0 <= i < spans.len() && (#[trigger] spans[i]).from <= k < spans[i].from + spans[i].len
            && spans[i].physical + (k - spans[i].from) == physical;
    assert(writes[i] == device_write::write_of(data, spans[i]));
}

/// A write reaches every copy: each byte of the data goes to where copy
/// `mirror` of its address lies, for as many copies as the chunk keeps.
pub proof fn law_a_write_reaches_every_copy(
    map: Seq<ChunkModel>,
    size: u64,
    logical: u64,
    data: Seq<u8>,
    c: ChunkModel,
    k: int,
    mirror: nat,
)
    requires
        chunk::ordered(map),
        chunk::divisible(map),
        data.len() <= usize::MAX,
        chunk::chunk_at(map, logical) == Some(c),
        c.chunk_type & 0x7 != 0,
        place_laws::one_profile(c.chunk_type),
        device_write::copies_written(map, size, logical, data) is Ok,
        0 <= k < data.len(),
        mirror < copies_kept(c),
    ensures
        logical + k <= u64::MAX,
        chunk::mapped_by(map, (logical + k) as u64, mirror) matches Ok(m) && wrote(
            device_write::copies_written(map, size, logical, data)->Ok_0,
            m.physical as int,
            data[k],
        ),
{
    place_laws::lemma_mirrors(c);
    let spans = device_write::spans_of(map, size, logical, data.len())->Ok_0;
    lemma_copies(map, size, logical, data.len(), 0, copies_kept(c), Seq::empty());
    device_write::law_writes_stay_on_the_device(map, size, logical, data.len());
    let m = chunk::mapped_by(map, (logical + k) as u64, mirror)->Ok_0;
    lemma_landed(data, spans, k, m.physical as int);
}

/// A write goes nowhere else: each of its actions puts a part of the data
/// where a copy of that part lies, on the device.
pub proof fn law_a_write_goes_nowhere_else(
    map: Seq<ChunkModel>,
    size: u64,
    logical: u64,
    data: Seq<u8>,
    c: ChunkModel,
    i: int,
)
    requires
        chunk::ordered(map),
        chunk::divisible(map),
        data.len() <= usize::MAX,
        chunk::chunk_at(map, logical) == Some(c),
        c.chunk_type & 0x7 != 0,
        place_laws::one_profile(c.chunk_type),
        device_write::copies_written(map, size, logical, data) matches Ok(writes) && 0 <= i
            < writes.len(),
    ensures
        exists|span: Span| #[trigger]
            puts(
                map,
                logical,
                data,
                device_write::copies_written(map, size, logical, data)->Ok_0[i],
                span,
                copies_kept(c),
            ) && span.physical + span.len <= size,
{
    place_laws::lemma_mirrors(c);
    let spans = device_write::spans_of(map, size, logical, data.len())->Ok_0;
    let writes = device_write::copies_written(map, size, logical, data)->Ok_0;
    lemma_copies(map, size, logical, data.len(), 0, copies_kept(c), Seq::empty());
    device_write::law_writes_stay_on_the_device(map, size, logical, data.len());
    assert(writes[i] == device_write::write_of(data, spans[i]));
    assert(puts(map, logical, data, writes[i], spans[i], copies_kept(c)));
}

} // verus!
