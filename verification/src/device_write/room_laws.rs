//! Which writes are made.

use vstd::prelude::*;

use crate::chunk;
use crate::chunk::place_laws;
use crate::chunk::ChunkModel;
use crate::device_write;
use crate::device_write::mirror_laws;
use crate::device_write::Span;

verus! {

/// Whether copy `mirror` of each of `len` bytes at `logical` has a place on a
/// device of `size` bytes.
pub open spec fn has_room(
    map: Seq<ChunkModel>,
    size: u64,
    logical: u64,
    len: nat,
    mirror: nat,
) -> bool {
    forall|k: int|
        0 <= k < len ==> logical + k <= u64::MAX && (#[trigger] chunk::mapped_by(
            map,
            (logical + k) as u64,
            mirror,
        ) matches Ok(m) && m.physical < size)
}

proof fn lemma_spans_made(
    map: Seq<ChunkModel>,
    size: u64,
    logical: u64,
    len: nat,
    mirror: nat,
    done: nat,
    before: Seq<Span>,
)
    requires
        chunk::ordered(map),
        chunk::divisible(map),
        has_room(map, size, logical, len, mirror),
    ensures
        device_write::spans_from(map, Some(size), logical, len, mirror, done, before) is Ok,
    decreases len - done,
{
    if done < len {
        let at = (logical + done) as u64;
        assert(chunk::mapped_by(map, (logical + (done as int)) as u64, mirror) is Ok);
        let m = chunk::mapped_by(map, at, mirror)->Ok_0;
        chunk::lemma_mapping_fits(map, at, mirror);
        let n: nat = if m.len < len - done {
            m.len as nat
        } else {
            (len - done) as nat
        };
        lemma_last(map, size, logical, len, mirror, done, n);
        lemma_spans_made(
            map,
            size,
            logical,
            len,
            mirror,
            done + n,
            before.push(Span { physical: m.physical, from: done as usize, len: n as usize }),
        );
    }
}

proof fn lemma_last(
    map: Seq<ChunkModel>,
    size: u64,
    logical: u64,
    len: nat,
    mirror: nat,
    done: nat,
    n: nat,
)
    requires
        chunk::ordered(map),
        chunk::divisible(map),
        has_room(map, size, logical, len, mirror),
        0 < n,
        done + n <= len,
        logical + done <= u64::MAX,
        chunk::mapped_by(map, (logical + done) as u64, mirror) matches Ok(m) && n <= m.len,
    ensures
        chunk::mapped_by(map, (logical + done) as u64, mirror)->Ok_0.physical + n <= size,
    decreases n,
{
    let at = (logical + done) as u64;
    let m = chunk::mapped_by(map, at, mirror)->Ok_0;
    let k: int = done + n - 1;
    assert(chunk::mapped_by(map, (logical + k) as u64, mirror) is Ok);
    if n > 1 {
        lemma_last(map, size, logical, len, mirror, done, (n - 1) as nat);
        mirror_laws::lemma_further(map, at, mirror, (n - 1) as u64);
        assert((at + (n - 1) as u64) as u64 == (logical + k) as u64);
    } else {
        assert(at == (logical + k) as u64);
    }
}

proof fn lemma_copies_made(
    map: Seq<ChunkModel>,
    size: u64,
    logical: u64,
    len: nat,
    mirror: nat,
    count: nat,
    before: Seq<Span>,
)
    requires
        chunk::ordered(map),
        chunk::divisible(map),
        forall|c: nat| mirror <= c < count ==> #[trigger] has_room(map, size, logical, len, c),
    ensures
        device_write::copies_from(map, size, logical, len, mirror, count, before) is Ok,
    decreases count - mirror,
{
    if mirror < count {
        assert(has_room(map, size, logical, len, mirror));
        lemma_spans_made(map, size, logical, len, mirror, 0, before);
        let next = device_write::spans_from(map, Some(size), logical, len, mirror, 0, before)->Ok_0;
        lemma_copies_made(map, size, logical, len, mirror + 1, count, next);
    }
}

/// Data is written wherever every copy of each of its bytes has a place on the
/// device, up to its last byte.
pub proof fn law_what_has_room_is_written(
    map: Seq<ChunkModel>,
    size: u64,
    logical: u64,
    data: Seq<u8>,
    c: ChunkModel,
)
    requires
        chunk::ordered(map),
        chunk::divisible(map),
        chunk::chunk_at(map, logical) == Some(c),
        c.chunk_type & 0x7 != 0,
        place_laws::one_profile(c.chunk_type),
        forall|mirror: nat|
            mirror < mirror_laws::copies_kept(c) ==> #[trigger] has_room(
                map,
                size,
                logical,
                data.len(),
                mirror,
            ),
    ensures
        device_write::copies_written(map, size, logical, data) is Ok,
{
    place_laws::lemma_mirrors(c);
    lemma_copies_made(map, size, logical, data.len(), 0, c.mirrors(), Seq::empty());
}

} // verus!
