//! What holds of a chunk map however its chunks arrive, and of the array a
//! volume is bootstrapped from.

use vstd::prelude::*;

use crate::bytes;
use crate::chunk;
use crate::chunk::{key_type, objectid, ChunkModel, DiskKey};
use crate::error::ErrorView;

verus! {

/// Whether two chunks share no address.
pub open spec fn disjoint(c: ChunkModel, d: ChunkModel) -> bool {
    c.logical + c.length <= d.logical || d.logical + d.length <= c.logical
}

/// Whether every chunk of `list` covers something and no two share an address.
pub open spec fn apart(list: Seq<ChunkModel>) -> bool {
    &&& forall|i: int| 0 <= i < list.len() ==> (#[trigger] list[i]).length > 0
    &&& forall|i: int, j: int|
        0 <= i < j < list.len() ==> disjoint(#[trigger] list[i], #[trigger] list[j])
}

/// Whether every chunk of `s` covers something and ends before the next one
/// starts.
pub open spec fn rising(s: Seq<ChunkModel>) -> bool {
    &&& forall|i: int| 0 <= i < s.len() ==> (#[trigger] s[i]).length > 0
    &&& forall|i: int, j: int|
        0 <= i < j < s.len() ==> (#[trigger] s[i]).logical + s[i].length <= (
        #[trigger] s[j]).logical
}

/// What adding the chunks of `list` to `s`, one after the other, gives.
pub open spec fn inserted_all(
    s: Seq<ChunkModel>,
    list: Seq<ChunkModel>,
) -> std::result::Result<Seq<ChunkModel>, ErrorView>
    decreases list.len(),
{
    if list.len() == 0 {
        Ok(s)
    } else {
        match chunk::inserted(s, list[0]) {
            Err(e) => Err(e),
            Ok(t) => inserted_all(t, list.drop_first()),
        }
    }
}

/// Whether two lists hold the same chunks.
pub open spec fn same_chunks(a: Seq<ChunkModel>, b: Seq<ChunkModel>) -> bool {
    forall|c: ChunkModel| #[trigger] a.contains(c) <==> b.contains(c)
}

pub(crate) proof fn lemma_inserted(s: Seq<ChunkModel>, c: ChunkModel)
    requires
        rising(s),
        c.length > 0,
        forall|i: int| 0 <= i < s.len() ==> disjoint(#[trigger] s[i], c),
    ensures
        chunk::inserted(s, c) matches Ok(t) && {
            &&& rising(t)
            &&& t.len() == s.len() + 1
            &&& forall|x: ChunkModel| #[trigger] t.contains(x) <==> s.contains(x) || x == c
        },
{
    let at = chunk::place_for(s, c.logical);
    chunk::lemma_place_for(s, c.logical);
    let t = s.insert(at, c);
    if at > 0 {
        assert(disjoint(s[at - 1], c));
    }
    if at < s.len() {
        assert(disjoint(s[at], c));
    }
    assert forall|i: int, j: int| 0 <= i < j < t.len() implies (#[trigger] t[i]).logical
        + t[i].length <= (#[trigger] t[j]).logical by {
        if j == at {
            if i < at - 1 {
                assert(s[i].logical + s[i].length <= s[at - 1].logical);
            }
        } else if i == at {
            assert(disjoint(s[j - 1], c));
        } else {
            let a = if i < at {
                s[i]
            } else {
                s[i - 1]
            };
            let b = if j < at {
                s[j]
            } else {
                s[j - 1]
            };
            assert(a == t[i] && b == t[j]);
        }
    }
    assert forall|x: ChunkModel| #[trigger] t.contains(x) <==> s.contains(x) || x == c by {
        if t.contains(x) {
            let i = choose|i: int| 0 <= i < t.len() && t[i] == x;
            if i < at {
                assert(s[i] == x);
            } else if i > at {
                assert(s[i - 1] == x);
            }
        }
        if s.contains(x) {
            let i = choose|i: int| 0 <= i < s.len() && s[i] == x;
            if i < at {
                assert(t[i] == x);
            } else {
                assert(t[i + 1] == x);
            }
        }
        assert(t[at] == c);
    }
}

proof fn lemma_inserted_all(s: Seq<ChunkModel>, list: Seq<ChunkModel>)
    requires
        rising(s),
        apart(list),
        forall|i: int, j: int|
            0 <= i < s.len() && 0 <= j < list.len() ==> disjoint(
                #[trigger] s[i],
                #[trigger] list[j],
            ),
    ensures
        inserted_all(s, list) matches Ok(t) && {
            &&& rising(t)
            &&& t.len() == s.len() + list.len()
            &&& forall|x: ChunkModel| #[trigger]
                t.contains(x) <==> s.contains(x) || list.contains(x)
        },
    decreases list.len(),
{
    if list.len() > 0 {
        let c = list[0];
        let rest = list.drop_first();
        lemma_inserted(s, c);
        let t = chunk::inserted(s, c)->Ok_0;
        assert forall|i: int, j: int|
            0 <= i < t.len() && 0 <= j < rest.len() implies disjoint(
            #[trigger] t[i],
            #[trigger] rest[j],
        ) by {
            assert(rest[j] == list[j + 1]);
            assert(t.contains(t[i]));
            if t[i] == c {
                assert(disjoint(list[0], list[j + 1]));
            } else {
                let k = choose|k: int| 0 <= k < s.len() && s[k] == t[i];
                assert(disjoint(s[k], list[j + 1]));
            }
        }
        assert(apart(rest)) by {
            assert forall|i: int, j: int| 0 <= i < j < rest.len() implies disjoint(
                #[trigger] rest[i],
                #[trigger] rest[j],
            ) by {
                assert(rest[i] == list[i + 1] && rest[j] == list[j + 1]);
            }
            assert forall|i: int| 0 <= i < rest.len() implies (#[trigger] rest[i]).length > 0 by {
                assert(rest[i] == list[i + 1]);
            }
        }
        lemma_inserted_all(t, rest);
        let u = inserted_all(s, list)->Ok_0;
        assert forall|x: ChunkModel| #[trigger]
            u.contains(x) <==> s.contains(x) || list.contains(x) by {
            if rest.contains(x) {
                let k = choose|k: int| 0 <= k < rest.len() && rest[k] == x;
                assert(list[k + 1] == x);
            }
            if list.contains(x) {
                let k = choose|k: int| 0 <= k < list.len() && list[k] == x;
                if k > 0 {
                    assert(rest[k - 1] == x);
                }
            }
            assert(list[0] == c);
        }
    }
}

/// Chunks in address order are fixed by which they are.
proof fn lemma_rising_unique(s: Seq<ChunkModel>, t: Seq<ChunkModel>)
    requires
        rising(s),
        rising(t),
        same_chunks(s, t),
    ensures
        s == t,
    decreases s.len(),
{
    if s.len() == 0 {
        if t.len() > 0 {
            assert(t.contains(t[0]));
            assert(s.contains(t[0]));
        }
        assert(s =~= t);
    } else {
        let m: int = s.len() - 1;
        assert(s.contains(s[m]));
        let k = choose|k: int| 0 <= k < t.len() && t[k] == s[m];
        let n: int = t.len() - 1;
        assert(t.contains(t[n]));
        assert(s.contains(t[n]));
        let l = choose|l: int| 0 <= l < s.len() && s[l] == t[n];
        assert(k == n) by {
            if k < n {
                assert(t[k].logical + t[k].length <= t[n].logical);
                if l < m {
                    assert(s[l].logical + s[l].length <= s[m].logical);
                }
            }
        }
        let a = s.drop_last();
        let b = t.drop_last();
        assert forall|c: ChunkModel| #[trigger] a.contains(c) <==> b.contains(c) by {
            if a.contains(c) {
                let i = choose|i: int| 0 <= i < a.len() && a[i] == c;
                assert(s[i] == c);
                assert(s.contains(c));
                assert(t.contains(c));
                let j = choose|j: int| 0 <= j < t.len() && t[j] == c;
                assert(s[i].logical + s[i].length <= s[m].logical);
                assert(b[j] == c);
            }
            if b.contains(c) {
                let i = choose|i: int| 0 <= i < b.len() && b[i] == c;
                assert(t[i] == c);
                assert(t.contains(c));
                assert(s.contains(c));
                let j = choose|j: int| 0 <= j < s.len() && s[j] == c;
                assert(t[i].logical + t[i].length <= t[n].logical);
                assert(a[j] == c);
            }
        }
        assert(rising(a)) by {
            assert(forall|i: int| 0 <= i < a.len() ==> #[trigger] a[i] == s[i]);
        }
        assert(rising(b)) by {
            assert(forall|i: int| 0 <= i < b.len() ==> #[trigger] b[i] == t[i]);
        }
        lemma_rising_unique(a, b);
        assert(s =~= a.push(s[m]));
        assert(t =~= b.push(t[n]));
    }
}

/// Chunks that share no address make the same map whatever order they are
/// added in: all of them are taken, the map holds exactly them, and they stand
/// in address order.
pub proof fn law_the_order_of_inserts_does_not_matter(a: Seq<ChunkModel>, b: Seq<ChunkModel>)
    requires
        apart(a),
        apart(b),
        same_chunks(a, b),
    ensures
        inserted_all(Seq::empty(), a) == inserted_all(Seq::empty(), b),
        inserted_all(Seq::empty(), a) matches Ok(map) && {
            &&& rising(map)
            &&& chunk::ordered(map)
            &&& map.len() == a.len()
            &&& same_chunks(map, a)
        },
{
    let none = Seq::<ChunkModel>::empty();
    lemma_inserted_all(none, a);
    lemma_inserted_all(none, b);
    let s = inserted_all(none, a)->Ok_0;
    let t = inserted_all(none, b)->Ok_0;
    assert(same_chunks(s, a)) by {
        assert forall|c: ChunkModel| #[trigger] s.contains(c) <==> a.contains(c) by {
            assert(!none.contains(c));
        }
    }
    assert forall|c: ChunkModel| #[trigger] s.contains(c) <==> t.contains(c) by {
        assert(!none.contains(c));
        assert(a.contains(c) <==> b.contains(c));
    }
    lemma_rising_unique(s, t);
}

/// Two chunks added to a map in either order make the same map: where one
/// order takes both, so does the other.
pub proof fn law_two_inserts_commute(s: Seq<ChunkModel>, c: ChunkModel, d: ChunkModel)
    requires
        rising(s),
        forall|i: int| 0 <= i < s.len() ==> (#[trigger] s[i]).logical + s[i].length <= u64::MAX,
        0 < c.length,
        c.logical + c.length <= u64::MAX,
        0 < d.length,
        d.logical + d.length <= u64::MAX,
        inserted_all(s, seq![c, d]) is Ok,
    ensures
        inserted_all(s, seq![d, c]) == inserted_all(s, seq![c, d]),
{
    reveal_with_fuel(inserted_all, 3);
    assert(seq![c, d].drop_first() =~= seq![d]);
    assert(seq![c, d].drop_first().drop_first() =~= Seq::<ChunkModel>::empty());
    lemma_taken_is_disjoint(s, c);
    lemma_inserted(s, c);
    let t = chunk::inserted(s, c)->Ok_0;
    assert forall|i: int| 0 <= i < t.len() implies (#[trigger] t[i]).logical + t[i].length
        <= u64::MAX by {
        assert(t.contains(t[i]));
        if t[i] != c {
            let k = choose|k: int| 0 <= k < s.len() && s[k] == t[i];
        }
    }
    lemma_taken_is_disjoint(t, d);
    assert(t.contains(c));
    let at = choose|i: int| 0 <= i < t.len() && t[i] == c;
    assert(disjoint(t[at], d));
    assert forall|i: int| 0 <= i < s.len() implies disjoint(#[trigger] s[i], d) by {
        assert(s.contains(s[i]));
        assert(t.contains(s[i]));
        let k = choose|k: int| 0 <= k < t.len() && t[k] == s[i];
        assert(disjoint(t[k], d));
    }
    let one = seq![c, d];
    let two = seq![d, c];
    lemma_inserted_all(s, one);
    lemma_inserted_all(s, two);
    let u = inserted_all(s, one)->Ok_0;
    let v = inserted_all(s, two)->Ok_0;
    assert forall|x: ChunkModel| #[trigger] u.contains(x) <==> v.contains(x) by {
        assert(one[0] == c && one[1] == d && two[0] == d && two[1] == c);
        assert(one.contains(x) <==> x == c || x == d);
        assert(two.contains(x) <==> x == c || x == d);
    }
    lemma_rising_unique(u, v);
}

pub(crate) proof fn lemma_taken_is_disjoint(s: Seq<ChunkModel>, c: ChunkModel)
    requires
        rising(s),
        forall|i: int| 0 <= i < s.len() ==> (#[trigger] s[i]).logical + s[i].length <= u64::MAX,
        c.logical + c.length <= u64::MAX,
        chunk::inserted(s, c) is Ok,
    ensures
        forall|i: int| 0 <= i < s.len() ==> disjoint(#[trigger] s[i], c),
{
    let at = chunk::place_for(s, c.logical);
    chunk::lemma_place_for(s, c.logical);
    assert forall|i: int| 0 <= i < s.len() implies disjoint(#[trigger] s[i], c) by {
        if i < at - 1 {
            assert(s[i].logical + s[i].length <= s[at - 1].logical);
        } else if i > at {
            assert(s[at].logical + s[at].length <= s[i].logical);
        }
    }
}

/// How many bytes an entry of the system chunk array takes: its key and the
/// chunk item.
pub open spec fn entry_len(c: ChunkModel) -> nat {
    (chunk::DISK_KEY_SIZE + chunk::CHUNK_HEADER_SIZE + c.num_stripes * chunk::STRIPE_SIZE) as nat
}

/// How many bytes the entries of `list` take.
pub open spec fn entries_len(list: Seq<ChunkModel>) -> nat
    decreases list.len(),
{
    if list.len() == 0 {
        0
    } else {
        entry_len(list[0]) + entries_len(list.drop_first())
    }
}

/// Whether the bytes of `array` from `pos` on are exactly the entries of
/// `list`, end to end, each a chunk item's key and a chunk that is sound and
/// aligned.
pub open spec fn end_to_end(
    array: Seq<u8>,
    sectorsize: u32,
    pos: int,
    list: Seq<ChunkModel>,
) -> bool
    decreases list.len(),
{
    if list.len() == 0 {
        pos == array.len()
    } else {
        let c = list[0];
        &&& pos + entry_len(c) <= array.len()
        &&& chunk::key_at(array, pos) == (DiskKey {
            objectid: objectid::FIRST_CHUNK_TREE,
            key_type: key_type::CHUNK_ITEM,
            offset: c.logical,
        })
        &&& chunk::chunk_outcome(c.logical, array.skip(pos + chunk::DISK_KEY_SIZE)) == Ok::<
            ChunkModel,
            ErrorView,
        >(c)
        &&& chunk::geometry_error(c, sectorsize) is None
        &&& end_to_end(array, sectorsize, pos + entry_len(c), list.drop_first())
    }
}

/// Whether an entry of `list`, laid out from `pos` on, starts or the last one
/// ends at `k`.
pub open spec fn is_boundary(pos: int, list: Seq<ChunkModel>, k: int) -> bool
    decreases list.len(),
{
    k == pos || (list.len() > 0 && is_boundary(pos + entry_len(list[0]), list.drop_first(), k))
}

proof fn lemma_entries_insert(s: Seq<ChunkModel>, at: int, c: ChunkModel)
    requires
        0 <= at <= s.len(),
    ensures
        entries_len(s.insert(at, c)) == entries_len(s) + entry_len(c),
    decreases s.len(),
{
    let t = s.insert(at, c);
    if at == 0 {
        assert(t.drop_first() =~= s);
    } else {
        assert(t.drop_first() =~= s.drop_first().insert(at - 1, c));
        lemma_entries_insert(s.drop_first(), at - 1, c);
    }
}

proof fn lemma_sys_chunks(
    array: Seq<u8>,
    sectorsize: u32,
    pos: int,
    s: Seq<ChunkModel>,
) -> (list: Seq<ChunkModel>)
    requires
        0 <= pos <= array.len(),
        chunk::sys_chunks(array, sectorsize, pos, s) is Ok,
    ensures
        end_to_end(array, sectorsize, pos, list),
        inserted_all(s, list) == chunk::sys_chunks(array, sectorsize, pos, s),
        entries_len(inserted_all(s, list)->Ok_0) == entries_len(s) + array.len() - pos,
        forall|i: int|
            0 <= i < inserted_all(s, list)->Ok_0.len() ==> s.contains(
                #[trigger] inserted_all(s, list)->Ok_0[i],
            ) || list.contains(inserted_all(s, list)->Ok_0[i]),
        inserted_all(s, list)->Ok_0.len() == s.len() + list.len(),
    decreases array.len() - pos,
{
    if pos == array.len() {
        let list = Seq::<ChunkModel>::empty();
        assert forall|i: int| 0 <= i < s.len() implies s.contains(#[trigger] s[i]) by {}
        list
    } else {
        let key = chunk::key_at(array, pos);
        let body = array.skip(pos + chunk::DISK_KEY_SIZE);
        let c = chunk::chunk_outcome(key.offset, body)->Ok_0;
        let t = chunk::inserted(s, c)->Ok_0;
        let at = chunk::place_for(s, c.logical);
        chunk::lemma_place_for(s, c.logical);
        assert(c.num_stripes == bytes::u16_at(body, 0x2c));
        assert(body.len() >= chunk::CHUNK_HEADER_SIZE + c.num_stripes * chunk::STRIPE_SIZE);
        let rest = lemma_sys_chunks(array, sectorsize, pos + entry_len(c), t);
        let list = seq![c] + rest;
        assert(list.drop_first() =~= rest);
        assert(list[0] == c);
        lemma_entries_insert(s, at, c);
        let map = inserted_all(s, list)->Ok_0;
        assert forall|i: int| 0 <= i < map.len() implies s.contains(#[trigger] map[i])
            || list.contains(map[i]) by {
            if rest.contains(map[i]) {
                let k = choose|k: int| 0 <= k < rest.len() && rest[k] == map[i];
                assert(list[k + 1] == map[i]);
            } else {
                assert(t.contains(map[i]));
                let k = choose|k: int| 0 <= k < t.len() && t[k] == map[i];
                if k < at {
                    assert(s[k] == map[i]);
                } else if k > at {
                    assert(s[k - 1] == map[i]);
                }
            }
        }
        list
    }
}

proof fn lemma_listed_are_sound(
    array: Seq<u8>,
    sectorsize: u32,
    pos: int,
    list: Seq<ChunkModel>,
    i: int,
)
    requires
        end_to_end(array, sectorsize, pos, list),
        0 <= i < list.len(),
    ensures
        list[i].error() is None,
        chunk::geometry_error(list[i], sectorsize) is None,
    decreases list.len(),
{
    if i > 0 {
        lemma_listed_are_sound(
            array,
            sectorsize,
            pos + entry_len(list[0]),
            list.drop_first(),
            i - 1,
        );
    }
}

/// A system chunk array that is accepted is exactly its entries laid end to
/// end. The map holds one chunk for each, the entries of the map's chunks take
/// the array's length, and every chunk is sound and aligned.
pub proof fn law_an_accepted_array_is_its_entries(array: Seq<u8>, sectorsize: u32)
    requires
        chunk::sys_chunks(array, sectorsize, 0, Seq::empty()) is Ok,
    ensures
        ({
            let map = chunk::sys_chunks(array, sectorsize, 0, Seq::empty())->Ok_0;
            &&& exists|list: Seq<ChunkModel>|
                {
                    &&& #[trigger] end_to_end(array, sectorsize, 0, list)
                    &&& inserted_all(Seq::empty(), list) == Ok::<Seq<ChunkModel>, ErrorView>(map)
                    &&& list.len() == map.len()
                }
            &&& entries_len(map) == array.len()
            &&& forall|i: int|
                0 <= i < map.len() ==> (#[trigger] map[i]).error() is None && chunk::geometry_error(
                    map[i],
                    sectorsize,
                ) is None
        }),
{
    let none = Seq::<ChunkModel>::empty();
    let map = chunk::sys_chunks(array, sectorsize, 0, none)->Ok_0;
    let list = lemma_sys_chunks(array, sectorsize, 0, none);
    assert(end_to_end(array, sectorsize, 0, list));
    assert forall|i: int| 0 <= i < map.len() implies (#[trigger] map[i]).error() is None
        && chunk::geometry_error(map[i], sectorsize) is None by {
        assert(!none.contains(map[i]));
        let k = choose|k: int| 0 <= k < list.len() && list[k] == map[i];
        lemma_listed_are_sound(array, sectorsize, 0, list, k);
    }
}

proof fn lemma_u16_take(b: Seq<u8>, m: int, at: int)
    requires
        0 <= at,
        at + 2 <= m <= b.len(),
    ensures
        bytes::u16_at(b.take(m), at) == bytes::u16_at(b, at),
{
    reveal(bytes::u16_at);
}

proof fn lemma_u64_take(b: Seq<u8>, m: int, at: int)
    requires
        0 <= at,
        at + 8 <= m <= b.len(),
    ensures
        bytes::u64_at(b.take(m), at) == bytes::u64_at(b, at),
{
    let t = b.take(m);
    assert forall|k: int| 0 <= k < 8 implies t[at + k] == #[trigger] b[at + k] by {}
    bytes::lemma_u64_local(t, b, at, at);
}

proof fn lemma_u32_take(b: Seq<u8>, m: int, at: int)
    requires
        0 <= at,
        at + 4 <= m <= b.len(),
    ensures
        bytes::u32_at(b.take(m), at) == bytes::u32_at(b, at),
{
    let t = b.take(m);
    assert forall|k: int| 0 <= k < 4 implies t[at + k] == #[trigger] b[at + k] by {}
    bytes::lemma_u32_local(t, b, at, at);
}

/// A chunk item is read from its own bytes alone, and from none fewer.
proof fn lemma_chunk_of_prefix(logical: u64, b: Seq<u8>, m: int)
    requires
        0 <= m <= b.len(),
        chunk::chunk_outcome(logical, b) is Ok,
    ensures
        ({
            let c = chunk::chunk_outcome(logical, b)->Ok_0;
            let need = chunk::CHUNK_HEADER_SIZE + c.num_stripes * chunk::STRIPE_SIZE;
            if m < need {
                chunk::chunk_outcome(logical, b.take(m)) matches Err(e) && e is BadChunkItem
            } else {
                chunk::chunk_outcome(logical, b.take(m)) == Ok::<ChunkModel, ErrorView>(c)
            }
        }),
{
    let c = chunk::chunk_outcome(logical, b)->Ok_0;
    let t = b.take(m);
    if m >= chunk::CHUNK_HEADER_SIZE {
        lemma_u16_take(b, m, 0x2c);
        lemma_u16_take(b, m, 0x2e);
        lemma_u64_take(b, m, 0x00);
        lemma_u64_take(b, m, 0x08);
        lemma_u64_take(b, m, 0x10);
        lemma_u64_take(b, m, 0x18);
        lemma_u32_take(b, m, 0x20);
        lemma_u32_take(b, m, 0x24);
        lemma_u32_take(b, m, 0x28);
        if m >= chunk::CHUNK_HEADER_SIZE + c.num_stripes * chunk::STRIPE_SIZE {
            let d = chunk::chunk_fields(logical, t);
            assert forall|i: int| 0 <= i < c.num_stripes implies #[trigger] d.stripes[i]
                == c.stripes[i] by {
                let at: int = chunk::CHUNK_HEADER_SIZE + i * chunk::STRIPE_SIZE;
                lemma_u64_take(b, m, at);
                lemma_u64_take(b, m, at + 8);
                assert(t.subrange(at + 16, at + 32) =~= b.subrange(at + 16, at + 32));
            }
            assert(d.stripes =~= c.stripes);
            assert(d == c);
        }
    }
}

#[verifier::spinoff_prover]
#[verifier::rlimit(40)]
proof fn lemma_cut(
    array: Seq<u8>,
    sectorsize: u32,
    pos: int,
    s: Seq<ChunkModel>,
    list: Seq<ChunkModel>,
    k: int,
)
    requires
        end_to_end(array, sectorsize, pos, list),
        inserted_all(s, list) is Ok,
        0 <= pos < k < array.len(),
        !is_boundary(pos, list, k),
    ensures
        chunk::sys_chunks(array.take(k), sectorsize, pos, s) matches Err(e) && e is BadChunkItem,
    decreases list.len(),
{
    let c = list[0];
    let cut = array.take(k);
    let next: int = pos + entry_len(c);
    let from: int = pos + chunk::DISK_KEY_SIZE;
    assert(is_boundary(next, list.drop_first(), next));
    if k >= from {
        lemma_u64_take(array, k, pos);
        lemma_u64_take(array, k, pos + 9);
        assert(chunk::key_at(cut, pos) == chunk::key_at(array, pos));
        assert(cut.skip(from) =~= array.skip(from).take(k - from));
        lemma_chunk_of_prefix(c.logical, array.skip(from), k - from);
        if k > next {
            lemma_cut(
                array,
                sectorsize,
                next,
                chunk::inserted(s, c)->Ok_0,
                list.drop_first(),
                k,
            );
        }
    }
}

/// A system chunk array cut off anywhere but between two entries is refused.
pub proof fn law_a_cut_entry_is_refused(
    array: Seq<u8>,
    sectorsize: u32,
    list: Seq<ChunkModel>,
    k: int,
)
    requires
        chunk::sys_chunks(array, sectorsize, 0, Seq::empty()) is Ok,
        end_to_end(array, sectorsize, 0, list),
        0 < k < array.len(),
        !is_boundary(0, list, k),
    ensures
        chunk::sys_chunks(array.take(k), sectorsize, 0, Seq::empty()) matches Err(e)
            && e is BadChunkItem,
{
    lemma_entries_are_read(array, sectorsize, 0, Seq::empty(), list);
    lemma_cut(array, sectorsize, 0, Seq::empty(), list, k);
}

pub(crate) proof fn lemma_entries_are_read(
    array: Seq<u8>,
    sectorsize: u32,
    pos: int,
    s: Seq<ChunkModel>,
    list: Seq<ChunkModel>,
)
    requires
        0 <= pos,
        end_to_end(array, sectorsize, pos, list),
    ensures
        inserted_all(s, list) == chunk::sys_chunks(array, sectorsize, pos, s),
    decreases list.len(),
{
    if list.len() > 0 {
        let c = list[0];
        if let Ok(t) = chunk::inserted(s, c) {
            lemma_entries_are_read(
                array,
                sectorsize,
                pos + entry_len(c),
                t,
                list.drop_first(),
            );
        }
    }
}

} // verus!
