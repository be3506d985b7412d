//! The system chunk array entry by entry, and which chunks a map takes.

use vstd::prelude::*;

use crate::bytes;
use crate::chunk;
use crate::chunk::map_laws;
use crate::chunk::ChunkModel;
use crate::error::ErrorView;

verus! {

/// Whether `pos` is where an entry of the array stands that holds `c`: 17
/// bytes of key that say a chunk of the chunk tree and where it starts, then
/// its item.
pub open spec fn entry_at(array: Seq<u8>, sectorsize: u32, pos: int, c: ChunkModel) -> bool {
    &&& 0 <= pos
    &&& pos + 65 + 32 * c.num_stripes <= array.len()
    &&& bytes::u64_at(array, pos) == 256
    &&& array[pos + 8] == 228
    &&& bytes::u64_at(array, pos + 9) == c.logical
    &&& chunk::chunk_outcome(c.logical, array.skip(pos + 17)) == Ok::<ChunkModel, ErrorView>(c)
    &&& chunk::geometry_error(c, sectorsize) is None
}

/// Whether the array from `pos` on is entries that hold `list` and nothing
/// else.
pub open spec fn entries(array: Seq<u8>, sectorsize: u32, pos: int, list: Seq<ChunkModel>) -> bool
    decreases list.len(),
{
    if list.len() == 0 {
        pos == array.len()
    } else {
        entry_at(array, sectorsize, pos, list[0]) && entries(
            array,
            sectorsize,
            pos + 65 + 32 * list[0].num_stripes,
            list.drop_first(),
        )
    }
}

proof fn lemma_entries(array: Seq<u8>, sectorsize: u32, pos: int, list: Seq<ChunkModel>)
    requires
        0 <= pos,
    ensures
        entries(array, sectorsize, pos, list) <==> map_laws::end_to_end(
            array,
            sectorsize,
            pos,
            list,
        ),
    decreases list.len(),
{
    if list.len() > 0 {
        lemma_entries(
            array,
            sectorsize,
            pos + 65 + 32 * list[0].num_stripes,
            list.drop_first(),
        );
    }
}

/// The map a superblock embeds holds exactly the chunks of the entries of its
/// array. It is taken wherever the array is nothing but entries and no two of
/// their chunks overlap, and nowhere else.
pub proof fn law_an_array_is_taken_entry_by_entry(array: Seq<u8>, sectorsize: u32)
    ensures
        chunk::sys_chunks(array, sectorsize, 0, Seq::empty()) matches Ok(map) ==> exists|
            list: Seq<ChunkModel>,
        | #[trigger]
            entries(array, sectorsize, 0, list) && list.len() == map.len()
                && map_laws::inserted_all(Seq::empty(), list) == Ok::<Seq<ChunkModel>, ErrorView>(
                map,
            ),
        forall|list: Seq<ChunkModel>| #[trigger]
            entries(array, sectorsize, 0, list) ==> chunk::sys_chunks(
                array,
                sectorsize,
                0,
                Seq::empty(),
            ) == map_laws::inserted_all(Seq::empty(), list),
{
    let none = Seq::<ChunkModel>::empty();
    if let Ok(map) = chunk::sys_chunks(array, sectorsize, 0, none) {
        map_laws::law_an_accepted_array_is_its_entries(array, sectorsize);
        let list = choose|list: Seq<ChunkModel>|
            {
                &&& #[trigger] map_laws::end_to_end(array, sectorsize, 0, list)
                &&& map_laws::inserted_all(none, list) == Ok::<Seq<ChunkModel>, ErrorView>(map)
                &&& list.len() == map.len()
            };
        lemma_entries(array, sectorsize, 0, list);
        assert(entries(array, sectorsize, 0, list));
    }
    assert forall|list: Seq<ChunkModel>| #[trigger]
        entries(array, sectorsize, 0, list) implies chunk::sys_chunks(array, sectorsize, 0, none)
        == map_laws::inserted_all(none, list) by {
        lemma_entries(array, sectorsize, 0, list);
        map_laws::lemma_entries_are_read(array, sectorsize, 0, none, list);
    }
}

/// Whether two chunks have no address in common.
pub open spec fn apart(a: ChunkModel, b: ChunkModel) -> bool {
    a.logical + a.length <= b.logical || b.logical + b.length <= a.logical
}

/// A chunk goes into a map exactly where it has no address in common with any
/// chunk there. The map then holds what it held and the chunk.
pub proof fn law_a_chunk_goes_in_where_nothing_overlaps(s: Seq<ChunkModel>, c: ChunkModel)
    requires
        map_laws::rising(s),
        forall|i: int| 0 <= i < s.len() ==> (#[trigger] s[i]).logical + s[i].length <= u64::MAX,
        0 < c.length,
        c.logical + c.length <= u64::MAX,
    ensures
        chunk::inserted(s, c) is Ok <==> forall|i: int|
            0 <= i < s.len() ==> apart(#[trigger] s[i], c),
        chunk::inserted(s, c) matches Ok(t) ==> {
            &&& map_laws::rising(t)
            &&& t.len() == s.len() + 1
            &&& forall|x: ChunkModel| #[trigger] t.contains(x) <==> s.contains(x) || x == c
        },
{
    if chunk::inserted(s, c) is Ok {
        map_laws::lemma_taken_is_disjoint(s, c);
    }
    if forall|i: int| 0 <= i < s.len() ==> apart(#[trigger] s[i], c) {
        assert forall|i: int| 0 <= i < s.len() implies map_laws::disjoint(#[trigger] s[i], c) by {
            assert(apart(s[i], c));
        }
        map_laws::lemma_inserted(s, c);
    } else {
        let i = choose|i: int| 0 <= i < s.len() && !apart(#[trigger] s[i], c);
        if chunk::inserted(s, c) is Ok {
            assert(map_laws::disjoint(s[i], c));
        }
    }
}

/// An address is translated by the one chunk that covers it, from its start
/// on for its length, and is not translated where none does.
pub proof fn law_an_address_belongs_to_one_chunk(s: Seq<ChunkModel>, at: u64, mirror: nat)
    requires
        chunk::ordered(s),
        forall|i: int| 0 <= i < s.len() ==> (#[trigger] s[i]).logical + s[i].length <= u64::MAX,
    ensures
        forall|i: int|
            0 <= i < s.len() && (#[trigger] s[i]).logical <= at < s[i].logical + s[i].length
                ==> chunk::mapped_by(s, at, mirror) == s[i].mapped(at, mirror),
        (forall|i: int|
            0 <= i < s.len() ==> !((#[trigger] s[i]).logical <= at < s[i].logical + s[i].length))
            ==> chunk::mapped_by(s, at, mirror) is Err,
{
    chunk::law_lookup_finds_the_covering_chunk(s, at);
    assert forall|i: int|
        0 <= i < s.len() && (#[trigger] s[i]).logical <= at < s[i].logical
            + s[i].length implies chunk::mapped_by(s, at, mirror) == s[i].mapped(at, mirror) by {
        assert(s[i].covers(at));
    }
    if let Some(c) = chunk::chunk_at(s, at) {
        let i = choose|i: int| 0 <= i < s.len() && s[i] == c;
        assert(s[i].covers(at));
    }
}

} // verus!
