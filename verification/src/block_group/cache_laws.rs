//! What the items of the free-space tree say is free.

use vstd::arithmetic::div_mod::lemma_fundamental_div_mod_converse;
use vstd::prelude::*;

use crate::block_group::runs;
use crate::block_group::space;
use crate::block_group::{BlockGroup, FreeExtent};
use crate::btree::{ItemModel, Stream};

verus! {

/// Whether bit `i` of a bitmap is set: the bytes in their order, and in each
/// byte the low bit first.
pub open spec fn bit(data: Seq<u8>, i: int) -> bool {
    (data[i / 8] >> ((i % 8) as u8)) % 2 == 1
}

/// Whether an item of the free-space tree says that `a` is free: a run that
/// holds it, or a bitmap whose bit for its sector is set.
pub open spec fn frees(item: ItemModel, sectorsize: u64, a: u64) -> bool {
    &&& item.key.objectid <= a < item.key.objectid + item.key.offset
    &&& {
        ||| item.key.key_type == 199
        ||| item.key.key_type == 200 && bit(
            item.data,
            (a - item.key.objectid) / (sectorsize as int),
        )
    }
}

/// Whether some item filed in `group` says that `a` is free.
pub open spec fn said_free(
    items: Seq<ItemModel>,
    group: BlockGroup,
    sectorsize: u64,
    a: u64,
) -> bool {
    exists|i: int|
        0 <= i < items.len() && group.start <= (#[trigger] items[i]).key.objectid < group.start
            + group.length && frees(items[i], sectorsize, a)
}

/// Whether the bitmaps of a free-space tree cover whole sectors inside the
/// address space.
pub open spec fn bitmaps_whole(items: Seq<ItemModel>, sectorsize: u64) -> bool {
    forall|i: int|
        0 <= i < items.len() && (#[trigger] items[i]).key.key_type == 200 ==> items[i].key.offset
            % sectorsize == 0 && items[i].key.objectid + items[i].key.offset <= u64::MAX
}

proof fn lemma_bit(data: Seq<u8>, i: int)
    ensures
        space::bit_set(data, i) == bit(data, i),
{
    let b = data[i / 8];
    let j = (i % 8) as u8;
    assert(j < 8);
    assert(b & (1u8 << j) != 0 <==> (b >> j) % 2 == 1) by (bit_vector)
        requires
            j < 8,
    ;
}

proof fn lemma_bitmap(
    o: u64,
    sectors: int,
    data: Seq<u8>,
    ss: u64,
    i: int,
    run: Option<u64>,
    out: Seq<FreeExtent>,
    a: u64,
)
    requires
        ss > 0,
        0 <= i <= sectors,
        o + sectors * ss <= u64::MAX,
        run matches Some(from) ==> o <= from <= o + i * ss,
    ensures
        runs::in_runs(
            space::bitmap_runs(
                (o + sectors * ss) as u64,
                data,
                ss,
                sectors,
                i,
                (o + i * ss) as nat,
                run,
                out,
            ),
            a,
        ) <==> {
            ||| runs::in_runs(out, a)
            ||| run matches Some(from) && from <= a < o + i * ss
            ||| o + i * ss <= a < o + sectors * ss && bit(data, (a - o) / (ss as int))
        },
    decreases sectors - i,
{
    let end = (o + sectors * ss) as u64;
    let at: int = o + i * ss;
    assert(at <= end && at >= o) by (nonlinear_arith)
        requires
            0 <= i <= sectors,
            ss > 0,
            at == o + i * ss,
            end == o + sectors * ss,
    ;
    if i == sectors {
        if let Some(from) = run {
            runs::lemma_in_pushed(out, space::run_between(from, end), a);
        }
    } else {
        let next: int = o + (i + 1) * ss;
        assert(next == at + ss) by (nonlinear_arith)
            requires
                next == o + (i + 1) * ss,
                at == o + i * ss,
        ;
        assert(next <= end) by (nonlinear_arith)
            requires
                i + 1 <= sectors,
                ss > 0,
                next == o + (i + 1) * ss,
                end == o + sectors * ss,
        ;
        lemma_bit(data, i);
        if at <= a < next {
            lemma_fundamental_div_mod_converse(a - o, ss as int, i, a - at);
        }
        let free = space::bit_set(data, i);
        let run2 = if !free {
            None
        } else if run is Some {
            run
        } else {
            Some(space::capped(at as nat))
        };
        let out2 = if !free && run is Some {
            out.push(space::run_between(run->Some_0, space::capped(at as nat)))
        } else {
            out
        };
        if !free && run is Some {
            runs::lemma_in_pushed(
                out,
                space::run_between(run->Some_0, space::capped(at as nat)),
                a,
            );
        }
        lemma_bitmap(o, sectors, data, ss, i + 1, run2, out2, a);
    }
}

proof fn lemma_cached(items: Seq<ItemModel>, group: BlockGroup, ss: u64, a: u64)
    requires
        ss > 0,
        a < u64::MAX,
        bitmaps_whole(items, ss),
    ensures
        runs::in_runs(space::cached_in(items, group, ss), a) <==> said_free(items, group, ss, a),
    decreases items.len(),
{
    if items.len() > 0 {
        let front = items.drop_last();
        let last = items.last();
        let before = space::cached_in(front, group, ss);
        assert(bitmaps_whole(front, ss)) by {
            assert forall|i: int| 0 <= i < front.len() && (#[trigger] front[i]).key.key_type
                == 200 implies front[i].key.offset % ss == 0 && front[i].key.objectid
                + front[i].key.offset <= u64::MAX by {
                assert(front[i] == items[i]);
            }
        }
        lemma_cached(front, group, ss, a);
        if said_free(front, group, ss, a) {
            let i = choose|i: int|
                0 <= i < front.len() && group.start <= (#[trigger] front[i]).key.objectid
                    < group.start + group.length && frees(front[i], ss, a);
            assert(items[i] == front[i]);
        }
        if said_free(items, group, ss, a) {
            let i = choose|i: int|
                0 <= i < items.len() && group.start <= (#[trigger] items[i]).key.objectid
                    < group.start + group.length && frees(items[i], ss, a);
            if i < front.len() {
                assert(front[i] == items[i]);
            }
        }
        assert(items[items.len() - 1] == last);
        let o = last.key.objectid;
        let l = last.key.offset;
        if group.covers(o) && last.key.key_type == 199 {
            runs::lemma_in_pushed(before, FreeExtent { start: o, len: l }, a);
        } else if group.covers(o) && last.key.key_type == 200 {
            let sectors: int = (l / ss) as int;
            vstd::arithmetic::div_mod::lemma_fundamental_div_mod(l as int, ss as int);
            assert(sectors * ss == l) by (nonlinear_arith)
                requires
                    l == ss * sectors + 0,
            ;
            assert(0 * ss == 0) by (nonlinear_arith);
            lemma_bitmap(o, sectors, last.data, ss, 0, None, before, a);
        }
    }
}

/// What the free-space tree is read to say of a group is what its items say:
/// an address is free exactly where a run filed in the group holds it, or a
/// bitmap filed there has the bit for its sector set.
pub proof fn law_the_cache_is_its_runs_and_bitmaps(
    s: Stream,
    group: BlockGroup,
    sectorsize: u64,
    a: u64,
)
    requires
        sectorsize > 0,
        a < u64::MAX,
        bitmaps_whole(s.items, sectorsize),
        space::cache_says(s, group, sectorsize) is Ok,
    ensures
        runs::in_runs(space::cache_says(s, group, sectorsize)->Ok_0, a) <==> said_free(
            s.items,
            group,
            sectorsize,
            a,
        ),
{
    let list = space::cached_in(s.items, group, sectorsize);
    lemma_cached(s.items, group, sectorsize, a);
    runs::law_merging_keeps_coverage(runs::in_order(list), a);
    runs::lemma_in_order_keeps(list, a);
}

/// Nothing is said of a group whose free-space info is not in the tree.
pub proof fn law_a_group_without_info_is_not_answered(
    s: Stream,
    group: BlockGroup,
    sectorsize: u64,
)
    requires
        forall|i: int|
            0 <= i < s.items.len() ==> !((#[trigger] s.items[i]).key.key_type == 198 && group.start
                <= s.items[i].key.objectid < group.start + group.length),
    ensures
        space::cache_says(s, group, sectorsize) is Err,
{
}

} // verus!
