//! Runs of bytes: what lies between them, where a block fits in one, and how
//! they join.

use vstd::prelude::*;

use crate::block_group::{BlockGroup, FreeExtent};
use crate::error::{Error, ErrorView, Result};
use crate::text;
use crate::text::cat6;
use crate::text::Part::{Dec, Lit};

verus! {

/// `a + b`, or the end of the address space where that is nearer.
pub open spec fn reach(a: u64, b: u64) -> u64 {
    if a + b > u64::MAX {
        u64::MAX
    } else {
        (a + b) as u64
    }
}

/// Whether `address` lies in `run`.
pub open spec fn in_run(run: FreeExtent, address: u64) -> bool {
    run.start <= address < reach(run.start, run.len)
}

/// Whether `address` lies in one of `runs`.
pub open spec fn in_runs(runs: Seq<FreeExtent>, address: u64) -> bool {
    exists|i: int| 0 <= i < runs.len() && in_run(#[trigger] runs[i], address)
}

/// `a + b`, or the end of the address space where that is nearer.
pub(crate) fn reached(a: u64, b: u64) -> (end: u64)
    ensures
        end == reach(a, b),
{
    a.saturating_add(b)
}

/// The first multiple of `nodesize` from `start` on.
pub open spec fn aligned_up(start: u64, nodesize: u64) -> nat {
    if start % nodesize == 0 {
        start as nat
    } else {
        (start + (nodesize - start % nodesize)) as nat
    }
}

/// How much of a free run is usable once alignment is paid for.
///
/// A run starting mid-block loses the remainder of that block, so the usable
/// length is not the run's length.
pub fn usable_in(run: FreeExtent, nodesize: u64) -> (n: u64)
    requires
        nodesize > 0,
    ensures
        n == (if aligned_up(run.start, nodesize) > reach(run.start, run.len) {
            0
        } else {
            reach(run.start, run.len) - aligned_up(run.start, nodesize)
        }),
{
    let end: u64 = reached(run.start, run.len);
    match align_up(run.start, nodesize) {
        Some(start) => end.saturating_sub(start),
        None => 0,
    }
}

/// The first multiple of `nodesize` from `start` on, if there is one in the
/// address space.
fn align_up(start: u64, nodesize: u64) -> (r: Option<u64>)
    requires
        nodesize > 0,
    ensures
        match r {
            Some(at) => at == aligned_up(start, nodesize),
            None => aligned_up(start, nodesize) > u64::MAX,
        },
{
    let past: u64 = start % nodesize;
    if past == 0 {
        Some(start)
    } else {
        start.checked_add(nodesize - past)
    }
}

/// Where in a free run a tree block goes.
pub open spec fn place_of(run: FreeExtent, nodesize: u64) -> Option<u64> {
    let at = aligned_up(run.start, nodesize);
    if at + nodesize <= reach(run.start, run.len) {
        Some(at as u64)
    } else {
        None
    }
}

/// Where in a free run a tree block goes, if it fits.
///
/// Measured from the aligned start, not by the run's length: a run that is
/// long enough but straddles a boundary holds no block at all.
pub fn place_in_run(run: FreeExtent, nodesize: u64) -> (r: Option<u64>)
    requires
        nodesize > 0,
    ensures
        r == place_of(run, nodesize),
{
    let end: u64 = reached(run.start, run.len);
    match align_up(run.start, nodesize) {
        Some(start) => {
            if end.saturating_sub(start) >= nodesize {
                Some(start)
            } else {
                None
            }
        },
        None => None,
    }
}

/// A block is placed on a boundary, whole inside its run, and nowhere if no
/// boundary of the run leaves room for it.
pub proof fn law_a_block_is_placed_where_it_fits(run: FreeExtent, nodesize: u64)
    requires
        nodesize > 0,
    ensures
        match place_of(run, nodesize) {
            Some(at) => {
                &&& at % nodesize == 0
                &&& run.start <= at
                &&& at + nodesize <= reach(run.start, run.len)
            },
            None => forall|at: u64|
                run.start <= at && #[trigger] (at % nodesize) == 0 ==> at + nodesize > reach(
                    run.start,
                    run.len,
                ),
        },
{
    let start: int = run.start as int;
    let n: int = nodesize as int;
    let past: int = start % n;
    let up: int = aligned_up(run.start, nodesize) as int;
    vstd::arithmetic::div_mod::lemma_fundamental_div_mod(start, n);
    if past != 0 {
        let q: int = start / n;
        assert(up == n * (q + 1)) by (nonlinear_arith)
            requires
                start == n * q + past,
                up == start + (n - past),
        ;
        vstd::arithmetic::div_mod::lemma_mod_multiples_basic(q + 1, n);
        assert((q + 1) * n == n * (q + 1)) by (nonlinear_arith);
    }
    assert(up % n == 0);
    if place_of(run, nodesize) is None {
        assert forall|at: u64| run.start <= at && #[trigger] (at % nodesize) == 0 implies at
            + nodesize > reach(run.start, run.len) by {
            let a: int = at as int;
            if a < up {
                let q: int = start / n;
                let p: int = a / n;
                vstd::arithmetic::div_mod::lemma_fundamental_div_mod(a, n);
                assert(false) by (nonlinear_arith)
                    requires
                        n > 0,
                        0 < past < n,
                        start == n * q + past,
                        a == n * p,
                        start <= a < start + (n - past),
                ;
            }
        }
    }
}

/// `runs` with those that touch joined, as far as they stand next to each
/// other.
pub open spec fn merged(runs: Seq<FreeExtent>) -> Seq<FreeExtent>
    decreases runs.len(),
{
    if runs.len() == 0 {
        runs
    } else {
        let out = merged(runs.drop_last());
        let run = runs.last();
        if out.len() > 0 && out.last().start + out.last().len == run.start {
            out.drop_last().push(
                FreeExtent { start: out.last().start, len: reach(out.last().len, run.len) },
            )
        } else {
            out.push(run)
        }
    }
}

/// Join runs that touch, so two sources of the same free space compare equal
/// regardless of how each happened to split it.
pub fn merge_adjacent(runs: Vec<FreeExtent>) -> (out: Vec<FreeExtent>)
    ensures
        out@ == merged(runs@),
{
    let mut out: Vec<FreeExtent> = Vec::new();
    let mut i: usize = 0;
    assert(out@ =~= merged(runs@.take(0)));
    while i < runs.len()
        invariant
            i <= runs@.len(),
            out@ == merged(runs@.take(i as int)),
        decreases runs@.len() - i,
    {
        let run = runs[i];
        assert(runs@.take(i + 1).drop_last() =~= runs@.take(i as int));
        assert(runs@.take(i + 1).last() == run);
        let n: usize = out.len();
        let joins: bool = n > 0 && out[n - 1].start <= run.start && run.start - out[n - 1].start
            == out[n - 1].len;
        let ghost before = out@;
        if joins {
            let prev = out[n - 1];
            out.set(
                n - 1,
                FreeExtent { start: prev.start, len: reached(prev.len, run.len) },
            );
            assert(out@ =~= before.drop_last().push(
                FreeExtent { start: prev.start, len: reach(prev.len, run.len) },
            ));
        } else {
            out.push(run);
        }
        i = i + 1;
    }
    assert(runs@.take(runs@.len() as int) =~= runs@);
    out
}

/// Joining runs that touch covers the same addresses as the runs did.
pub proof fn law_merging_keeps_coverage(runs: Seq<FreeExtent>, address: u64)
    ensures
        in_runs(merged(runs), address) == in_runs(runs, address),
    decreases runs.len(),
{
    if runs.len() > 0 {
        let front = runs.drop_last();
        let run = runs.last();
        law_merging_keeps_coverage(front, address);
        let out = merged(front);
        let all = merged(runs);
        lemma_in_pushed(front, run, address);
        assert(front.push(run) =~= runs);
        if out.len() > 0 && out.last().start + out.last().len == run.start {
            let rest = out.drop_last();
            let prev = out.last();
            let wide = FreeExtent { start: prev.start, len: reach(prev.len, run.len) };
            assert(rest.push(prev) =~= out);
            lemma_in_pushed(rest, prev, address);
            lemma_in_pushed(rest, wide, address);
            assert(in_run(wide, address) == (in_run(prev, address) || in_run(run, address)));
        } else {
            lemma_in_pushed(out, run, address);
        }
    } else {
        assert(merged(runs) =~= runs);
    }
}

pub proof fn lemma_in_pushed(runs: Seq<FreeExtent>, run: FreeExtent, address: u64)
    ensures
        in_runs(runs.push(run), address) == (in_runs(runs, address) || in_run(run, address)),
{
    let all = runs.push(run);
    if in_runs(runs, address) {
        let i = choose|i: int| 0 <= i < runs.len() && in_run(#[trigger] runs[i], address);
        assert(in_run(all[i], address));
    }
    if in_run(run, address) {
        assert(in_run(all[runs.len() as int], address));
    }
    if in_runs(all, address) {
        let i = choose|i: int| 0 <= i < all.len() && in_run(#[trigger] all[i], address);
        if i < runs.len() {
            assert(in_run(runs[i], address));
        }
    }
}

/// Where a run belongs among `runs` that go by their starts: behind the last
/// one that does not start later.
pub open spec fn start_place(runs: Seq<FreeExtent>, start: u64) -> int
    decreases runs.len(),
{
    if runs.len() == 0 || runs.last().start <= start {
        runs.len() as int
    } else {
        start_place(runs.drop_last(), start)
    }
}

/// `runs` in the order of their starts; those that start together stay in the
/// order they were in.
pub open spec fn by_start(runs: Seq<FreeExtent>) -> Seq<FreeExtent>
    decreases runs.len(),
{
    if runs.len() == 0 {
        runs
    } else {
        let out = by_start(runs.drop_last());
        out.insert(start_place(out, runs.last().start), runs.last())
    }
}

/// Put runs in the order of their starts.
pub(crate) fn sort_by_start(runs: &[FreeExtent]) -> (out: Vec<FreeExtent>)
    ensures
        out@ == by_start(runs@),
{
    let mut out: Vec<FreeExtent> = Vec::new();
    let mut i: usize = 0;
    assert(out@ =~= by_start(runs@.take(0)));
    while i < runs.len()
        invariant
            i <= runs@.len(),
            out@ == by_start(runs@.take(i as int)),
        decreases runs@.len() - i,
    {
        let run = runs[i];
        assert(runs@.take(i + 1).drop_last() =~= runs@.take(i as int));
        assert(runs@.take(i + 1).last() == run);
        let mut at: usize = out.len();
        assert(out@.take(at as int) =~= out@);
        while at > 0 && out[at - 1].start > run.start
            invariant
                at <= out@.len(),
                start_place(out@, run.start) == start_place(out@.take(at as int), run.start),
            decreases at,
        {
            at = at - 1;
            assert(out@.take(at + 1).drop_last() =~= out@.take(at as int));
        }
        out.insert(at, run);
        i = i + 1;
    }
    assert(runs@.take(runs@.len() as int) =~= runs@);
    out
}

/// Whether `a` goes before `b` or in the same place: by start, then by length.
pub open spec fn not_after(a: FreeExtent, b: FreeExtent) -> bool {
    a.start < b.start || (a.start == b.start && a.len <= b.len)
}

/// Where a run belongs among `runs` that are in full order.
pub open spec fn run_place(runs: Seq<FreeExtent>, run: FreeExtent) -> int
    decreases runs.len(),
{
    if runs.len() == 0 || not_after(runs.last(), run) {
        runs.len() as int
    } else {
        run_place(runs.drop_last(), run)
    }
}

/// `runs` by start, then by length.
pub open spec fn in_order(runs: Seq<FreeExtent>) -> Seq<FreeExtent>
    decreases runs.len(),
{
    if runs.len() == 0 {
        runs
    } else {
        let out = in_order(runs.drop_last());
        out.insert(run_place(out, runs.last()), runs.last())
    }
}

/// Put runs in order: by start, then by length.
pub(crate) fn sort_runs(runs: &[FreeExtent]) -> (out: Vec<FreeExtent>)
    ensures
        out@ == in_order(runs@),
{
    let mut out: Vec<FreeExtent> = Vec::new();
    let mut i: usize = 0;
    assert(out@ =~= in_order(runs@.take(0)));
    while i < runs.len()
        invariant
            i <= runs@.len(),
            out@ == in_order(runs@.take(i as int)),
        decreases runs@.len() - i,
    {
        let run = runs[i];
        assert(runs@.take(i + 1).drop_last() =~= runs@.take(i as int));
        assert(runs@.take(i + 1).last() == run);
        let mut at: usize = out.len();
        assert(out@.take(at as int) =~= out@);
        while at > 0 && !(out[at - 1].start < run.start || (out[at - 1].start == run.start
            && out[at - 1].len <= run.len))
            invariant
                at <= out@.len(),
                run_place(out@, run) == run_place(out@.take(at as int), run),
            decreases at,
        {
            at = at - 1;
            assert(out@.take(at + 1).drop_last() =~= out@.take(at as int));
        }
        out.insert(at, run);
        i = i + 1;
    }
    assert(runs@.take(runs@.len() as int) =~= runs@);
    out
}

/// Putting runs in order neither loses nor adds any address.
pub proof fn lemma_in_order_keeps(list: Seq<FreeExtent>, address: u64)
    ensures
        in_runs(in_order(list), address) == in_runs(list, address),
    decreases list.len(),
{
    if list.len() > 0 {
        let front = list.drop_last();
        let run = list.last();
        lemma_in_order_keeps(front, address);
        let out = in_order(front);
        let at = run_place(out, run);
        lemma_run_place(out, run);
        let all = out.insert(at, run);
        assert(front.push(run) =~= list);
        lemma_in_pushed(front, run, address);
        if in_runs(out, address) {
            let i = choose|i: int| 0 <= i < out.len() && in_run(#[trigger] out[i], address);
            if i < at {
                assert(in_run(all[i], address));
            } else {
                assert(in_run(all[i + 1], address));
            }
        }
        if in_run(run, address) {
            assert(in_run(all[at], address));
        }
        if in_runs(all, address) {
            let i = choose|i: int| 0 <= i < all.len() && in_run(#[trigger] all[i], address);
            if i < at {
                assert(in_run(out[i], address));
            } else if i > at {
                assert(in_run(out[i - 1], address));
            }
        }
    } else {
        assert(in_order(list) =~= list);
    }
}

proof fn lemma_run_place(runs: Seq<FreeExtent>, run: FreeExtent)
    ensures
        0 <= run_place(runs, run) <= runs.len(),
    decreases runs.len(),
{
    if runs.len() > 0 && !not_after(runs.last(), run) {
        lemma_run_place(runs.drop_last(), run);
    }
}

/// Whether starts do not descend.
pub open spec fn starts_ascend(runs: Seq<FreeExtent>) -> bool {
    forall|i: int, j: int| 0 <= i < j < runs.len() ==> (#[trigger] runs[i]).start <= (
    #[trigger] runs[j]).start
}

proof fn lemma_start_place(runs: Seq<FreeExtent>, start: u64)
    ensures
        0 <= start_place(runs, start) <= runs.len(),
        start_place(runs, start) > 0 ==> runs[start_place(runs, start) - 1].start <= start,
        forall|i: int|
            start_place(runs, start) <= i < runs.len() ==> start < (#[trigger] runs[i]).start,
    decreases runs.len(),
{
    if runs.len() > 0 && runs.last().start > start {
        let front = runs.drop_last();
        lemma_start_place(front, start);
        assert forall|i: int| start_place(runs, start) <= i < runs.len() implies start < (
        #[trigger] runs[i]).start by {
            if i < front.len() {
                assert(front[i] == runs[i]);
            }
        }
    }
}

/// Sorting puts runs in the order of their starts, and neither loses nor adds
/// any.
pub proof fn law_sorting_orders_runs(runs: Seq<FreeExtent>)
    ensures
        starts_ascend(by_start(runs)),
        by_start(runs).to_multiset() == runs.to_multiset(),
    decreases runs.len(),
{
    broadcast use vstd::seq_lib::group_to_multiset_ensures;

    if runs.len() > 0 {
        let front = runs.drop_last();
        law_sorting_orders_runs(front);
        let out = by_start(front);
        let run = runs.last();
        let at = start_place(out, run.start);
        lemma_start_place(out, run.start);
        let all = out.insert(at, run);
        assert forall|i: int, j: int| 0 <= i < j < all.len() implies (#[trigger] all[i]).start <= (
        #[trigger] all[j]).start by {
            if i < at && j == at {
                assert(out[i].start <= out[at - 1].start);
            }
        }
        assert(front.push(run) =~= runs);
    }
}

/// What is left between `taken ..` from position `k` on, when everything
/// before `pos` is seen to; `free` holds what was found so far.
pub open spec fn gaps_from(
    group: BlockGroup,
    taken: Seq<FreeExtent>,
    k: int,
    pos: u64,
    free: Seq<FreeExtent>,
) -> std::result::Result<Seq<FreeExtent>, ErrorView>
    decreases taken.len() - k,
{
    let end = reach(group.start, group.length);
    if k < 0 || k >= taken.len() {
        Ok(
            if pos < end {
                free.push(FreeExtent { start: pos, len: (end - pos) as u64 })
            } else {
                free
            },
        )
    } else {
        let e = taken[k];
        if e.start < pos {
            Err(
                ErrorView::UnsupportedFeature(
                    "the extent tree has an allocated run at "@ + text::dec(e.start as nat)
                        + " that overlaps the one ending at "@ + text::dec(pos as nat)
                        + ", in the block group at "@ + text::dec(group.start as nat),
                ),
            )
        } else {
            gaps_from(
                group,
                taken,
                k + 1,
                reach(e.start, e.len),
                if e.start > pos {
                    free.push(FreeExtent { start: pos, len: (e.start - pos) as u64 })
                } else {
                    free
                },
            )
        }
    }
}

/// The runs of `group` not covered by anything in `taken`.
pub open spec fn gaps_of(group: BlockGroup, taken: Seq<FreeExtent>) -> std::result::Result<
    Seq<FreeExtent>,
    ErrorView,
> {
    gaps_from(group, taken, 0, group.start, Seq::empty())
}

/// The runs of `group` not covered by anything in `taken`, which must be
/// sorted.
///
/// Two items claiming the same bytes is corruption, and is reported rather
/// than smoothed over.
pub fn gaps(group: &BlockGroup, taken: &[FreeExtent]) -> (r: Result<Vec<FreeExtent>>)
    ensures
        crate::error::viewed(r) == gaps_of(*group, taken@),
{
    let mut free: Vec<FreeExtent> = Vec::new();
    assert(free@ =~= Seq::<FreeExtent>::empty());
    let mut pos: u64 = group.start;
    let mut i: usize = 0;
    while i < taken.len()
        invariant
            i <= taken@.len(),
            gaps_of(*group, taken@) == gaps_from(*group, taken@, i as int, pos, free@),
        decreases taken@.len() - i,
    {
        let e = taken[i];
        if e.start < pos {
            return Err(
                Error::UnsupportedFeature(
                    cat6(
                        Lit("the extent tree has an allocated run at "),
                        Dec(e.start),
                        Lit(" that overlaps the one ending at "),
                        Dec(pos),
                        Lit(", in the block group at "),
                        Dec(group.start),
                    ),
                ),
            );
        }
        if e.start > pos {
            free.push(FreeExtent { start: pos, len: e.start - pos });
        }
        pos = reached(e.start, e.len);
        i = i + 1;
    }
    let end: u64 = reached(group.start, group.length);
    if pos < end {
        free.push(FreeExtent { start: pos, len: end - pos });
    }
    Ok(free)
}

/// Whether runs are non-empty, stand in address order and do not reach into
/// each other.
pub open spec fn apart(runs: Seq<FreeExtent>) -> bool {
    &&& forall|i: int| 0 <= i < runs.len() ==> (#[trigger] runs[i]).len > 0
    &&& forall|i: int, j: int|
        0 <= i < j < runs.len() ==> (#[trigger] runs[i]).start + runs[i].len <= (
        #[trigger] runs[j]).start
}

proof fn lemma_gaps(
    group: BlockGroup,
    taken: Seq<FreeExtent>,
    k: int,
    pos: u64,
    free: Seq<FreeExtent>,
)
    requires
        0 <= k <= taken.len(),
        group.start <= pos,
        starts_ascend(taken),
        forall|i: int|
            0 <= i < taken.len() ==> group.start <= (#[trigger] taken[i]).start <= reach(
                group.start,
                group.length,
            ),
        apart(free),
        free.len() > 0 ==> free.last().start + free.last().len <= pos,
        forall|i: int|
            0 <= i < free.len() ==> group.start <= (#[trigger] free[i]).start && free[i].start
                + free[i].len <= reach(group.start, group.length),
        forall|a: u64|
            group.start <= a < pos ==> (in_runs(free, a) != #[trigger] in_runs(
                taken.take(k),
                a,
            )) || a >= reach(group.start, group.length),
        forall|i: int| 0 <= i < k ==> reach((#[trigger] taken[i]).start, taken[i].len) <= pos,
    ensures
        gaps_from(group, taken, k, pos, free) matches Ok(all) ==> {
            &&& apart(all)
            &&& forall|i: int|
                0 <= i < all.len() ==> group.start <= (#[trigger] all[i]).start && all[i].start
                    + all[i].len <= reach(group.start, group.length)
            &&& forall|a: u64|
                group.start <= a < reach(group.start, group.length) ==> (in_runs(all, a)
                    != #[trigger] in_runs(taken, a))
        },
    decreases taken.len() - k,
{
    let end = reach(group.start, group.length);
    if k >= taken.len() {
        assert(taken.take(k) =~= taken);
        if let Ok(all) = gaps_from(group, taken, k, pos, free) {
            let tail = FreeExtent { start: pos, len: (end - pos) as u64 };
            assert forall|a: u64| group.start <= a < end implies in_runs(all, a)
                != #[trigger] in_runs(taken, a) by {
                if pos < end {
                    lemma_in_pushed(free, tail, a);
                }
                if a >= pos {
                    lemma_not_before(taken, pos, a);
                    lemma_not_in(free, pos, a);
                }
            }
        }
    } else {
        let e = taken[k];
        if e.start >= pos {
            let next = reach(e.start, e.len);
            let gap = FreeExtent { start: pos, len: (e.start - pos) as u64 };
            let free2 = if e.start > pos {
                free.push(gap)
            } else {
                free
            };
            assert(taken.take(k + 1) =~= taken.take(k).push(e));
            assert(next >= e.start);
            assert forall|a: u64| group.start <= a < next implies (in_runs(free2, a)
                != #[trigger] in_runs(taken.take(k + 1), a)) || a >= end by {
                lemma_in_pushed(taken.take(k), e, a);
                if e.start > pos {
                    lemma_in_pushed(free, gap, a);
                }
                if a >= pos {
                    lemma_not_in(free, pos, a);
                    assert forall|i: int| 0 <= i < k implies reach(
                        (#[trigger] taken.take(k)[i]).start,
                        taken.take(k)[i].len,
                    ) <= pos by {
                        assert(taken.take(k)[i] == taken[i]);
                    }
                    lemma_not_before(taken.take(k), pos, a);
                } else {
                    assert(in_runs(free, a) != in_runs(taken.take(k), a) || a >= end);
                }
            }
            lemma_gaps(group, taken, k + 1, next, free2);
        }
    }
}

proof fn lemma_not_before(runs: Seq<FreeExtent>, pos: u64, a: u64)
    requires
        forall|i: int|
            0 <= i < runs.len() ==> reach((#[trigger] runs[i]).start, runs[i].len) <= pos,
        a >= pos,
    ensures
        !in_runs(runs, a),
{
}

proof fn lemma_not_in(free: Seq<FreeExtent>, pos: u64, a: u64)
    requires
        apart(free),
        free.len() > 0 ==> free.last().start + free.last().len <= pos,
        a >= pos,
    ensures
        !in_runs(free, a),
{
    assert forall|i: int| 0 <= i < free.len() implies !in_run(#[trigger] free[i], a) by {
        if i < free.len() - 1 {
            assert(free[i].start + free[i].len <= free[free.len() - 1].start);
        }
    }
}

/// What is free in a group is exactly what is not taken: every address of the
/// group lies in a free run or in a taken one, and in no two of the free
/// runs. The free runs lie inside the group, in address order.
pub proof fn law_free_is_what_is_not_taken(group: BlockGroup, taken: Seq<FreeExtent>)
    requires
        starts_ascend(taken),
        forall|i: int|
            0 <= i < taken.len() ==> group.start <= (#[trigger] taken[i]).start <= reach(
                group.start,
                group.length,
            ),
    ensures
        gaps_of(group, taken) matches Ok(free) ==> {
            &&& apart(free)
            &&& forall|i: int|
                0 <= i < free.len() ==> group.start <= (#[trigger] free[i]).start && free[i].start
                    + free[i].len <= reach(group.start, group.length)
            &&& forall|a: u64|
                group.start <= a < reach(group.start, group.length) ==> (in_runs(free, a)
                    != #[trigger] in_runs(taken, a))
        },
{
    assert(taken.take(0) =~= Seq::<FreeExtent>::empty());
    lemma_gaps(group, taken, 0, group.start, Seq::empty());
}

/// The bytes of the runs from position `k` on, added up.
pub open spec fn total(list: Seq<FreeExtent>, k: int) -> nat
    decreases list.len() - k,
{
    if k < 0 || k >= list.len() {
        0
    } else {
        list[k].len as nat + total(list, k + 1)
    }
}

proof fn lemma_total_push(list: Seq<FreeExtent>, run: FreeExtent, k: int)
    requires
        0 <= k <= list.len(),
    ensures
        total(list.push(run), k) == total(list, k) + run.len,
    decreases list.len() - k,
{
    let more = list.push(run);
    if k < list.len() {
        lemma_total_push(list, run, k + 1);
        assert(more[k] == list[k]);
    } else {
        assert(more[k] == run);
        assert(total(more, k + 1) == 0);
    }
}

proof fn lemma_gaps_total(
    group: BlockGroup,
    taken: Seq<FreeExtent>,
    k: int,
    pos: u64,
    free: Seq<FreeExtent>,
)
    requires
        group.start + group.length <= u64::MAX,
        0 <= k <= taken.len(),
        pos <= group.start + group.length,
        forall|i: int|
            0 <= i < taken.len() ==> (#[trigger] taken[i]).start + taken[i].len <= group.start
                + group.length,
    ensures
        gaps_from(group, taken, k, pos, free) matches Ok(all) ==> total(all, 0) + total(taken, k)
            == total(free, 0) + (group.start + group.length - pos),
    decreases taken.len() - k,
{
    let end = group.start + group.length;
    if k < taken.len() {
        let e = taken[k];
        if e.start >= pos {
            let gap = FreeExtent { start: pos, len: (e.start - pos) as u64 };
            if e.start > pos {
                lemma_total_push(free, gap, 0);
                lemma_gaps_total(group, taken, k + 1, reach(e.start, e.len), free.push(gap));
            } else {
                lemma_gaps_total(group, taken, k + 1, reach(e.start, e.len), free);
            }
        }
    } else if pos < end {
        lemma_total_push(free, FreeExtent { start: pos, len: (end - pos) as u64 }, 0);
    }
}

/// What is free in a group and what is taken in it add up to the group; so
/// where the group accounts for what is taken, the free runs sum to what it
/// says is free.
pub proof fn law_free_and_taken_add_up(group: BlockGroup, taken: Seq<FreeExtent>)
    requires
        group.start + group.length <= u64::MAX,
        forall|i: int|
            0 <= i < taken.len() ==> (#[trigger] taken[i]).start + taken[i].len <= group.start
                + group.length,
    ensures
        gaps_of(group, taken) matches Ok(free) ==> {
            &&& total(free, 0) + total(taken, 0) == group.length
            &&& group.used == total(taken, 0) ==> total(free, 0) == group.unused()
        },
{
    lemma_gaps_total(group, taken, 0, group.start, Seq::empty());
}

} // verus!
