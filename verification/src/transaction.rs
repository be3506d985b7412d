//! Which blocks a change makes the filesystem rewrite.
//!
//! Copy-on-write means nothing is modified where it lies. Changing one byte
//! of one leaf means a new leaf somewhere else, a new node above it pointing
//! there, and so on to the root; then the root tree, which names that tree's
//! root and has therefore changed too.
//!
//! Rewriting a block means allocating one, allocating means recording it in
//! the extent tree, and the extent tree lives in blocks that must themselves
//! be allocated. It terminates because a copy-on-write rewrite is an
//! allocation and a release, so the extent tree ends up recording its own new
//! blocks rather than growing without bound.

use std::collections::BTreeSet;

use vstd::prelude::*;

pub mod blocks;
pub mod cache_laws;
pub mod free_space;
pub mod laws;
pub mod leaf_laws;
pub mod leaf_lists;
pub mod place_laws;
pub mod placements;
pub mod plan_laws;
pub mod planning;
pub mod record_laws;
pub mod relocation;
pub mod render;
pub mod root_laws;
pub mod space_laws;
pub mod whole_laws;

verus! {

/// One block moving from where it is to where it will be.
#[derive(Debug, Clone, Copy, PartialEq, Eq, Structural)]
pub struct Rewrite {
    /// Where it is now. Released once the transaction commits.
    pub old: u64,
    /// Where the new copy goes.
    pub new: u64,
    /// The tree it belongs to.
    pub owner: u64,
    /// Its height above the leaves.
    pub level: u8,
}

/// What a transaction will do.
#[derive(Debug, Clone)]
pub struct Plan {
    /// Every block that must be written. The order among them carries no
    /// meaning: a commit writes them all before its barrier.
    pub rewrites: Vec<Rewrite>,
}

impl View for Plan {
    type V = Seq<Rewrite>;

    open spec fn view(&self) -> Seq<Rewrite> {
        self.rewrites@
    }
}

/// The addresses a plan frees.
pub open spec fn olds(plan: Seq<Rewrite>) -> Seq<u64> {
    plan.map_values(|r: Rewrite| r.old)
}

/// The addresses a plan takes.
pub open spec fn news(plan: Seq<Rewrite>) -> Seq<u64> {
    plan.map_values(|r: Rewrite| r.new)
}

/// The trees a plan touches.
pub open spec fn owners(plan: Seq<Rewrite>) -> Set<u64> {
    Set::new(|o: u64| exists|i: int| 0 <= i < plan.len() && (#[trigger] plan[i]).owner == o)
}

impl Default for Plan {
    fn default() -> (plan: Self)
        ensures
            plan@ == Seq::<Rewrite>::empty(),
    {
        Plan { rewrites: Vec::new() }
    }
}

impl Plan {
    /// The addresses this frees.
    pub fn released(&self) -> (out: Vec<u64>)
        ensures
            out@ == olds(self@),
    {
        let mut out: Vec<u64> = Vec::new();
        let mut i: usize = 0;
        while i < self.rewrites.len()
            invariant
                i <= self@.len(),
                out@ == olds(self@).take(i as int),
            decreases self@.len() - i,
        {
            out.push(self.rewrites[i].old);
            i = i + 1;
            assert(out@ =~= olds(self@).take(i as int));
        }
        assert(out@ =~= olds(self@));
        out
    }

    /// The addresses this takes.
    pub fn allocated(&self) -> (out: Vec<u64>)
        ensures
            out@ == news(self@),
    {
        let mut out: Vec<u64> = Vec::new();
        let mut i: usize = 0;
        while i < self.rewrites.len()
            invariant
                i <= self@.len(),
                out@ == news(self@).take(i as int),
            decreases self@.len() - i,
        {
            out.push(self.rewrites[i].new);
            i = i + 1;
            assert(out@ =~= news(self@).take(i as int));
        }
        assert(out@ =~= news(self@));
        out
    }

    /// Which trees the transaction touches, in objectid order.
    pub fn trees(&self) -> (out: BTreeSet<u64>)
        ensures
            out@ == owners(self@),
    {
        let mut out: BTreeSet<u64> = BTreeSet::new();
        let mut i: usize = 0;
        assert(out@ =~= owners(self@.take(0)));
        while i < self.rewrites.len()
            invariant
                i <= self@.len(),
                out@ == owners(self@.take(i as int)),
            decreases self@.len() - i,
        {
            let ghost before = self@.take(i as int);
            let ghost after = self@.take(i + 1);
            let owner: u64 = self.rewrites[i].owner;
            out.insert(owner);
            proof {
                assert(after[i as int].owner == owner);
                assert forall|o: u64| owners(after).contains(o) == owners(before).insert(
                    owner,
                ).contains(o) by {
                    if owners(before).contains(o) {
                        let k = choose|k: int|
                            0 <= k < before.len() && (#[trigger] before[k]).owner == o;
                        assert(after[k].owner == o);
                    }
                    if owners(after).contains(o) {
                        let k = choose|k: int|
                            0 <= k < after.len() && (#[trigger] after[k]).owner == o;
                        if k < i {
                            assert(before[k].owner == o);
                        }
                    }
                }
                assert(owners(after) =~= owners(before).insert(owner));
            }
            i = i + 1;
        }
        assert(self@.take(self@.len() as int) =~= self@);
        out
    }

    /// How much `bytes_used` moves: zero for any plan that rewrites blocks
    /// without adding or removing any, one release for every allocation.
    pub fn usage_delta(&self, nodesize: u64) -> (delta: i128)
        ensures
            delta == (news(self@).len() - olds(self@).len()) * nodesize,
            delta == 0,
    {
        let taken: usize = self.allocated().len();
        let freed: usize = self.released().len();
        let blocks: i128 = taken as i128 - freed as i128;
        assert(blocks * nodesize == 0) by (nonlinear_arith)
            requires
                blocks == 0,
        ;
        blocks * nodesize as i128
    }
}

} // verus!
