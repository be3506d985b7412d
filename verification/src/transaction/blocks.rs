//! Walking a tree block by block.

use std::collections::BTreeSet;

use vstd::prelude::*;

use crate::address_set;
use crate::btree;
use crate::btree::TreeBlock;
use crate::error::Result;
use crate::fs::Filesystem;
use crate::volume::VolumeModel;

verus! {

/// A block a walk came across: where it lies, what it holds, and the node
/// that points at it, if it is not a root.
pub struct Visit {
    pub at: u64,
    pub block: TreeBlock,
    pub parent: Option<u64>,
}

/// What a [`Visit`] holds.
#[verifier::ext_equal]
pub struct VisitModel {
    pub at: u64,
    pub bytes: Seq<u8>,
    pub parent: Option<u64>,
}

impl View for Visit {
    type V = VisitModel;

    open spec fn view(&self) -> VisitModel {
        VisitModel { at: self.at, bytes: self.block@, parent: self.parent }
    }
}

/// What a list of visits holds.
pub open spec fn visit_models(visits: Seq<Visit>) -> Seq<VisitModel> {
    visits.map_values(|v: Visit| v@)
}

/// The children of the block `b` at `at`, each with the block that points at
/// it.
pub open spec fn children_of(b: Seq<u8>, at: u64) -> Seq<(u64, Option<u64>)> {
    if btree::header_of(b).level == 0 {
        Seq::empty()
    } else {
        Seq::new(btree::node_ptrs(b).len(), |i: int| (btree::node_ptrs(b)[i].blockptr, Some(at)))
    }
}

/// The blocks a walk comes across that has `stack` still to look at, the last
/// of it first, and has seen `seen`. A block that will not read is passed
/// over.
#[verifier::opaque]
pub open spec fn visits_from(
    volume: VolumeModel,
    stack: Seq<(u64, Option<u64>)>,
    seen: Set<u64>,
) -> Seq<VisitModel>
    decreases seen.complement().len(), stack.len(),
{
    if stack.len() == 0 {
        Seq::empty()
    } else {
        let (at, parent) = stack.last();
        let rest = stack.drop_last();
        proof {
            address_set::lemma_one_less_outside(seen, at);
        }
        if at == 0 || seen.contains(at) {
            visits_from(volume, rest, seen)
        } else {
            match volume.block(at) {
                Err(_) => visits_from(volume, rest, seen.insert(at)),
                Ok(b) => seq![VisitModel { at, bytes: b, parent }] + visits_from(
                    volume,
                    rest + children_of(b, at),
                    seen.insert(at),
                ),
            }
        }
    }
}

/// The blocks of the tree rooted at `root`, in the order a walk meets them.
pub open spec fn visits_of(volume: VolumeModel, root: u64) -> Seq<VisitModel> {
    visits_from(volume, seq![(root, None)], Set::empty())
}

/// Whether every visited block is decoded and verified.
#[verifier::opaque]
pub open spec fn verified(visits: Seq<Visit>, volume: VolumeModel) -> bool {
    forall|i: int|
        0 <= i < visits.len() ==> (#[trigger] visits[i]).block.decoded() && btree::block_error(
            visits[i].block@,
            visits[i].at,
            volume.geometry(),
            btree::block_intact(visits[i].block@, volume.geometry()),
        ) is None
}

/// What a verified visit says of its block.
pub proof fn lemma_verified(visits: Seq<Visit>, volume: VolumeModel, i: int)
    requires
        verified(visits, volume),
        0 <= i < visits.len(),
    ensures
        visits[i].block.decoded(),
        btree::block_error(
            visits[i].block@,
            visits[i].at,
            volume.geometry(),
            btree::block_intact(visits[i].block@, volume.geometry()),
        ) is None,
{
    reveal(verified);
}

/// The walk takes the last of the stack off: it is passed over, does not
/// read, or is visited and its children put on.
pub(crate) proof fn lemma_step(volume: VolumeModel, stack: Seq<(u64, Option<u64>)>, seen: Set<u64>)
    requires
        stack.len() > 0,
    ensures
        ({
            let (at, parent) = stack.last();
            let rest = stack.drop_last();
            visits_from(volume, stack, seen) == if at == 0 || seen.contains(at) {
                visits_from(volume, rest, seen)
            } else if volume.block(at) is Err {
                visits_from(volume, rest, seen.insert(at))
            } else {
                seq![VisitModel { at, bytes: volume.block(at)->Ok_0, parent }] + visits_from(
                    volume,
                    rest + children_of(volume.block(at)->Ok_0, at),
                    seen.insert(at),
                )
            }
        }),
{
    reveal_with_fuel(visits_from, 1);
}

/// A walk that finds anything finds its root first.
pub proof fn lemma_first_visit(volume: VolumeModel, root: u64)
    ensures
        visits_of(volume, root).len() > 0 ==> visits_of(volume, root)[0].at == root,
{
    let stack: Seq<(u64, Option<u64>)> = seq![(root, None)];
    lemma_step(volume, stack, Set::empty());
    assert(stack.drop_last() =~= Seq::<(u64, Option<u64>)>::empty());
    lemma_done(volume, Set::empty());
    lemma_done(volume, Set::empty().insert(root));
}

/// With nothing left to look at, nothing is found.
pub(crate) proof fn lemma_done(volume: VolumeModel, seen: Set<u64>)
    ensures
        visits_from(volume, Seq::empty(), seen) == Seq::<VisitModel>::empty(),
{
    reveal_with_fuel(visits_from, 1);
}

impl<R: Fn(usize, u64, usize) -> Result<Vec<u8>>> Filesystem<R> {
    /// Read the block at `at`; if it reads, add it to `out` and its children
    /// to the stack.
    fn visit_block(
        &self,
        at: u64,
        parent: Option<u64>,
        stack: &mut Vec<(u64, Option<u64>)>,
        out: &mut Vec<Visit>,
    )
        requires
            self.ready(),
            verified(old(out)@, self@.volume),
        ensures
            verified(final(out)@, self@.volume),
            final(out)@.len() == old(out)@.len() ==> final(out)@ == old(out)@ && final(stack)@
                == old(stack)@,
            final(out)@.len() != old(out)@.len() ==> final(out)@.len() == old(out)@.len() + 1
                && final(out)@.drop_last() == old(out)@ && final(out)@.last().at == at,
            self.faithful() ==> match self@.volume.block(at) {
                Err(_) => final(out)@ == old(out)@ && final(stack)@ == old(stack)@,
                Ok(b) => {
                    &&& final(stack)@ == old(stack)@ + children_of(b, at)
                    &&& visit_models(final(out)@) == visit_models(old(out)@).push(
                        VisitModel { at, bytes: b, parent },
                    )
                },
            },
    {
        let block = match self.volume.read_tree_block(at) {
            Ok(block) => block,
            Err(_) => return,
        };
        let ghost b = block@;
        proof {
            btree::law_parsed_block_is_sound(
                b,
                at,
                self@.volume.geometry(),
                btree::block_intact(b, self@.volume.geometry()),
            );
        }
        if let Some(ptrs) = block.body.key_ptrs() {
            push_children(ptrs, at, stack);
        }
        let ghost before = out@;
        reveal(verified);
        assert(stack@ =~= old(stack)@ + children_of(b, at));
        out.push(Visit { at, block, parent });
        proof {
            assert(out@.drop_last() =~= before);
            assert(visit_models(out@) =~= visit_models(before).push(
                VisitModel { at, bytes: b, parent },
            ));
            assert forall|i: int| 0 <= i < out@.len() implies (
            #[trigger] out@[i]).block.decoded() && btree::block_error(
                out@[i].block@,
                out@[i].at,
                self@.volume.geometry(),
                btree::block_intact(out@[i].block@, self@.volume.geometry()),
            ) is None by {
                if i < before.len() {
                    assert(out@[i] == before[i]);
                }
            }
        }
    }

    /// Every block of the tree rooted at `root`, with the node that points at
    /// it.
    ///
    /// A block that will not read is skipped rather than fatal: a tree that
    /// cannot be fully walked is still one whose reachable part is worth
    /// knowing.
    pub fn for_each_tree_block(&self, root: u64) -> (out: Vec<Visit>)
        requires
            self.ready(),
        ensures
            self.faithful() ==> visit_models(out@) == visits_of(self@.volume, root),
            verified(out@, self@.volume),
            out@.len() > 0 ==> out@[0].at == root,
    {
        let mut stack: Vec<(u64, Option<u64>)> = Vec::new();
        stack.push((root, None));
        let mut seen: BTreeSet<u64> = BTreeSet::new();
        let mut out: Vec<Visit> = Vec::new();
        proof {
            reveal(verified);
            assert(stack@ =~= seq![(root, None::<u64>)]);
            assert(visit_models(out@) + visits_of(self@.volume, root) =~= visits_of(
                self@.volume,
                root,
            ));
        }
        while stack.len() > 0
            invariant
                self.ready(),
                verified(out@, self@.volume),
                out@.len() > 0 ==> out@[0].at == root,
                out@.len() == 0 ==> stack@.len() <= 1 && (stack@.len() == 1 ==> stack@[0].0
                    == root),
                self.faithful() ==> visits_of(self@.volume, root) == visit_models(out@)
                    + visits_from(self@.volume, stack@, seen@),
            decreases seen@.complement().len(), stack@.len(),
        {
            let ghost before = stack@;
            let ghost found = visit_models(out@);
            let (at, parent) = match stack.pop() {
                Some(top) => top,
                None => (0, None),
            };
            proof {
                address_set::lemma_one_less_outside(seen@, at);
                assert(stack@ =~= before.drop_last());
                lemma_step(self@.volume, before, seen@);
            }
            if at == 0 {
                continue;
            }
            let ghost known = seen@;
            if !seen.insert(at) {
                assert(seen@ =~= known);
                continue;
            }
            let ghost rest = stack@;
            self.visit_block(at, parent, &mut stack, &mut out);
            proof {
                if self.faithful() {
                    if let Ok(b) = self@.volume.block(at) {
                        let one = VisitModel { at, bytes: b, parent };
                        let more = visits_from(self@.volume, stack@, seen@);
                        assert(found + (seq![one] + more) =~= found.push(one) + more);
                    }
                }
            }
        }
        proof {
            lemma_done(self@.volume, seen@);
            assert(stack@ =~= Seq::<(u64, Option<u64>)>::empty());
            assert(visit_models(out@) + Seq::<VisitModel>::empty() =~= visit_models(out@));
        }
        out
    }
}

/// Put the children of the node at `at` on the stack.
fn push_children(ptrs: &[btree::KeyPtr], at: u64, stack: &mut Vec<(u64, Option<u64>)>)
    ensures
        final(stack)@ == old(stack)@ + Seq::new(
            ptrs@.len(),
            |i: int| (ptrs@[i].blockptr, Some(at)),
        ),
{
    let ghost start = stack@;
    let ghost more: Seq<(u64, Option<u64>)> = Seq::new(
        ptrs@.len(),
        |i: int| (ptrs@[i].blockptr, Some(at)),
    );
    let mut i: usize = 0;
    while i < ptrs.len()
        invariant
            i <= ptrs@.len(),
            more == Seq::new(ptrs@.len(), |i: int| (ptrs@[i].blockptr, Some(at))),
            stack@ == start + more.take(i as int),
        decreases ptrs@.len() - i,
    {
        stack.push((ptrs[i].blockptr, Some(at)));
        i = i + 1;
        assert(stack@ =~= start + more.take(i as int));
    }
    assert(more.take(i as int) =~= more);
}

} // verus!
