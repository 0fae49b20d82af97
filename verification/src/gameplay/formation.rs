//! Formation marching: the fleet moves as one shared offset applied to
//! every invader's home slot, bouncing off the bounds with its outermost
//! LIVE columns. Dead columns don't shrink the playfield, they widen the
//! march span.

use vstd::prelude::*;

use crate::gameplay::combat::contains_id;
use crate::gameplay::{lemma_filter_no_duplicates, Effect};
use crate::types::{GameView, SpaceInvadersGame};

verus! {

/// A block among `ids`.
pub open spec fn listed(ids: Seq<u64>) -> spec_fn(u64) -> bool {
    |b: u64| ids.contains(b)
}

/// A block that is neither eaten nor lost.
pub open spec fn standing(eaten: Seq<u64>, lost: Seq<u64>) -> spec_fn(u64) -> bool {
    |b: u64| !eaten.contains(b) && !lost.contains(b)
}

/// An eaten block that is not lost.
pub open spec fn chewed(eaten: Seq<u64>, lost: Seq<u64>) -> spec_fn(u64) -> bool {
    |b: u64| eaten.contains(b) && !lost.contains(b)
}

/// Marching invaders eat the barrier blocks they overlap (`eaten`); blocks
/// whose body is already gone (`lost`) are dropped without a trace. The
/// eaten blocks chip in the barriers' order.
pub open spec fn chomp(g: GameView, eaten: Seq<u64>, lost: Seq<u64>) -> (GameView, Seq<Effect>) {
    (
        GameView { barrier_blocks: g.barrier_blocks.filter(standing(eaten, lost)), ..g },
        g.barrier_blocks.filter(chewed(eaten, lost)).map_values(|b: u64| Effect::BlockChipped(b)),
    )
}

/// What chewing does, stated block by block: a block stands afterwards
/// exactly when it stood before and was neither eaten nor lost; a chip
/// effect shows exactly for the blocks that stood, were eaten and were not
/// lost; chewing shows nothing but chips and touches nothing but the
/// barriers; and barriers without repeats give each chewed block one chip.
pub proof fn lemma_chomp_laws(g: GameView, eaten: Seq<u64>, lost: Seq<u64>)
    ensures
        ({
            let r = chomp(g, eaten, lost);
            &&& r.0 == (GameView { barrier_blocks: r.0.barrier_blocks, ..g })
            &&& forall|b: u64|
                #[trigger] r.0.barrier_blocks.contains(b) <==> (g.barrier_blocks.contains(b) && !eaten.contains(b)
                    && !lost.contains(b))
            &&& forall|b: u64|
                #[trigger] r.1.contains(Effect::BlockChipped(b)) <==> (g.barrier_blocks.contains(b) && eaten.contains(b)
                    && !lost.contains(b))
            &&& forall|k: int| 0 <= k < r.1.len() ==> (#[trigger] r.1[k]) is BlockChipped
            &&& g.barrier_blocks.no_duplicates() ==> r.0.barrier_blocks.no_duplicates() && r.1.no_duplicates()
        }),
{
    broadcast use vstd::seq_lib::group_filter_ensures;

    let r = chomp(g, eaten, lost);
    let kept = g.barrier_blocks.filter(standing(eaten, lost));
    let chewn = g.barrier_blocks.filter(chewed(eaten, lost));
    assert forall|b: u64| #[trigger] kept.contains(b) <==> (g.barrier_blocks.contains(b) && !eaten.contains(b)
        && !lost.contains(b)) by {
        if kept.contains(b) {
            g.barrier_blocks.lemma_filter_contains_rev(standing(eaten, lost), b);
            let i = choose|i: int| 0 <= i < kept.len() && kept[i] == b;
            assert(standing(eaten, lost)(kept[i]));
        }
        if g.barrier_blocks.contains(b) && !eaten.contains(b) && !lost.contains(b) {
            let i = choose|i: int| 0 <= i < g.barrier_blocks.len() && g.barrier_blocks[i] == b;
            assert(standing(eaten, lost)(g.barrier_blocks[i]));
        }
    }
    assert forall|b: u64| #[trigger] chewn.contains(b) <==> (g.barrier_blocks.contains(b) && eaten.contains(b)
        && !lost.contains(b)) by {
        if chewn.contains(b) {
            g.barrier_blocks.lemma_filter_contains_rev(chewed(eaten, lost), b);
            let i = choose|i: int| 0 <= i < chewn.len() && chewn[i] == b;
            assert(chewed(eaten, lost)(chewn[i]));
        }
        if g.barrier_blocks.contains(b) && eaten.contains(b) && !lost.contains(b) {
            let i = choose|i: int| 0 <= i < g.barrier_blocks.len() && g.barrier_blocks[i] == b;
            assert(chewed(eaten, lost)(g.barrier_blocks[i]));
        }
    }
    assert forall|b: u64| #[trigger] r.1.contains(Effect::BlockChipped(b)) <==> chewn.contains(b) by {
        if r.1.contains(Effect::BlockChipped(b)) {
            let i = choose|i: int| 0 <= i < r.1.len() && r.1[i] == Effect::BlockChipped(b);
            assert(chewn[i] == b);
        }
        if chewn.contains(b) {
            let i = choose|i: int| 0 <= i < chewn.len() && chewn[i] == b;
            assert(r.1[i] == Effect::BlockChipped(b));
        }
    }
    if g.barrier_blocks.no_duplicates() {
        lemma_filter_no_duplicates(g.barrier_blocks, standing(eaten, lost));
        lemma_filter_no_duplicates(g.barrier_blocks, chewed(eaten, lost));
        assert forall|i: int, j: int| 0 <= i < r.1.len() && 0 <= j < r.1.len() && i != j implies r.1[i] != r.1[j] by {
            assert(chewn[i] != chewn[j]);
        }
    }
}

impl SpaceInvadersGame {
    /// The leftmost and rightmost columns that still hold an invader; none
    /// once the fleet is gone.
    pub fn live_column_span(&self) -> (span: Option<(usize, usize)>)
        ensures
            span is None <==> self.invaders@.len() == 0,
            span matches Some((lo, hi)) ==> {
                &&& exists|k: int| 0 <= k < self.invaders@.len() && #[trigger] self.invaders@[k].col == lo
                &&& exists|k: int| 0 <= k < self.invaders@.len() && #[trigger] self.invaders@[k].col == hi
                &&& forall|k: int|
                    0 <= k < self.invaders@.len() ==> lo <= #[trigger] self.invaders@[k].col <= hi
            },
    {
        if self.invaders.len() == 0 {
            return None;
        }
        let mut lo: usize = self.invaders[0].col;
        let mut hi: usize = self.invaders[0].col;
        let mut k: usize = 1;
        while k < self.invaders.len()
            invariant
                1 <= k <= self.invaders@.len(),
                exists|j: int| 0 <= j < k && #[trigger] self.invaders@[j].col == lo,
                exists|j: int| 0 <= j < k && #[trigger] self.invaders@[j].col == hi,
                forall|j: int| 0 <= j < k ==> lo <= #[trigger] self.invaders@[j].col <= hi,
            decreases self.invaders@.len() - k,
        {
            let c = self.invaders[k].col;
            if c < lo {
                lo = c;
            }
            if c > hi {
                hi = c;
            }
            k = k + 1;
        }
        Some((lo, hi))
    }

    /// Marching invaders destroy any barrier block they overlap: `eaten`
    /// names the blocks the low invaders overlap, `lost` the blocks whose
    /// body is gone (see `chomp`).
    pub fn chomp_barriers(&mut self, eaten: &[u64], lost: &[u64], effects: &mut Vec<Effect>)
        ensures
            final(self)@ == chomp(old(self)@, eaten@, lost@).0,
            final(effects)@ == old(effects)@ + chomp(old(self)@, eaten@, lost@).1,
            forall|b: u64|
                old(self).barrier_blocks@.contains(b) && eaten@.contains(b) && !lost@.contains(b) ==> {
                    &&& !final(self).barrier_blocks@.contains(b)
                    &&& final(effects)@.subrange(old(effects)@.len() as int, final(effects)@.len() as int).contains(
                        Effect::BlockChipped(b),
                    )
                },
    {
        proof {
            lemma_chomp_laws(self@, eaten@, lost@);
        }
        let ghost g = self@;
        let ghost keep = standing(eaten@, lost@);
        let ghost chew = chewed(eaten@, lost@);
        let mut kept: Vec<u64> = Vec::new();
        let mut chipped: Vec<u64> = Vec::new();
        let mut k: usize = 0;
        while k < self.barrier_blocks.len()
            invariant
                k <= self.barrier_blocks@.len(),
                self@ == g,
                keep == standing(eaten@, lost@),
                chew == chewed(eaten@, lost@),
                kept@ == g.barrier_blocks.take(k as int).filter(keep),
                chipped@ == g.barrier_blocks.take(k as int).filter(chew),
            decreases self.barrier_blocks@.len() - k,
        {
            proof {
                reveal(Seq::filter);
                assert(g.barrier_blocks.take(k + 1).drop_last() =~= g.barrier_blocks.take(k as int));
                assert(g.barrier_blocks.take(k + 1).last() == g.barrier_blocks[k as int]);
            }
            let block = self.barrier_blocks[k];
            let is_lost = contains_id(lost, block);
            let is_eaten = contains_id(eaten, block);
            if is_lost {
                assert(!keep(block) && !chew(block));
            } else if is_eaten {
                assert(!keep(block) && chew(block));
                chipped.push(block);
            } else {
                assert(keep(block) && !chew(block));
                kept.push(block);
            }
            k = k + 1;
        }
        assert(g.barrier_blocks.take(g.barrier_blocks.len() as int) =~= g.barrier_blocks);
        let ghost start = effects@;
        let mut m: usize = 0;
        while m < chipped.len()
            invariant
                m <= chipped@.len(),
                effects@ == start + chipped@.take(m as int).map_values(|b: u64| Effect::BlockChipped(b)),
            decreases chipped@.len() - m,
        {
            effects.push(Effect::BlockChipped(chipped[m]));
            proof {
                assert(chipped@.take(m + 1).map_values(|b: u64| Effect::BlockChipped(b)) =~= chipped@.take(
                    m as int,
                ).map_values(|b: u64| Effect::BlockChipped(b)).push(Effect::BlockChipped(chipped@[m as int])));
            }
            m = m + 1;
        }
        assert(chipped@.take(chipped@.len() as int) =~= chipped@);
        self.barrier_blocks = kept;
        assert(self@ =~= chomp(g, eaten@, lost@).0);
        assert(effects@.subrange(start.len() as int, effects@.len() as int) =~= chomp(g, eaten@, lost@).1);
    }
}

} // verus!
