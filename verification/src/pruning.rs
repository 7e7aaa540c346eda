//! Pruning-point bookkeeping: the pruning point only ever moves forward, and
//! it moves once the selected chain is deep enough above it.

use crate::types::BlockHash;
use vstd::prelude::*;

verus! {

/// The hash and blue score below which DAG data may be removed.
#[derive(Clone, Copy, Debug, PartialEq, Eq, Structural)]
pub struct PruningPointInfo {
    pub hash: BlockHash,
    pub blue_score: u64,
}

/// A block of the selected chain: its hash and blue score.
#[derive(Clone, Copy, Debug, PartialEq, Eq, Structural)]
pub struct ChainBlock {
    pub hash: BlockHash,
    pub blue_score: u64,
}

/// The depth at which the anticone of a chain block is final:
/// `finality_depth + merge_depth + 4 * mergeset_size_limit * k + 2 * k + 2`,
/// but never more than the pruning depth.
pub open spec fn anticone_finalization_depth_spec(
    finality_depth: u64,
    merge_depth: u64,
    mergeset_size_limit: u64,
    ghostdag_k: u16,
    pruning_depth: u64,
) -> int {
    let depth = finality_depth + merge_depth + 4 * mergeset_size_limit * ghostdag_k + 2
        * ghostdag_k + 2;
    if pruning_depth <= depth {
        pruning_depth as int
    } else {
        depth
    }
}

/// Computes `anticone_finalization_depth_spec`. The result fits in 64 bits
/// for every input, since it never exceeds `pruning_depth`.
pub fn anticone_finalization_depth(
    finality_depth: u64,
    merge_depth: u64,
    mergeset_size_limit: u64,
    ghostdag_k: u16,
    pruning_depth: u64,
) -> (depth: u64)
    ensures
        depth == anticone_finalization_depth_spec(
            finality_depth,
            merge_depth,
            mergeset_size_limit,
            ghostdag_k,
            pruning_depth,
        ),
        depth <= pruning_depth,
{
    let product: u128 = 4u128 * (mergeset_size_limit as u128);
    assert(product * (ghostdag_k as u128) <= 4 * 0xffff_ffff_ffff_ffff * 0xffff) by (nonlinear_arith)
        requires
            product <= 4 * 0xffff_ffff_ffff_ffff,
            ghostdag_k <= 0xffff,
    ;
    assert(4 * mergeset_size_limit * ghostdag_k == product * (ghostdag_k as u128))
        by (nonlinear_arith)
        requires
            product == 4 * mergeset_size_limit,
    ;
    let depth: u128 = (finality_depth as u128) + (merge_depth as u128) + product * (
    ghostdag_k as u128) + 2u128 * (ghostdag_k as u128) + 2u128;
    if (pruning_depth as u128) <= depth {
        pruning_depth
    } else {
        depth as u64
    }
}

impl PruningPointInfo {
    /// Moves the pruning point to `candidate` where that is a move forward:
    /// the candidate's blue score is strictly above the current one. Returns
    /// whether it moved. The blue score never decreases.
    pub fn advance(&mut self, candidate: ChainBlock) -> (moved: bool)
        ensures
            moved == (candidate.blue_score > old(self).blue_score),
            moved ==> final(self).hash == candidate.hash && final(self).blue_score
                == candidate.blue_score,
            !moved ==> *final(self) == *old(self),
            final(self).blue_score >= old(self).blue_score,
    {
        if candidate.blue_score > self.blue_score {
            self.hash = candidate.hash;
            self.blue_score = candidate.blue_score;
            true
        } else {
            false
        }
    }
}

/// The blue score of the pruning point after the candidates of `cs` were
/// offered one after the other.
pub open spec fn score_after(start: u64, cs: Seq<ChainBlock>) -> u64
    decreases cs.len(),
{
    if cs.len() == 0 {
        start
    } else {
        let s = score_after(start, cs.drop_last());
        if cs.last().blue_score > s {
            cs.last().blue_score
        } else {
            s
        }
    }
}

/// The index of the pruning candidate on `chain`: the last block that lies
/// at least `depth` below the tip in blue score, if there is one.
pub open spec fn candidate_index(chain: Seq<ChainBlock>, depth: u64) -> Option<int>
    decreases chain.len(),
{
    candidate_below(chain, chain.len() as int, depth)
}

/// The last index under `n` whose block lies at least `depth` below the tip.
pub open spec fn candidate_below(chain: Seq<ChainBlock>, n: int, depth: u64) -> Option<int>
    decreases n,
{
    if n <= 0 || n > chain.len() {
        None
    } else if chain[n - 1].blue_score + depth <= chain.last().blue_score {
        Some(n - 1)
    } else {
        candidate_below(chain, n - 1, depth)
    }
}

/// What the candidate index is: a block deep enough, with no later one that
/// is deep enough too.
pub proof fn lemma_candidate_below(chain: Seq<ChainBlock>, n: int, depth: u64)
    requires
        0 <= n <= chain.len(),
    ensures
        match candidate_below(chain, n, depth) {
            Some(i) => 0 <= i < n && chain[i].blue_score + depth <= chain.last().blue_score
                && forall|j: int|
                i < j < n ==> chain[j].blue_score + depth > chain.last().blue_score,
            None => forall|j: int|
                0 <= j < n ==> chain[j].blue_score + depth > chain.last().blue_score,
        },
    decreases n,
{
    if n > 0 && !(chain[n - 1].blue_score + depth <= chain.last().blue_score) {
        lemma_candidate_below(chain, n - 1, depth);
    }
}

/// `point` is a block of `chain` that stands before position `j`.
pub open spec fn on_chain_before(chain: Seq<ChainBlock>, point: PruningPointInfo, j: int) -> bool {
    exists|i: int|
        0 <= i < j && i < chain.len() && (#[trigger] chain[i]).hash == point.hash
            && chain[i].blue_score == point.blue_score
}

/// Whether `point` is a block of `chain` that stands before position `j`.
pub fn is_on_chain_before(chain: &Vec<ChainBlock>, point: PruningPointInfo, j: usize) -> (r: bool)
    ensures
        r == on_chain_before(chain@, point, j as int),
{
    let mut i: usize = 0;
    while i < j && i < chain.len()
        invariant
            forall|k: int|
                0 <= k < i && k < j && k < chain@.len() ==> !((#[trigger] chain@[k]).hash
                    == point.hash && chain@[k].blue_score == point.blue_score),
        decreases chain.len() - i,
    {
        if chain[i].hash == point.hash && chain[i].blue_score == point.blue_score {
            return true;
        }
        i += 1;
    }
    false
}

/// Offers the pruning point the block of the selected chain that lies
/// `depth` below the tip: the last block of `chain` (oldest first, tip last)
/// whose blue score is at least `depth` under the tip's. The pruning point
/// moves there if that is a move forward along the chain: the block has a
/// higher blue score, and the current pruning point is a block of the chain
/// that stands before it. Otherwise the pruning point stays. Returns whether
/// it moved.
pub fn update_pruning_point(
    current: &mut PruningPointInfo,
    chain: &Vec<ChainBlock>,
    depth: u64,
) -> (moved: bool)
    ensures
        final(current).blue_score >= old(current).blue_score,
        moved ==> final(current).blue_score + depth <= chain@.last().blue_score,
        match candidate_index(chain@, depth) {
            Some(i) => moved == (chain@[i].blue_score > old(current).blue_score
                && on_chain_before(chain@, *old(current), i)) && (moved ==> (
            *final(current)) == (PruningPointInfo {
                hash: chain@[i].hash,
                blue_score: chain@[i].blue_score,
            })),
            None => !moved,
        },
        !moved ==> *final(current) == *old(current),
{
    if chain.len() == 0 {
        return false;
    }
    let tip_score: u64 = chain[chain.len() - 1].blue_score;
    proof {
        lemma_candidate_below(chain@, chain@.len() as int, depth);
    }
    let mut n: usize = chain.len();
    while n > 0
        invariant
            n <= chain.len(),
            chain.len() > 0,
            tip_score == chain@.last().blue_score,
            *current == *old(current),
            candidate_index(chain@, depth) == candidate_below(chain@, n as int, depth),
        decreases n,
    {
        let score: u64 = chain[n - 1].blue_score;
        if score <= tip_score && tip_score - score >= depth {
            if score > current.blue_score && is_on_chain_before(chain, *current, n - 1) {
                return current.advance(chain[n - 1]);
            }
            return false;
        }
        n -= 1;
    }
    false
}

/// The pruning point never moves backward: whatever candidates are offered,
/// in whatever order, its blue score after them is at least what it was
/// before, and offering more candidates never lowers it.
pub proof fn lemma_pruning_point_monotone(start: u64, cs: Seq<ChainBlock>, n: int)
    requires
        0 <= n <= cs.len(),
    ensures
        start <= score_after(start, cs.take(n)) <= score_after(start, cs),
    decreases cs.len() - n,
{
    lemma_score_never_drops(start, cs.take(n));
    if n < cs.len() {
        lemma_pruning_point_monotone(start, cs, n + 1);
        assert(cs.take(n + 1).drop_last() == cs.take(n));
    } else {
        assert(cs.take(n) == cs);
    }
}

/// After any sequence of offers the blue score is at least the starting one.
pub proof fn lemma_score_never_drops(start: u64, cs: Seq<ChainBlock>)
    ensures
        start <= score_after(start, cs),
    decreases cs.len(),
{
    if cs.len() > 0 {
        lemma_score_never_drops(start, cs.drop_last());
    }
}

/// The pruning point after the candidates of `cs` were offered one after
/// the other: each candidate of strictly higher blue score takes its place.
pub open spec fn point_after(start: PruningPointInfo, cs: Seq<ChainBlock>) -> PruningPointInfo
    decreases cs.len(),
{
    if cs.len() == 0 {
        start
    } else {
        let p = point_after(start, cs.drop_last());
        if cs.last().blue_score > p.blue_score {
            PruningPointInfo { hash: cs.last().hash, blue_score: cs.last().blue_score }
        } else {
            p
        }
    }
}

/// The blue score of `point_after` is `score_after`.
pub proof fn lemma_point_after_score(start: PruningPointInfo, cs: Seq<ChainBlock>)
    ensures
        point_after(start, cs).blue_score == score_after(start.blue_score, cs),
    decreases cs.len(),
{
    if cs.len() > 0 {
        lemma_point_after_score(start, cs.drop_last());
    }
}

/// Offers the candidates of `cs` one after the other.
pub fn advance_through(current: &mut PruningPointInfo, cs: &Vec<ChainBlock>)
    ensures
        *final(current) == point_after(*old(current), cs@),
        final(current).blue_score == score_after(old(current).blue_score, cs@),
        final(current).blue_score >= old(current).blue_score,
{
    let mut i: usize = 0;
    while i < cs.len()
        invariant
            i <= cs.len(),
            *current == point_after(*old(current), cs@.take(i as int)),
        decreases cs.len() - i,
    {
        proof {
            assert(cs@.take(i + 1).drop_last() == cs@.take(i as int));
        }
        current.advance(cs[i]);
        i += 1;
    }
    proof {
        assert(cs@.take(i as int) == cs@);
        lemma_point_after_score(*old(current), cs@);
        lemma_score_never_drops(old(current).blue_score, cs@);
    }
}

} // verus!
