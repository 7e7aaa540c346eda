//! The virtual processor's chain bookkeeping: when the selected chain
//! changes, the blocks of the old chain above the fork are reverted, tip
//! first, and the blocks of the new chain above the fork are applied, oldest
//! first.

use crate::ghostdag::select_parent;
use crate::ghostdag::selected_index;
use crate::ghostdag::ParentInfo;
use crate::types::BlockHash;
use vstd::prelude::*;

verus! {

/// The path from one selected chain to another.
#[derive(Clone, Debug, PartialEq, Eq)]
pub struct ChainPath {
    /// The blocks to revert, from the old tip down to the fork.
    pub removed: Vec<BlockHash>,
    /// The blocks to apply, from the fork up to the new tip.
    pub added: Vec<BlockHash>,
}

/// `p` is the length of the longest common prefix of `a` and `b`.
pub open spec fn is_fork_point(a: Seq<BlockHash>, b: Seq<BlockHash>, p: int) -> bool {
    &&& 0 <= p <= a.len()
    &&& p <= b.len()
    &&& forall|i: int| 0 <= i < p ==> a[i] == b[i]
    &&& (p == a.len() || p == b.len() || a[p] != b[p])
}

/// Two fork points of the same chains are the same.
pub proof fn lemma_fork_point_unique(a: Seq<BlockHash>, b: Seq<BlockHash>, p: int, q: int)
    requires
        is_fork_point(a, b, p),
        is_fork_point(a, b, q),
    ensures
        p == q,
{
}

/// The number of leading blocks that the two chains share.
pub fn fork_point(old_chain: &Vec<BlockHash>, new_chain: &Vec<BlockHash>) -> (p: usize)
    ensures
        is_fork_point(old_chain@, new_chain@, p as int),
{
    let mut p: usize = 0;
    while p < old_chain.len() && p < new_chain.len() && old_chain[p] == new_chain[p]
        invariant
            p <= old_chain.len(),
            p <= new_chain.len(),
            forall|i: int| 0 <= i < p ==> old_chain@[i] == new_chain@[i],
        decreases old_chain.len() - p,
    {
        p += 1;
    }
    p
}

/// The path from `old_chain` to `new_chain`, both given from the oldest
/// block to the tip: what lies above the fork in the old chain is removed,
/// tip first; what lies above it in the new chain is added, oldest first.
/// Where the new chain extends the old one nothing is removed.
pub fn chain_path(old_chain: &Vec<BlockHash>, new_chain: &Vec<BlockHash>) -> (path: ChainPath)
    ensures
        exists|p: int|
            is_fork_point(old_chain@, new_chain@, p) && path.removed@ == old_chain@.skip(
                p,
            ).reverse() && path.added@ == new_chain@.skip(p),
{
    let p = fork_point(old_chain, new_chain);
    let mut removed: Vec<BlockHash> = Vec::new();
    let mut i: usize = old_chain.len();
    while i > p
        invariant
            p <= i <= old_chain.len(),
            removed@.len() == old_chain.len() - i,
            forall|j: int|
                0 <= j < removed@.len() ==> removed@[j] == old_chain@[old_chain.len() - 1 - j],
        decreases i,
    {
        i -= 1;
        removed.push(old_chain[i]);
    }
    let mut added: Vec<BlockHash> = Vec::new();
    let mut k: usize = p;
    while k < new_chain.len()
        invariant
            p <= k <= new_chain.len(),
            added@.len() == k - p,
            forall|j: int| 0 <= j < added@.len() ==> added@[j] == new_chain@[p + j],
        decreases new_chain.len() - k,
    {
        added.push(new_chain[k]);
        k += 1;
    }
    proof {
        assert(removed@ =~= old_chain@.skip(p as int).reverse());
        assert(added@ =~= new_chain@.skip(p as int));
    }
    ChainPath { removed, added }
}

/// The virtual selected tip: of the tips of the DAG the one with the most
/// blue work, the greater hash deciding between equals; `None` where there
/// is no tip.
pub fn selected_tip(tips: &Vec<ParentInfo>) -> (tip: Option<BlockHash>)
    ensures
        tips@.len() == 0 ==> tip is None,
        tips@.len() > 0 ==> tip == Some(tips@[selected_index(tips@)].hash),
{
    if tips.len() == 0 {
        None
    } else {
        Some(tips[select_parent(tips)].hash)
    }
}

} // verus!
