//! The body processor's checks: a body is accepted where it matches the
//! header's commitment, every transaction is well formed, and the number of
//! transactions and their aggregate mass stay within the configured limits.

use crate::types::BlockHash;
use vstd::prelude::*;

verus! {

/// What the body processor reads of a transaction.
#[derive(Clone, Copy, Debug, PartialEq, Eq, Structural)]
pub struct TxSummary {
    pub mass: u64,
    /// The outcome of the structural check of the transaction in isolation.
    pub well_formed: bool,
}

/// The configured limits of a body.
#[derive(Clone, Copy, Debug, PartialEq, Eq, Structural)]
pub struct BodyLimits {
    pub max_transactions: u64,
    pub max_mass: u64,
}

/// What an accepted body adds to the counters.
#[derive(Clone, Copy, Debug, PartialEq, Eq, Structural)]
pub struct BodySummary {
    pub transactions: u64,
    pub mass: u64,
}

/// Why a body was rejected.
#[derive(Clone, Copy, Debug, PartialEq, Eq, Structural)]
pub enum BodyError {
    /// The body's hash is not the one that the header commits to.
    CommitmentMismatch,
    /// The body holds more transactions than allowed.
    TooManyTransactions,
    /// The transaction at this index is not well formed.
    MalformedTransaction { index: usize },
    /// The aggregate mass is above the limit.
    MassLimitExceeded,
}

/// The aggregate mass of the transactions.
pub open spec fn total_mass(txs: Seq<TxSummary>) -> nat
    decreases txs.len(),
{
    if txs.len() == 0 {
        0
    } else {
        total_mass(txs.drop_last()) + (txs.last().mass as nat)
    }
}

/// The index of the first transaction that is not well formed, or the
/// number of transactions where all are.
pub open spec fn first_malformed(txs: Seq<TxSummary>) -> int
    decreases txs.len(),
{
    if txs.len() == 0 {
        0
    } else {
        let f = first_malformed(txs.drop_last());
        if f < txs.len() - 1 {
            f
        } else if txs.last().well_formed {
            txs.len() as int
        } else {
            txs.len() - 1
        }
    }
}

/// The verdict on a body.
pub open spec fn body_verdict(
    commitment: BlockHash,
    body_hash: BlockHash,
    txs: Seq<TxSummary>,
    limits: BodyLimits,
) -> Result<BodySummary, BodyError> {
    if commitment != body_hash {
        Err(BodyError::CommitmentMismatch)
    } else if txs.len() > limits.max_transactions {
        Err(BodyError::TooManyTransactions)
    } else if first_malformed(txs) < txs.len() {
        Err(BodyError::MalformedTransaction { index: first_malformed(txs) as usize })
    } else if total_mass(txs) > limits.max_mass {
        Err(BodyError::MassLimitExceeded)
    } else {
        Ok(BodySummary { transactions: txs.len() as u64, mass: total_mass(txs) as u64 })
    }
}

/// The mass of a prefix is at most the mass of the whole.
pub proof fn lemma_mass_of_prefix(txs: Seq<TxSummary>, n: int)
    requires
        0 <= n <= txs.len(),
    ensures
        total_mass(txs.take(n)) <= total_mass(txs),
    decreases txs.len() - n,
{
    if n < txs.len() {
        lemma_mass_of_prefix(txs, n + 1);
        assert(txs.take(n + 1).drop_last() == txs.take(n));
    } else {
        assert(txs.take(n) == txs);
    }
}

/// Validates a body against the header's commitment and the limits.
pub fn validate_body(
    commitment: BlockHash,
    body_hash: BlockHash,
    txs: &Vec<TxSummary>,
    limits: BodyLimits,
) -> (r: Result<BodySummary, BodyError>)
    ensures
        r == body_verdict(commitment, body_hash, txs@, limits),
{
    if commitment != body_hash {
        return Err(BodyError::CommitmentMismatch);
    }
    if txs.len() as u64 > limits.max_transactions {
        return Err(BodyError::TooManyTransactions);
    }
    let mut i: usize = 0;
    while i < txs.len()
        invariant
            i <= txs.len(),
            commitment == body_hash,
            txs@.len() <= limits.max_transactions,
            first_malformed(txs@.take(i as int)) == i,
        decreases txs.len() - i,
    {
        proof {
            assert(txs@.take(i + 1).drop_last() == txs@.take(i as int));
        }
        if !txs[i].well_formed {
            proof {
                lemma_first_malformed_of_prefix(txs@, i + 1);
            }
            return Err(BodyError::MalformedTransaction { index: i });
        }
        i += 1;
    }
    assert(txs@.take(i as int) == txs@);
    let mut mass: u64 = 0;
    let mut j: usize = 0;
    while j < txs.len()
        invariant
            j <= txs.len(),
            commitment == body_hash,
            txs@.len() <= limits.max_transactions,
            first_malformed(txs@) == txs@.len(),
            mass == total_mass(txs@.take(j as int)),
            mass <= limits.max_mass,
        decreases txs.len() - j,
    {
        proof {
            assert(txs@.take(j + 1).drop_last() == txs@.take(j as int));
            lemma_mass_of_prefix(txs@, j + 1);
        }
        if txs[j].mass > limits.max_mass - mass {
            return Err(BodyError::MassLimitExceeded);
        }
        mass = mass + txs[j].mass;
        j += 1;
    }
    assert(txs@.take(j as int) == txs@);
    Ok(BodySummary { transactions: txs.len() as u64, mass })
}

/// A malformed transaction found in a prefix is the first of the whole.
pub proof fn lemma_first_malformed_of_prefix(txs: Seq<TxSummary>, n: int)
    requires
        0 <= n <= txs.len(),
        first_malformed(txs.take(n)) < n,
    ensures
        first_malformed(txs) == first_malformed(txs.take(n)),
    decreases txs.len() - n,
{
    if n < txs.len() {
        assert(txs.take(n + 1).drop_last() == txs.take(n));
        lemma_first_malformed_of_prefix(txs, n + 1);
    } else {
        assert(txs.take(n) == txs);
    }
}

} // verus!
