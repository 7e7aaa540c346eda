//! The lifecycle state of a block.

use vstd::prelude::*;

verus! {

/// Where a block stands in the pipeline.
#[derive(Clone, Copy, Debug, PartialEq, Eq, Structural)]
pub enum BlockStatus {
    /// The block is invalid; this is permanent.
    StatusInvalid,
    /// The block is valid in every respect, its UTXO state included.
    StatusUTXOValid,
    /// The body was accepted; the block awaits verification against the
    /// UTXO set of its past.
    StatusUTXOPendingVerification,
    /// The block is stored but can never be a selected parent.
    StatusDisqualifiedFromChain,
    /// Only the header is held.
    StatusHeaderOnly,
}

impl BlockStatus {
    /// Whether the block's UTXO state is valid or yet to be verified.
    pub fn is_utxo_valid_or_pending(self) -> (r: bool)
        ensures
            r == (self == BlockStatus::StatusUTXOValid || self
                == BlockStatus::StatusUTXOPendingVerification),
    {
        match self {
            BlockStatus::StatusUTXOValid | BlockStatus::StatusUTXOPendingVerification => true,
            _ => false,
        }
    }

    /// Whether the block's body is held.
    pub fn has_block_body(self) -> (r: bool)
        ensures
            r == (self == BlockStatus::StatusUTXOValid || self
                == BlockStatus::StatusUTXOPendingVerification || self
                == BlockStatus::StatusDisqualifiedFromChain),
    {
        match self {
            BlockStatus::StatusUTXOValid
            | BlockStatus::StatusUTXOPendingVerification
            | BlockStatus::StatusDisqualifiedFromChain => true,
            _ => false,
        }
    }

    /// Whether the block is not invalid.
    pub fn is_valid(self) -> (r: bool)
        ensures
            r == (self != BlockStatus::StatusInvalid),
    {
        match self {
            BlockStatus::StatusInvalid => false,
            _ => true,
        }
    }

    /// The moves that the lifecycle allows: from header-only to invalid or
    /// to pending verification; from pending verification to valid or to
    /// disqualified; and from valid back to pending verification, when the
    /// selected chain changes. Invalid and disqualified are final.
    pub open spec fn allows(self, next: BlockStatus) -> bool {
        match self {
            BlockStatus::StatusHeaderOnly => next == BlockStatus::StatusInvalid || next
                == BlockStatus::StatusUTXOPendingVerification,
            BlockStatus::StatusUTXOPendingVerification => next == BlockStatus::StatusUTXOValid
                || next == BlockStatus::StatusDisqualifiedFromChain,
            BlockStatus::StatusUTXOValid => next == BlockStatus::StatusUTXOPendingVerification,
            _ => false,
        }
    }

    /// Whether the lifecycle allows the move from `self` to `next`.
    pub fn can_become(self, next: BlockStatus) -> (r: bool)
        ensures
            r == self.allows(next),
    {
        match (self, next) {
            (BlockStatus::StatusHeaderOnly, BlockStatus::StatusInvalid) => true,
            (BlockStatus::StatusHeaderOnly, BlockStatus::StatusUTXOPendingVerification) => true,
            (BlockStatus::StatusUTXOPendingVerification, BlockStatus::StatusUTXOValid) => true,
            (
                BlockStatus::StatusUTXOPendingVerification,
                BlockStatus::StatusDisqualifiedFromChain,
            ) => true,
            (BlockStatus::StatusUTXOValid, BlockStatus::StatusUTXOPendingVerification) => true,
            _ => false,
        }
    }

    /// Moves to `next` where the lifecycle allows it, and stays otherwise.
    /// Returns whether it moved.
    pub fn advance(&mut self, next: BlockStatus) -> (moved: bool)
        ensures
            moved == old(self).allows(next),
            moved ==> *final(self) == next,
            !moved ==> *final(self) == *old(self),
    {
        if self.can_become(next) {
            *self = next;
            true
        } else {
            false
        }
    }
}

/// Whether every status is UTXO-valid or pending verification.
pub fn all_utxo_valid_or_pending(statuses: &Vec<BlockStatus>) -> (r: bool)
    ensures
        r == forall|i: int|
            0 <= i < statuses@.len() ==> (#[trigger] statuses@[i]) == BlockStatus::StatusUTXOValid
                || statuses@[i] == BlockStatus::StatusUTXOPendingVerification,
{
    let mut i: usize = 0;
    while i < statuses.len()
        invariant
            i <= statuses.len(),
            forall|j: int|
                0 <= j < i ==> (#[trigger] statuses@[j]) == BlockStatus::StatusUTXOValid
                    || statuses@[j] == BlockStatus::StatusUTXOPendingVerification,
        decreases statuses.len() - i,
    {
        if !statuses[i].is_utxo_valid_or_pending() {
            return false;
        }
        i += 1;
    }
    true
}

/// Whether some status is UTXO-valid.
pub fn any_utxo_valid(statuses: &Vec<BlockStatus>) -> (r: bool)
    ensures
        r == exists|i: int|
            0 <= i < statuses@.len() && (#[trigger] statuses@[i]) == BlockStatus::StatusUTXOValid,
{
    let mut i: usize = 0;
    while i < statuses.len()
        invariant
            i <= statuses.len(),
            forall|j: int| 0 <= j < i ==> (#[trigger] statuses@[j]) != BlockStatus::StatusUTXOValid,
        decreases statuses.len() - i,
    {
        if statuses[i] == BlockStatus::StatusUTXOValid {
            return true;
        }
        i += 1;
    }
    false
}

/// Invalid and disqualified are permanent: no move leads out of them.
pub proof fn lemma_terminal_statuses_are_permanent(next: BlockStatus)
    ensures
        !BlockStatus::StatusInvalid.allows(next),
        !BlockStatus::StatusDisqualifiedFromChain.allows(next),
{
}

} // verus!
