//! The stages in order: a header is accepted and its block waits for its
//! parents; a block whose parents are ready has its body judged; an accepted
//! body releases the blocks that waited for it, a rejected one invalidates
//! them and all that waited for them.

use crate::body::BodyError;
use crate::body::BodySummary;
use crate::counters::ProcessingCounters;
use crate::deps::caused;
use crate::deps::kept_from;
use crate::deps::lemma_entry_counted;
use crate::deps::lemma_without_contains;
use crate::deps::none_waiting;
use crate::deps::pending_count;
use crate::deps::released_by;
use crate::deps::waits_in;
use crate::deps::well_formed;
use crate::deps::without;
use crate::deps::remaining_after;
use crate::deps::DependencyManager;
use crate::deps::HoldOutcome;
use crate::deps::PendingView;
use crate::status::BlockStatus;
use crate::types::lemma_occurrences_contains;
use crate::types::occurrences;
use crate::types::BlockHash;
use vstd::prelude::*;

verus! {

/// One entry of the status log: the block took this status.
#[derive(Clone, Copy, Debug, PartialEq, Eq, Structural)]
pub struct StatusEntry {
    pub hash: BlockHash,
    pub status: BlockStatus,
}

/// The status of `h`: that of its latest entry in the log, if it has one.
pub open spec fn status_in(log: Seq<StatusEntry>, h: BlockHash) -> Option<BlockStatus>
    decreases log.len(),
{
    if log.len() == 0 {
        None
    } else if log.last().hash == h {
        Some(log.last().status)
    } else {
        status_in(log.drop_last(), h)
    }
}

/// The log with an invalid entry appended for each block of `hs`.
pub open spec fn marked_invalid(log: Seq<StatusEntry>, hs: Seq<BlockHash>) -> Seq<StatusEntry>
    decreases hs.len(),
{
    if hs.len() == 0 {
        log
    } else {
        marked_invalid(log, hs.drop_last()).push(
            StatusEntry { hash: hs.last(), status: BlockStatus::StatusInvalid },
        )
    }
}

/// The body of `p` was accepted.
pub open spec fn is_resolved(log: Seq<StatusEntry>, p: BlockHash) -> bool {
    match status_in(log, p) {
        Some(s) => s == BlockStatus::StatusUTXOValid || s
            == BlockStatus::StatusUTXOPendingVerification || s
            == BlockStatus::StatusDisqualifiedFromChain,
        None => false,
    }
}

/// Some parent is invalid.
pub open spec fn has_invalid(log: Seq<StatusEntry>, parents: Seq<BlockHash>) -> bool {
    exists|i: int|
        0 <= i < parents.len() && status_in(log, #[trigger] parents[i]) == Some(
            BlockStatus::StatusInvalid,
        )
}

/// The parents whose body was not accepted yet, in order.
pub open spec fn unresolved(log: Seq<StatusEntry>, parents: Seq<BlockHash>) -> Seq<BlockHash>
    decreases parents.len(),
{
    if parents.len() == 0 {
        Seq::empty()
    } else if is_resolved(log, parents.last()) {
        unresolved(log, parents.drop_last())
    } else {
        unresolved(log, parents.drop_last()).push(parents.last())
    }
}

/// A block may be waited for while it is unknown or header-only.
pub open spec fn may_be_awaited(log: Seq<StatusEntry>, q: BlockHash) -> bool {
    status_in(log, q) is None || status_in(log, q) == Some(BlockStatus::StatusHeaderOnly)
}

/// The log and the waiting blocks agree: every waiting block is header-only,
/// and waits only for blocks that are unknown or header-only. So no block
/// waits for a block that is invalid, or for one whose body was accepted.
pub open spec fn consistent(log: Seq<StatusEntry>, deps: Seq<PendingView>) -> bool {
    &&& forall|i: int|
        0 <= i < deps.len() ==> status_in(log, (#[trigger] deps[i]).hash) == Some(
            BlockStatus::StatusHeaderOnly,
        )
    &&& forall|i: int, k: int|
        0 <= i < deps.len() && 0 <= k < deps[i].outstanding.len() ==> may_be_awaited(
            log,
            #[trigger] deps[i].outstanding[k],
        )
}

/// A block that is counted among the waiting blocks has an entry there.
pub proof fn lemma_pending_has_entry(v: Seq<PendingView>, h: BlockHash)
    requires
        pending_count(v, h) > 0,
    ensures
        exists|i: int| 0 <= i < v.len() && (#[trigger] v[i]).hash == h,
    decreases v.len(),
{
    if v.len() > 0 {
        if v.last().hash == h {
            assert(v[v.len() - 1].hash == h);
        } else {
            let t = v.drop_last();
            lemma_pending_has_entry(t, h);
            let i = choose|i: int| 0 <= i < t.len() && (#[trigger] t[i]).hash == h;
            assert(v[i].hash == h);
        }
    }
}

/// Under a consistent log, a block without a status does not wait.
pub proof fn lemma_unknown_is_not_pending(log: Seq<StatusEntry>, deps: Seq<PendingView>, h: BlockHash)
    requires
        consistent(log, deps),
        status_in(log, h) != Some(BlockStatus::StatusHeaderOnly),
    ensures
        pending_count(deps, h) == 0,
{
    if pending_count(deps, h) > 0 {
        lemma_pending_has_entry(deps, h);
    }
}

/// The unresolved parents are parents whose body was not accepted.
pub proof fn lemma_unresolved_members(log: Seq<StatusEntry>, parents: Seq<BlockHash>)
    ensures
        forall|k: int|
            0 <= k < unresolved(log, parents).len() ==> parents.contains(
                #[trigger] unresolved(log, parents)[k],
            ) && !is_resolved(log, unresolved(log, parents)[k]),
    decreases parents.len(),
{
    if parents.len() > 0 {
        let t = parents.drop_last();
        let u = unresolved(log, parents);
        lemma_unresolved_members(log, t);
        assert forall|k: int| 0 <= k < u.len() implies parents.contains(#[trigger] u[k])
            && !is_resolved(log, u[k]) by {
            if k < unresolved(log, t).len() {
                let x = unresolved(log, t)[k];
                assert(t.contains(x));
                let m = choose|m: int| 0 <= m < t.len() && t[m] == x;
                assert(parents[m] == x);
            } else {
                assert(parents[parents.len() - 1] == u[k]);
            }
        }
    }
}

/// `e` is an entry of `v` with `p` taken out of what it waits for.
pub open spec fn came_from(v: Seq<PendingView>, p: BlockHash, e: PendingView) -> bool {
    exists|i: int|
        0 <= i < v.len() && (#[trigger] v[i]).hash == e.hash && without(v[i].outstanding, p)
            == e.outstanding
}

/// Every block that goes on waiting when `p` resolves waited before, for
/// the same parents but `p`.
pub proof fn lemma_remaining_entries(v: Seq<PendingView>, p: BlockHash)
    ensures
        forall|j: int|
            0 <= j < remaining_after(v, p).len() ==> came_from(
                v,
                p,
                #[trigger] remaining_after(v, p)[j],
            ),
    decreases v.len(),
{
    if v.len() > 0 {
        let t = v.drop_last();
        let r = remaining_after(v, p);
        let rt = remaining_after(t, p);
        lemma_remaining_entries(t, p);
        assert forall|j: int| 0 <= j < r.len() implies came_from(v, p, #[trigger] r[j]) by {
            if j < rt.len() {
                assert(r[j] == rt[j]);
                assert(came_from(t, p, rt[j]));
                let i = choose|i: int|
                    0 <= i < t.len() && (#[trigger] t[i]).hash == rt[j].hash && without(
                        t[i].outstanding,
                        p,
                    ) == rt[j].outstanding;
                assert(v[i] == t[i]);
            } else {
                assert(v[v.len() - 1].hash == r[j].hash);
            }
        }
    }
}

/// After marking, the blocks of `hs` are invalid and every other block has
/// the status it had.
pub proof fn lemma_marked_invalid(log: Seq<StatusEntry>, hs: Seq<BlockHash>, h: BlockHash)
    ensures
        hs.contains(h) ==> status_in(marked_invalid(log, hs), h) == Some(
            BlockStatus::StatusInvalid,
        ),
        !hs.contains(h) ==> status_in(marked_invalid(log, hs), h) == status_in(log, h),
    decreases hs.len(),
{
    if hs.len() > 0 {
        let t = hs.drop_last();
        lemma_marked_invalid(log, t, h);
        assert(marked_invalid(log, hs).drop_last() == marked_invalid(log, t));
        assert(hs[hs.len() - 1] == hs.last());
        if t.contains(h) {
            let k = choose|k: int| 0 <= k < t.len() && t[k] == h;
            assert(hs[k] == h);
        }
        if hs.contains(h) && hs.last() != h {
            let k = choose|k: int| 0 <= k < hs.len() && hs[k] == h;
            assert(t[k] == h);
        }
    }
}

/// The block becomes invalid, and with it the blocks of `invalidated`: they
/// are the blocks that waited for it, directly or through others, and were
/// header-only; they leave the waiting blocks, and the blocks that stay are
/// unchanged and wait for none of them.
pub open spec fn invalidates(
    log0: Seq<StatusEntry>,
    deps0: Seq<PendingView>,
    log1: Seq<StatusEntry>,
    deps1: Seq<PendingView>,
    block: BlockHash,
    invalidated: Seq<BlockHash>,
) -> bool {
    &&& log1 == marked_invalid(
        log0.push(StatusEntry { hash: block, status: BlockStatus::StatusInvalid }),
        invalidated,
    )
    &&& invalidated.len() + deps1.len() == deps0.len()
    &&& forall|h: BlockHash|
        occurrences(invalidated, h) + pending_count(deps1, h) == pending_count(deps0, h)
    &&& forall|j: int| 0 <= j < invalidated.len() ==> #[trigger] caused(deps0, invalidated, block, j)
    &&& forall|q: int| 0 <= q < invalidated.len() ==> none_waiting(deps1, #[trigger] invalidated[q])
    &&& none_waiting(deps1, block)
    &&& kept_from(deps1, deps0)
    &&& status_in(log1, block) == Some(BlockStatus::StatusInvalid)
    &&& forall|j: int|
        0 <= j < invalidated.len() ==> status_in(log0, #[trigger] invalidated[j]) == Some(
            BlockStatus::StatusHeaderOnly,
        )
    &&& forall|j: int|
        0 <= j < invalidated.len() ==> status_in(log1, #[trigger] invalidated[j]) == Some(
            BlockStatus::StatusInvalid,
        )
}

/// What became of a submitted header.
#[derive(Clone, Debug, PartialEq, Eq)]
pub enum HeaderOutcome {
    /// The block has a status already; nothing changed.
    Known,
    /// The header failed validation or a parent is invalid, so the block is
    /// invalid, and with it these blocks, which waited for it, directly or
    /// through others.
    Invalid { invalidated: Vec<BlockHash> },
    /// Every parent is ready: the block goes on to the body stage.
    Ready,
    /// The block waits for parents.
    Held,
}

/// What became of a judged body.
#[derive(Clone, Debug, PartialEq, Eq)]
pub enum BodyOutcome {
    /// The block is not at the body stage: its header is unknown, it was
    /// judged before, or it still waits for parents. Nothing changed.
    NotReady,
    /// The body was accepted; these blocks waited for nothing else and go on
    /// to the body stage.
    Accepted { released: Vec<BlockHash> },
    /// The body was rejected; these blocks waited for the block, directly or
    /// through others, and are invalid with it.
    Rejected { invalidated: Vec<BlockHash> },
}

/// The status log and the waiting blocks.
pub struct Pipeline {
    pub log: Vec<StatusEntry>,
    pub deps: DependencyManager,
}

impl Pipeline {
    /// The pipeline's invariant.
    pub open spec fn wf(&self) -> bool {
        self.deps.wf() && consistent(self.log@, self.deps@)
    }

    /// A pipeline that knows no block.
    pub fn new() -> (p: Pipeline)
        ensures
            p.wf(),
            p.log@ == Seq::<StatusEntry>::empty(),
            p.deps@ == Seq::<PendingView>::empty(),
    {
        Pipeline { log: Vec::new(), deps: DependencyManager::new() }
    }

    /// The status of a block, `None` where the block is unknown.
    pub fn status_of(&self, block: BlockHash) -> (r: Option<BlockStatus>)
        ensures
            r == status_in(self.log@, block),
    {
        let mut i: usize = self.log.len();
        assert(self.log@.take(i as int) == self.log@);
        while i > 0
            invariant
                i <= self.log.len(),
                status_in(self.log@, block) == status_in(self.log@.take(i as int), block),
            decreases i,
        {
            proof {
                assert(self.log@.take(i as int).drop_last() == self.log@.take(i - 1));
            }
            if self.log[i - 1].hash == block {
                return Some(self.log[i - 1].status);
            }
            i -= 1;
        }
        None
    }

    /// Marks `block`, which does not wait, invalid, and with it every block
    /// that waited for it, directly or through others: they leave the
    /// waiting blocks and are returned.
    fn invalidate(&mut self, block: BlockHash) -> (invalidated: Vec<BlockHash>)
        requires
            old(self).wf(),
            pending_count(old(self).deps@, block) == 0,
        ensures
            final(self).wf(),
            invalidates(
                old(self).log@,
                old(self).deps@,
                final(self).log@,
                final(self).deps@,
                block,
                invalidated@,
            ),
    {
        self.log.push(StatusEntry { hash: block, status: BlockStatus::StatusInvalid });
        let invalidated = self.deps.fail_transitively(block);
        let ghost base = self.log@;
        let ghost waiting = self.deps@;
        let mut i: usize = 0;
        while i < invalidated.len()
            invariant
                i <= invalidated.len(),
                self.deps.wf(),
                self.deps@ == waiting,
                self.log@ == marked_invalid(base, invalidated@.take(i as int)),
            decreases invalidated.len() - i,
        {
            proof {
                assert(invalidated@.take(i + 1).drop_last() == invalidated@.take(i as int));
            }
            self.log.push(
                StatusEntry { hash: invalidated[i], status: BlockStatus::StatusInvalid },
            );
            i += 1;
        }
        proof {
            assert(invalidated@.take(i as int) == invalidated@);
            lemma_marked_invalid(base, invalidated@, block);
            assert forall|j: int| 0 <= j < invalidated@.len() implies status_in(
                self.log@,
                #[trigger] invalidated@[j],
            ) == Some(BlockStatus::StatusInvalid) by {
                lemma_marked_invalid(base, invalidated@, invalidated@[j]);
                assert(invalidated@.contains(invalidated@[j]));
            }
            let log0 = old(self).log@;
            let deps0 = old(self).deps@;
            let log1 = self.log@;
            let deps1 = self.deps@;
            assert(base.drop_last() == log0);
            assert forall|j: int| 0 <= j < invalidated@.len() implies status_in(
                log0,
                #[trigger] invalidated@[j],
            ) == Some(BlockStatus::StatusHeaderOnly) by {
                let x = invalidated@[j];
                assert(caused(deps0, invalidated@, block, j));
                if waits_in(deps0, x, block) {
                    let i = choose|i: int|
                        0 <= i < deps0.len() && (#[trigger] deps0[i]).hash == x
                            && deps0[i].outstanding.contains(block);
                } else {
                    let q = choose|q: int|
                        0 <= q < j && waits_in(deps0, invalidated@[j], #[trigger] invalidated@[q]);
                    let i = choose|i: int|
                        0 <= i < deps0.len() && (#[trigger] deps0[i]).hash == x
                            && deps0[i].outstanding.contains(invalidated@[q]);
                }
            }
            assert forall|i: int| 0 <= i < deps1.len() implies status_in(
                log1,
                (#[trigger] deps1[i]).hash,
            ) == Some(BlockStatus::StatusHeaderOnly) by {
                let h = deps1[i].hash;
                assert(deps0.contains(deps1[i]));
                let a = choose|a: int| 0 <= a < deps0.len() && deps0[a] == deps1[i];
                assert(status_in(log0, deps0[a].hash) == Some(BlockStatus::StatusHeaderOnly));
                lemma_entry_counted(deps1, i);
                lemma_entry_counted(deps0, a);
                assert(pending_count(deps0, h) <= 1);
                assert(occurrences(invalidated@, h) + pending_count(deps1, h) == pending_count(
                    deps0,
                    h,
                ));
                lemma_occurrences_contains(invalidated@, h);
                lemma_marked_invalid(base, invalidated@, h);
            }
            assert forall|i: int, k: int|
                0 <= i < deps1.len() && 0 <= k < deps1[i].outstanding.len() implies may_be_awaited(
                log1,
                #[trigger] deps1[i].outstanding[k],
            ) by {
                let q = deps1[i].outstanding[k];
                assert(deps0.contains(deps1[i]));
                let a = choose|a: int| 0 <= a < deps0.len() && deps0[a] == deps1[i];
                assert(may_be_awaited(log0, deps0[a].outstanding[k]));
                assert(deps1[i].outstanding.contains(q));
                if invalidated@.contains(q) {
                    let j = choose|j: int| 0 <= j < invalidated@.len() && invalidated@[j] == q;
                    assert(none_waiting(deps1, invalidated@[j]));
                }
                lemma_marked_invalid(base, invalidated@, q);
            }
        }
        invalidated
    }

    /// Takes in a block whose header failed validation, and counts the
    /// submission. A block that has a status already keeps it. A new block
    /// is invalid, and so is every block that waited for it, directly or
    /// through others.
    pub fn reject_header(&mut self, counters: &ProcessingCounters, block: BlockHash) -> (r:
        HeaderOutcome)
        requires
            old(self).wf(),
        ensures
            final(self).wf(),
            status_in(old(self).log@, block) is Some ==> r == HeaderOutcome::Known && final(self).log@
                == old(self).log@ && final(self).deps@ == old(self).deps@,
            status_in(old(self).log@, block) is None ==> (r matches HeaderOutcome::Invalid {
                invalidated,
            } && invalidates(
                old(self).log@,
                old(self).deps@,
                final(self).log@,
                final(self).deps@,
                block,
                invalidated@,
            )),
    {
        counters.record_submitted();
        if self.status_of(block).is_some() {
            return HeaderOutcome::Known;
        }
        proof {
            lemma_unknown_is_not_pending(self.log@, self.deps@, block);
        }
        let invalidated = self.invalidate(block);
        HeaderOutcome::Invalid { invalidated }
    }

    /// Takes in a block whose header passed validation, with its declared
    /// parents, and counts the submission, and the header with its parents
    /// where the block is new and no parent is invalid. A block with an
    /// invalid parent is invalid, and so is every block that waited for it,
    /// directly or through others. Otherwise the block is header-only, and
    /// waits for the parents whose body was not accepted yet, or is ready
    /// where there is none.
    pub fn accept_header(
        &mut self,
        counters: &ProcessingCounters,
        block: BlockHash,
        parents: &Vec<BlockHash>,
    ) -> (r: HeaderOutcome)
        requires
            old(self).wf(),
        ensures
            final(self).wf(),
            status_in(old(self).log@, block) is Some ==> r == HeaderOutcome::Known && final(self).log@
                == old(self).log@ && final(self).deps@ == old(self).deps@,
            status_in(old(self).log@, block) is None && has_invalid(old(self).log@, parents@) ==> (
            r matches HeaderOutcome::Invalid { invalidated } && invalidates(
                old(self).log@,
                old(self).deps@,
                final(self).log@,
                final(self).deps@,
                block,
                invalidated@,
            )),
            status_in(old(self).log@, block) is None && !has_invalid(old(self).log@, parents@)
                ==> final(self).log@ == old(self).log@.push(
                StatusEntry { hash: block, status: BlockStatus::StatusHeaderOnly },
            ) && (r == HeaderOutcome::Ready <==> unresolved(old(self).log@, parents@).len() == 0)
                && (r == HeaderOutcome::Held <==> unresolved(old(self).log@, parents@).len() > 0)
                && final(self).deps@ == if unresolved(old(self).log@, parents@).len() > 0
                && pending_count(old(self).deps@, block) == 0 {
                old(self).deps@.push(
                    PendingView {
                        hash: block,
                        outstanding: unresolved(old(self).log@, parents@),
                    },
                )
            } else {
                old(self).deps@
            },
    {
        counters.record_submitted();
        if self.status_of(block).is_some() {
            return HeaderOutcome::Known;
        }
        let mut waiting: Vec<BlockHash> = Vec::new();
        let mut i: usize = 0;
        while i < parents.len()
            invariant
                i <= parents.len(),
                *self == *old(self),
                old(self).wf(),
                status_in(self.log@, block) is None,
                !has_invalid(self.log@, parents@.take(i as int)),
                waiting@ == unresolved(self.log@, parents@.take(i as int)),
            decreases parents.len() - i,
        {
            let ghost prefix = parents@.take(i as int);
            let ghost next = parents@.take(i + 1);
            proof {
                assert(next.drop_last() == prefix);
            }
            match self.status_of(parents[i]) {
                Some(BlockStatus::StatusInvalid) => {
                    proof {
                        assert(parents@[i as int] == parents[i as int]);
                        assert(status_in(self.log@, parents@[i as int]) == Some(
                            BlockStatus::StatusInvalid,
                        ));
                    }
                    proof {
                        lemma_unknown_is_not_pending(self.log@, self.deps@, block);
                    }
                    let invalidated = self.invalidate(block);
                    return HeaderOutcome::Invalid { invalidated };
                },
                Some(BlockStatus::StatusUTXOValid) => {},
                Some(BlockStatus::StatusUTXOPendingVerification) => {},
                Some(BlockStatus::StatusDisqualifiedFromChain) => {},
                _ => {
                    waiting.push(parents[i]);
                },
            }
            proof {
                if has_invalid(self.log@, next) {
                    let k = choose|k: int|
                        0 <= k < next.len() && status_in(self.log@, #[trigger] next[k]) == Some(
                            BlockStatus::StatusInvalid,
                        );
                    if k < i {
                        assert(prefix[k] == next[k]);
                    }
                }
            }
            i += 1;
        }
        proof {
            assert(parents@.take(i as int) == parents@);
            lemma_unresolved_members(self.log@, parents@);
        }
        counters.record_header(parents.len() as u64);
        self.log.push(StatusEntry { hash: block, status: BlockStatus::StatusHeaderOnly });
        let held = self.deps.hold(block, waiting);
        proof {
            let log0 = old(self).log@;
            let deps0 = old(self).deps@;
            let log1 = self.log@;
            let deps1 = self.deps@;
            let u = unresolved(log0, parents@);
            assert(log1.drop_last() == log0);
            assert forall|i: int| 0 <= i < deps1.len() implies status_in(
                log1,
                (#[trigger] deps1[i]).hash,
            ) == Some(BlockStatus::StatusHeaderOnly) by {
                if i < deps0.len() {
                    assert(deps1[i] == deps0[i]);
                }
            }
            assert forall|i: int, k: int|
                0 <= i < deps1.len() && 0 <= k < deps1[i].outstanding.len() implies may_be_awaited(
                log1,
                #[trigger] deps1[i].outstanding[k],
            ) by {
                if i < deps0.len() {
                    assert(deps1[i] == deps0[i]);
                    assert(may_be_awaited(log0, deps0[i].outstanding[k]));
                } else {
                    let q = u[k];
                    assert(parents@.contains(q) && !is_resolved(log0, q));
                    let m = choose|m: int| 0 <= m < parents@.len() && parents@[m] == q;
                    assert(status_in(log0, parents@[m]) != Some(BlockStatus::StatusInvalid));
                }
            }
        }
        match held {
            HoldOutcome::Ready => HeaderOutcome::Ready,
            _ => HeaderOutcome::Held,
        }
    }

    /// Records the verdict on the body of a block at the body stage. An
    /// accepted body is counted with its transactions; the block awaits UTXO
    /// verification, and the blocks that waited for nothing else are
    /// released. A rejected block is invalid, and so is
    /// every block that waited for it, directly or through others; they
    /// leave the waiting blocks without being judged themselves.
    pub fn accept_body(
        &mut self,
        counters: &ProcessingCounters,
        block: BlockHash,
        verdict: Result<BodySummary, BodyError>,
    ) -> (r: BodyOutcome)
        requires
            old(self).wf(),
        ensures
            final(self).wf(),
            !(status_in(old(self).log@, block) == Some(BlockStatus::StatusHeaderOnly)
                && pending_count(old(self).deps@, block) == 0) ==> r == BodyOutcome::NotReady
                && final(self).log@ == old(self).log@ && final(self).deps@ == old(self).deps@,
            status_in(old(self).log@, block) == Some(BlockStatus::StatusHeaderOnly)
                && pending_count(old(self).deps@, block) == 0 && verdict is Ok ==> (
            r matches BodyOutcome::Accepted { released } && released@ == released_by(
                old(self).deps@,
                block,
            )) && final(self).deps@
                == remaining_after(old(self).deps@, block) && final(self).log@ == old(self).log@.push(
                StatusEntry { hash: block, status: BlockStatus::StatusUTXOPendingVerification },
            ),
            status_in(old(self).log@, block) == Some(BlockStatus::StatusHeaderOnly)
                && pending_count(old(self).deps@, block) == 0 && verdict is Err ==> (
            r matches BodyOutcome::Rejected { invalidated } && invalidates(
                old(self).log@,
                old(self).deps@,
                final(self).log@,
                final(self).deps@,
                block,
                invalidated@,
            )),
    {
        let at_stage = match self.status_of(block) {
            Some(BlockStatus::StatusHeaderOnly) => !self.deps.is_pending(block),
            _ => false,
        };
        if !at_stage {
            return BodyOutcome::NotReady;
        }
        if let Ok(summary) = verdict {
            counters.record_body(summary.transactions);
            self.log.push(
                StatusEntry { hash: block, status: BlockStatus::StatusUTXOPendingVerification },
            );
            let released = self.deps.resolve(block);
            proof {
                let log0 = old(self).log@;
                let deps0 = old(self).deps@;
                let log1 = self.log@;
                let deps1 = self.deps@;
                assert(log1.drop_last() == log0);
                lemma_remaining_entries(deps0, block);
                assert forall|j: int| 0 <= j < deps1.len() implies status_in(
                    log1,
                    (#[trigger] deps1[j]).hash,
                ) == Some(BlockStatus::StatusHeaderOnly) by {
                    assert(came_from(deps0, block, deps1[j]));
                    let i = choose|i: int|
                        0 <= i < deps0.len() && (#[trigger] deps0[i]).hash == deps1[j].hash
                            && without(deps0[i].outstanding, block) == deps1[j].outstanding;
                    lemma_entry_counted(deps0, i);
                }
                assert forall|j: int, k: int|
                    0 <= j < deps1.len() && 0 <= k < deps1[j].outstanding.len() implies may_be_awaited(
                    log1,
                    #[trigger] deps1[j].outstanding[k],
                ) by {
                    let q = deps1[j].outstanding[k];
                    assert(came_from(deps0, block, deps1[j]));
                    let i = choose|i: int|
                        0 <= i < deps0.len() && (#[trigger] deps0[i]).hash == deps1[j].hash
                            && without(deps0[i].outstanding, block) == deps1[j].outstanding;
                    assert(deps1[j].outstanding.contains(q));
                    lemma_without_contains(deps0[i].outstanding, block, q);
                    let m = choose|m: int|
                        0 <= m < deps0[i].outstanding.len() && deps0[i].outstanding[m] == q;
                    assert(may_be_awaited(log0, deps0[i].outstanding[m]));
                }
            }
            BodyOutcome::Accepted { released }
        } else {
            let invalidated = self.invalidate(block);
            BodyOutcome::Rejected { invalidated }
        }
    }

    /// Records the verdict of UTXO verification on a block that awaits it:
    /// valid, or disqualified from the chain. A valid block joins the chain
    /// and is counted with its mass. Returns whether the block awaited the
    /// verdict; where it did not, nothing changes.
    pub fn accept_utxo(
        &mut self,
        counters: &ProcessingCounters,
        block: BlockHash,
        utxo_ok: bool,
        mass: u64,
    ) -> (moved: bool)
        requires
            old(self).wf(),
        ensures
            final(self).wf(),
            final(self).deps@ == old(self).deps@,
            moved == (status_in(old(self).log@, block) == Some(
                BlockStatus::StatusUTXOPendingVerification,
            )),
            !moved ==> final(self).log@ == old(self).log@,
            moved ==> final(self).log@ == old(self).log@.push(
                StatusEntry {
                    hash: block,
                    status: if utxo_ok {
                        BlockStatus::StatusUTXOValid
                    } else {
                        BlockStatus::StatusDisqualifiedFromChain
                    },
                },
            ),
    {
        match self.status_of(block) {
            Some(BlockStatus::StatusUTXOPendingVerification) => {
                if utxo_ok {
                    counters.record_chain_update(1, mass);
                }
                let status = if utxo_ok {
                    BlockStatus::StatusUTXOValid
                } else {
                    BlockStatus::StatusDisqualifiedFromChain
                };
                self.log.push(StatusEntry { hash: block, status });
                proof {
                    let log0 = old(self).log@;
                    let deps0 = old(self).deps@;
                    assert(self.log@.drop_last() == log0);
                    assert forall|i: int, k: int|
                        0 <= i < deps0.len() && 0 <= k < deps0[i].outstanding.len() implies may_be_awaited(
                        self.log@,
                        #[trigger] deps0[i].outstanding[k],
                    ) by {
                        assert(may_be_awaited(log0, deps0[i].outstanding[k]));
                    }
                }
                true
            },
            _ => false,
        }
    }
}

} // verus!
