//! The dependency manager: blocks that arrived before their parents were
//! processed wait here, and leave exactly once, when the last outstanding
//! parent resolves or when a parent turns out invalid.

use crate::types::occurrences;
use crate::types::BlockHash;
use vstd::prelude::*;

verus! {

/// A block that waits for parents.
#[derive(Clone, Debug, PartialEq, Eq)]
pub struct PendingBlock {
    pub hash: BlockHash,
    pub outstanding: Vec<BlockHash>,
}

/// A waiting block as a mathematical value.
pub struct PendingView {
    pub hash: BlockHash,
    pub outstanding: Seq<BlockHash>,
}

impl View for PendingBlock {
    type V = PendingView;

    open spec fn view(&self) -> PendingView {
        PendingView { hash: self.hash, outstanding: self.outstanding@ }
    }
}

/// The views of a sequence of waiting blocks, in order.
pub open spec fn views_of(s: Seq<PendingBlock>) -> Seq<PendingView> {
    Seq::new(s.len(), |i: int| s[i]@)
}

/// `s` with every occurrence of `p` taken out.
pub open spec fn without(s: Seq<BlockHash>, p: BlockHash) -> Seq<BlockHash>
    decreases s.len(),
{
    if s.len() == 0 {
        Seq::empty()
    } else if s.last() == p {
        without(s.drop_last(), p)
    } else {
        without(s.drop_last(), p).push(s.last())
    }
}

/// How many waiting entries are for block `h`.
pub open spec fn pending_count(v: Seq<PendingView>, h: BlockHash) -> nat
    decreases v.len(),
{
    if v.len() == 0 {
        0
    } else {
        pending_count(v.drop_last(), h) + if v.last().hash == h {
            1nat
        } else {
            0nat
        }
    }
}

/// `p` is the only parent that `e` still waits for.
pub open spec fn freed_by(e: PendingView, p: BlockHash) -> bool {
    without(e.outstanding, p).len() == 0
}

/// The blocks that leave when `p` resolves, in arrival order.
pub open spec fn released_by(v: Seq<PendingView>, p: BlockHash) -> Seq<BlockHash>
    decreases v.len(),
{
    if v.len() == 0 {
        Seq::empty()
    } else if freed_by(v.last(), p) {
        released_by(v.drop_last(), p).push(v.last().hash)
    } else {
        released_by(v.drop_last(), p)
    }
}

/// The blocks that go on waiting when `p` resolves, each without `p`.
pub open spec fn remaining_after(v: Seq<PendingView>, p: BlockHash) -> Seq<PendingView>
    decreases v.len(),
{
    if v.len() == 0 {
        Seq::empty()
    } else if freed_by(v.last(), p) {
        remaining_after(v.drop_last(), p)
    } else {
        remaining_after(v.drop_last(), p).push(
            PendingView { hash: v.last().hash, outstanding: without(v.last().outstanding, p) },
        )
    }
}

/// The blocks that wait for `p` directly, in arrival order.
pub open spec fn dependents_of(v: Seq<PendingView>, p: BlockHash) -> Seq<BlockHash>
    decreases v.len(),
{
    if v.len() == 0 {
        Seq::empty()
    } else if v.last().outstanding.contains(p) {
        dependents_of(v.drop_last(), p).push(v.last().hash)
    } else {
        dependents_of(v.drop_last(), p)
    }
}

/// The entries that do not wait for `p`, unchanged.
pub open spec fn independent_of(v: Seq<PendingView>, p: BlockHash) -> Seq<PendingView>
    decreases v.len(),
{
    if v.len() == 0 {
        Seq::empty()
    } else if v.last().outstanding.contains(p) {
        independent_of(v.drop_last(), p)
    } else {
        independent_of(v.drop_last(), p).push(v.last())
    }
}

/// `s` with every occurrence of every hash of `ps` taken out.
pub open spec fn without_all(s: Seq<BlockHash>, ps: Seq<BlockHash>) -> Seq<BlockHash>
    decreases ps.len(),
{
    if ps.len() == 0 {
        s
    } else {
        without(without_all(s, ps.drop_last()), ps.last())
    }
}

/// The blocks that still wait after the parents of `ps` resolved, one after
/// the other.
pub open spec fn remaining_after_all(v: Seq<PendingView>, ps: Seq<BlockHash>) -> Seq<PendingView>
    decreases ps.len(),
{
    if ps.len() == 0 {
        v
    } else {
        remaining_after(remaining_after_all(v, ps.drop_last()), ps.last())
    }
}

/// The blocks released while the parents of `ps` resolved, one after the
/// other, in the order of their release.
pub open spec fn released_by_all(v: Seq<PendingView>, ps: Seq<BlockHash>) -> Seq<BlockHash>
    decreases ps.len(),
{
    if ps.len() == 0 {
        Seq::empty()
    } else {
        released_by_all(v, ps.drop_last()) + released_by(
            remaining_after_all(v, ps.drop_last()),
            ps.last(),
        )
    }
}

/// Every hash of `s` is among `ps`.
pub open spec fn all_resolved(s: Seq<BlockHash>, ps: Seq<BlockHash>) -> bool {
    forall|k: int| 0 <= k < s.len() ==> ps.contains(#[trigger] s[k])
}

/// Block `h` waits for `p` in `v`.
pub open spec fn waits_in(v: Seq<PendingView>, h: BlockHash, p: BlockHash) -> bool {
    exists|i: int| 0 <= i < v.len() && (#[trigger] v[i]).hash == h && v[i].outstanding.contains(p)
}

/// No entry of `v` waits for `p`.
pub open spec fn none_waiting(v: Seq<PendingView>, p: BlockHash) -> bool {
    forall|i: int| 0 <= i < v.len() ==> !(#[trigger] v[i]).outstanding.contains(p)
}

/// Every entry of `a` is an entry of `b`, unchanged.
pub open spec fn kept_from(a: Seq<PendingView>, b: Seq<PendingView>) -> bool {
    forall|i: int| 0 <= i < a.len() ==> b.contains(#[trigger] a[i])
}

/// The block at `j` of `invalid` waited, in `v`, for `parent` or for a block
/// that stands before it in `invalid`.
pub open spec fn caused(
    v: Seq<PendingView>,
    invalid: Seq<BlockHash>,
    parent: BlockHash,
    j: int,
) -> bool {
    waits_in(v, invalid[j], parent) || exists|q: int|
        0 <= q < j && waits_in(v, invalid[j], #[trigger] invalid[q])
}

/// No block waits twice, and every waiting block has a parent to wait for.
pub open spec fn well_formed(v: Seq<PendingView>) -> bool {
    &&& forall|h: BlockHash| #[trigger] pending_count(v, h) <= 1
    &&& forall|i: int| 0 <= i < v.len() ==> (#[trigger] v[i]).outstanding.len() > 0
}

/// What became of a block handed to the manager.
#[derive(Clone, Copy, Debug, PartialEq, Eq, Structural)]
pub enum HoldOutcome {
    /// No parent is outstanding: the block goes on to the body stage at once.
    Ready,
    /// The block now waits for its parents.
    Held,
    /// The block waits already; nothing changed.
    AlreadyPending,
}

/// The blocks that wait for parents, in arrival order.
pub struct DependencyManager {
    pending: Vec<PendingBlock>,
}

impl View for DependencyManager {
    type V = Seq<PendingView>;

    closed spec fn view(&self) -> Seq<PendingView> {
        views_of(self.pending@)
    }
}

impl DependencyManager {
    /// The manager's invariant.
    pub open spec fn wf(&self) -> bool {
        well_formed(self@)
    }

    /// A manager with no waiting block.
    pub fn new() -> (m: DependencyManager)
        ensures
            m@ == Seq::<PendingView>::empty(),
            m.wf(),
    {
        let m = DependencyManager { pending: Vec::new() };
        assert(m@ =~= Seq::<PendingView>::empty());
        m
    }

    /// The number of waiting blocks.
    pub fn pending_len(&self) -> (n: usize)
        ensures
            n == self@.len(),
    {
        self.pending.len()
    }

    /// Whether `block` waits.
    pub fn is_pending(&self, block: BlockHash) -> (r: bool)
        ensures
            r == (pending_count(self@, block) > 0),
    {
        let mut i: usize = 0;
        while i < self.pending.len()
            invariant
                i <= self.pending.len(),
                pending_count(self@.take(i as int), block) == 0,
            decreases self.pending.len() - i,
        {
            proof {
                assert(self@.take(i + 1).drop_last() == self@.take(i as int));
                assert(self@.take(i + 1).last() == self.pending@[i as int]@);
                lemma_count_take(self@, i + 1, block);
            }
            if self.pending[i].hash == block {
                return true;
            }
            i += 1;
        }
        assert(self@.take(i as int) == self@);
        false
    }

    /// The parents that `block` still waits for, in the order given when it
    /// was held; `None` where it does not wait.
    pub fn outstanding_of(&self, block: BlockHash) -> (r: Option<Vec<BlockHash>>)
        ensures
            r is Some <==> pending_count(self@, block) > 0,
            r is Some ==> exists|i: int|
                0 <= i < self@.len() && (#[trigger] self@[i]).hash == block
                    && self@[i].outstanding == r->Some_0@,
    {
        let mut i: usize = 0;
        while i < self.pending.len()
            invariant
                i <= self.pending.len(),
                pending_count(self@.take(i as int), block) == 0,
            decreases self.pending.len() - i,
        {
            proof {
                assert(self@.take(i + 1).drop_last() == self@.take(i as int));
                assert(self@.take(i + 1).last() == self.pending@[i as int]@);
                lemma_count_take(self@, i + 1, block);
            }
            if self.pending[i].hash == block {
                let out = copy_hashes(&self.pending[i].outstanding);
                assert(self@[i as int].hash == block);
                return Some(out);
            }
            i += 1;
        }
        assert(self@.take(i as int) == self@);
        None
    }

    /// Takes in a block whose header was accepted, with the parents that are
    /// not processed yet. With none outstanding the block is ready and is not
    /// kept; a block that waits already is not taken twice.
    pub fn hold(&mut self, block: BlockHash, unresolved: Vec<BlockHash>) -> (r: HoldOutcome)
        requires
            old(self).wf(),
        ensures
            final(self).wf(),
            unresolved@.len() == 0 ==> r == HoldOutcome::Ready && final(self)@ == old(self)@,
            unresolved@.len() > 0 && pending_count(old(self)@, block) > 0 ==> r
                == HoldOutcome::AlreadyPending && final(self)@ == old(self)@,
            unresolved@.len() > 0 && pending_count(old(self)@, block) == 0 ==> r
                == HoldOutcome::Held && final(self)@ == old(self)@.push(
                PendingView { hash: block, outstanding: unresolved@ },
            ),
    {
        if unresolved.len() == 0 {
            return HoldOutcome::Ready;
        }
        if self.is_pending(block) {
            return HoldOutcome::AlreadyPending;
        }
        let ghost before = self@;
        let ghost entry = PendingView { hash: block, outstanding: unresolved@ };
        self.pending.push(PendingBlock { hash: block, outstanding: unresolved });
        proof {
            assert(self@ =~= before.push(entry));
            assert(self@.drop_last() == before);
            assert forall|h: BlockHash| #[trigger] pending_count(self@, h) <= 1 by {
                assert(pending_count(before, h) <= 1);
            }
        }
        HoldOutcome::Held
    }

    /// Records that `parent` was processed: it leaves every outstanding set,
    /// and each block that waited for nothing else is released, in arrival
    /// order, and waits no more.
    pub fn resolve(&mut self, parent: BlockHash) -> (released: Vec<BlockHash>)
        requires
            old(self).wf(),
        ensures
            final(self).wf(),
            released@ == released_by(old(self)@, parent),
            final(self)@ == remaining_after(old(self)@, parent),
            forall|h: BlockHash|
                occurrences(released@, h) + pending_count(final(self)@, h) == pending_count(
                    old(self)@,
                    h,
                ),
    {
        let mut released: Vec<BlockHash> = Vec::new();
        let mut kept: Vec<PendingBlock> = Vec::new();
        let mut i: usize = 0;
        while i < self.pending.len()
            invariant
                i <= self.pending.len(),
                *self == *old(self),
                released@ == released_by(self@.take(i as int), parent),
                views_of(kept@) == remaining_after(self@.take(i as int), parent),
            decreases self.pending.len() - i,
        {
            let rest = remove_hash(&self.pending[i].outstanding, parent);
            proof {
                assert(self@.take(i + 1).drop_last() == self@.take(i as int));
                assert(self@.take(i + 1).last() == self.pending@[i as int]@);
            }
            if rest.len() == 0 {
                released.push(self.pending[i].hash);
            } else {
                let ghost before = views_of(kept@);
                let entry = PendingBlock { hash: self.pending[i].hash, outstanding: rest };
                kept.push(entry);
                assert(views_of(kept@) =~= before.push(
                    PendingView { hash: self.pending@[i as int].hash, outstanding: rest@ },
                ));
            }
            i += 1;
        }
        proof {
            assert(self@.take(i as int) == self@);
            lemma_resolve_keeps_well_formed(self@, parent);
            assert forall|h: BlockHash|
                occurrences(released@, h) + pending_count(views_of(kept@), h) == pending_count(
                    self@,
                    h,
                ) by {
                lemma_resolve_conserves(self@, parent, h);
            }
        }
        self.pending = kept;
        released
    }

    /// Records that `parent` is invalid: every block that waits for it
    /// directly leaves the manager and is returned, in arrival order, to be
    /// marked invalid in turn. The other blocks wait on, unchanged.
    pub fn fail(&mut self, parent: BlockHash) -> (invalid: Vec<BlockHash>)
        requires
            old(self).wf(),
        ensures
            final(self).wf(),
            invalid@ == dependents_of(old(self)@, parent),
            final(self)@ == independent_of(old(self)@, parent),
            forall|h: BlockHash|
                occurrences(invalid@, h) + pending_count(final(self)@, h) == pending_count(
                    old(self)@,
                    h,
                ),
    {
        let mut invalid: Vec<BlockHash> = Vec::new();
        let mut kept: Vec<PendingBlock> = Vec::new();
        let mut i: usize = 0;
        while i < self.pending.len()
            invariant
                i <= self.pending.len(),
                *self == *old(self),
                invalid@ == dependents_of(self@.take(i as int), parent),
                views_of(kept@) == independent_of(self@.take(i as int), parent),
            decreases self.pending.len() - i,
        {
            proof {
                assert(self@.take(i + 1).drop_last() == self@.take(i as int));
                assert(self@.take(i + 1).last() == self.pending@[i as int]@);
            }
            if contains_hash(&self.pending[i].outstanding, parent) {
                invalid.push(self.pending[i].hash);
            } else {
                let ghost before = views_of(kept@);
                let entry = PendingBlock {
                    hash: self.pending[i].hash,
                    outstanding: copy_hashes(&self.pending[i].outstanding),
                };
                kept.push(entry);
                assert(views_of(kept@) =~= before.push(self.pending@[i as int]@));
            }
            i += 1;
        }
        proof {
            assert(self@.take(i as int) == self@);
            lemma_fail_keeps_well_formed(self@, parent);
            assert forall|h: BlockHash|
                occurrences(invalid@, h) + pending_count(views_of(kept@), h) == pending_count(
                    self@,
                    h,
                ) by {
                lemma_fail_conserves(self@, parent, h);
            }
        }
        self.pending = kept;
        invalid
    }

    /// Records that `parent` is invalid, with all that follows: every block
    /// that waits for it, and every block that waits for such a block, and
    /// so on, leaves the manager and is returned to be marked invalid. Each
    /// returned block waited for `parent` or for a block returned before it;
    /// no block that stays waits for `parent` or for a returned block; the
    /// blocks that stay are unchanged.
    pub fn fail_transitively(&mut self, parent: BlockHash) -> (invalid: Vec<BlockHash>)
        requires
            old(self).wf(),
        ensures
            final(self).wf(),
            forall|h: BlockHash|
                occurrences(invalid@, h) + pending_count(final(self)@, h) == pending_count(
                    old(self)@,
                    h,
                ),
            invalid@.len() + final(self)@.len() == old(self)@.len(),
            kept_from(final(self)@, old(self)@),
            none_waiting(final(self)@, parent),
            forall|q: int|
                0 <= q < invalid@.len() ==> none_waiting(final(self)@, #[trigger] invalid@[q]),
            forall|j: int|
                0 <= j < invalid@.len() ==> #[trigger] caused(old(self)@, invalid@, parent, j),
    {
        let mut invalid = self.fail(parent);
        proof {
            lemma_dependents_wait(old(self)@, parent);
            lemma_independent_entries(old(self)@, parent);
            lemma_fail_splits(old(self)@, parent);
        }
        let mut k: usize = 0;
        while k < invalid.len()
            invariant
                self.wf(),
                k <= invalid@.len(),
                forall|h: BlockHash|
                    occurrences(invalid@, h) + pending_count(self@, h) == pending_count(
                        old(self)@,
                        h,
                    ),
                invalid@.len() + self@.len() == old(self)@.len(),
                kept_from(self@, old(self)@),
                none_waiting(self@, parent),
                forall|q: int| 0 <= q < k ==> none_waiting(self@, #[trigger] invalid@[q]),
                forall|j: int|
                    0 <= j < invalid@.len() ==> #[trigger] caused(old(self)@, invalid@, parent, j),
            decreases old(self)@.len() - k,
        {
            let bad = invalid[k];
            let ghost cur = self@;
            let ghost before = invalid@;
            let more = self.fail(bad);
            let mut m: usize = 0;
            while m < more.len()
                invariant
                    m <= more.len(),
                    invalid@ == before + more@.take(m as int),
                decreases more.len() - m,
            {
                invalid.push(more[m]);
                assert(more@.take(m + 1) == more@.take(m as int).push(more@[m as int]));
                assert(before + more@.take(m as int).push(more@[m as int]) == (before + more@.take(
                    m as int,
                )).push(more@[m as int]));
                m += 1;
            }
            proof {
                assert(more@.take(m as int) == more@);
                lemma_dependents_wait(cur, bad);
                lemma_independent_entries(cur, bad);
                lemma_fail_splits(cur, bad);
                assert forall|h: BlockHash|
                    occurrences(invalid@, h) + pending_count(self@, h) == pending_count(
                        old(self)@,
                        h,
                    ) by {
                    lemma_occurrences_concat(before, more@, h);
                    assert(occurrences(before, h) + pending_count(cur, h) == pending_count(
                        old(self)@,
                        h,
                    ));
                }
                assert forall|i: int| 0 <= i < self@.len() implies old(self)@.contains(
                    #[trigger] self@[i],
                ) by {
                    assert(cur.contains(self@[i]));
                    let c = choose|c: int| 0 <= c < cur.len() && cur[c] == self@[i];
                    assert(old(self)@.contains(cur[c]));
                }
                assert forall|i: int| 0 <= i < self@.len() implies !(#[trigger] self@[i])
                    .outstanding.contains(parent) by {
                    assert(cur.contains(self@[i]));
                    let c = choose|c: int| 0 <= c < cur.len() && cur[c] == self@[i];
                    assert(!cur[c].outstanding.contains(parent));
                }
                assert forall|q: int| 0 <= q < k + 1 implies none_waiting(
                    self@,
                    #[trigger] invalid@[q],
                ) by {
                    assert(invalid@[q] == before[q]);
                    if q < k {
                        assert(none_waiting(cur, before[q]));
                        assert forall|i: int| 0 <= i < self@.len() implies !(#[trigger] self@[i])
                            .outstanding.contains(before[q]) by {
                            assert(cur.contains(self@[i]));
                            let c = choose|c: int| 0 <= c < cur.len() && cur[c] == self@[i];
                            assert(!cur[c].outstanding.contains(before[q]));
                        }
                    }
                }
                assert forall|j: int| 0 <= j < invalid@.len() implies #[trigger] caused(
                    old(self)@,
                    invalid@,
                    parent,
                    j,
                ) by {
                    if j < before.len() {
                        assert(invalid@[j] == before[j]);
                        assert(caused(old(self)@, before, parent, j));
                        if !waits_in(old(self)@, before[j], parent) {
                            let q = choose|q: int|
                                0 <= q < j && waits_in(old(self)@, before[j], #[trigger] before[q]);
                            assert(invalid@[q] == before[q]);
                        }
                    } else {
                        let x = more@[j - before.len()];
                        assert(invalid@[j] == x);
                        assert(waits_in(cur, x, bad));
                        let i = choose|i: int|
                            0 <= i < cur.len() && (#[trigger] cur[i]).hash == x
                                && cur[i].outstanding.contains(bad);
                        assert(old(self)@.contains(cur[i]));
                        let o = choose|o: int| 0 <= o < old(self)@.len() && old(self)@[o] == cur[i];
                        assert(old(self)@[o].hash == x);
                        assert(waits_in(old(self)@, x, bad));
                        assert(invalid@[k as int] == bad);
                    }
                }
            }
            k += 1;
        }
        invalid
    }
}

/// A copy of `s`.
pub fn copy_hashes(s: &Vec<BlockHash>) -> (out: Vec<BlockHash>)
    ensures
        out@ == s@,
{
    let mut out: Vec<BlockHash> = Vec::new();
    let mut i: usize = 0;
    while i < s.len()
        invariant
            i <= s.len(),
            out@ == s@.take(i as int),
        decreases s.len() - i,
    {
        out.push(s[i]);
        assert(s@.take(i + 1) == s@.take(i as int).push(s@[i as int]));
        i += 1;
    }
    assert(s@.take(i as int) == s@);
    out
}

/// Whether `p` occurs in `s`.
pub fn contains_hash(s: &Vec<BlockHash>, p: BlockHash) -> (r: bool)
    ensures
        r == s@.contains(p),
{
    let mut i: usize = 0;
    while i < s.len()
        invariant
            i <= s.len(),
            forall|k: int| 0 <= k < i ==> s@[k] != p,
        decreases s.len() - i,
    {
        if s[i] == p {
            return true;
        }
        i += 1;
    }
    false
}

/// `s` with every occurrence of `p` taken out, the rest in order.
pub fn remove_hash(s: &Vec<BlockHash>, p: BlockHash) -> (out: Vec<BlockHash>)
    ensures
        out@ == without(s@, p),
{
    let mut out: Vec<BlockHash> = Vec::new();
    let mut i: usize = 0;
    while i < s.len()
        invariant
            i <= s.len(),
            out@ == without(s@.take(i as int), p),
        decreases s.len() - i,
    {
        proof {
            assert(s@.take(i + 1).drop_last() == s@.take(i as int));
        }
        if s[i] != p {
            out.push(s[i]);
        }
        i += 1;
    }
    assert(s@.take(i as int) == s@);
    out
}

/// A prefix holds at most as many entries for `h` as the whole.
pub proof fn lemma_count_take(v: Seq<PendingView>, i: int, h: BlockHash)
    requires
        0 <= i <= v.len(),
    ensures
        pending_count(v.take(i), h) <= pending_count(v, h),
    decreases v.len() - i,
{
    if i < v.len() {
        lemma_count_take(v, i + 1, h);
        assert(v.take(i + 1).drop_last() == v.take(i));
    } else {
        assert(v.take(i) == v);
    }
}

/// What `without` leaves: exactly the hashes of `s` other than `p`.
pub proof fn lemma_without_contains(s: Seq<BlockHash>, p: BlockHash, x: BlockHash)
    ensures
        without(s, p).contains(x) <==> s.contains(x) && x != p,
        without(s, p).len() <= s.len(),
    decreases s.len(),
{
    if s.len() > 0 {
        let t = s.drop_last();
        lemma_without_contains(t, p, x);
        if s.contains(x) {
            let k = choose|k: int| 0 <= k < s.len() && s[k] == x;
            if k < t.len() {
                assert(t[k] == x);
            }
        }
        if t.contains(x) {
            let k = choose|k: int| 0 <= k < t.len() && t[k] == x;
            assert(s[k] == x);
        }
        if s.last() != p {
            let w = without(t, p);
            let w2 = w.push(s.last());
            assert(w2[w.len() as int] == s.last());
            if w.contains(x) {
                let k = choose|k: int| 0 <= k < w.len() && w[k] == x;
                assert(w2[k] == x);
            }
            if w2.contains(x) {
                let k = choose|k: int| 0 <= k < w2.len() && w2[k] == x;
                if k < w.len() {
                    assert(w[k] == x);
                }
            }
        }
        assert(s[s.len() - 1] == s.last());
    }
}

/// Resolving a parent neither loses nor doubles a block: each one is either
/// released or still waits, as often as it waited before.
pub proof fn lemma_resolve_conserves(v: Seq<PendingView>, p: BlockHash, h: BlockHash)
    ensures
        occurrences(released_by(v, p), h) + pending_count(remaining_after(v, p), h)
            == pending_count(v, h),
    decreases v.len(),
{
    if v.len() > 0 {
        let t = v.drop_last();
        lemma_resolve_conserves(t, p, h);
        if freed_by(v.last(), p) {
            assert(released_by(v, p).drop_last() == released_by(t, p));
        } else {
            assert(remaining_after(v, p).drop_last() == remaining_after(t, p));
        }
    }
}

/// Resolving a parent keeps the manager's invariant.
pub proof fn lemma_resolve_keeps_well_formed(v: Seq<PendingView>, p: BlockHash)
    requires
        well_formed(v),
    ensures
        well_formed(remaining_after(v, p)),
    decreases v.len(),
{
    let r = remaining_after(v, p);
    assert forall|h: BlockHash| #[trigger] pending_count(r, h) <= 1 by {
        lemma_resolve_conserves(v, p, h);
        assert(pending_count(v, h) <= 1);
    }
    if v.len() > 0 {
        let t = v.drop_last();
        assert forall|h: BlockHash| #[trigger] pending_count(t, h) <= 1 by {
            assert(pending_count(v, h) <= 1);
        }
        assert forall|i: int| 0 <= i < t.len() implies (#[trigger] t[i]).outstanding.len() > 0 by {
            assert(t[i] == v[i]);
        }
        lemma_resolve_keeps_well_formed(t, p);
    }
}

/// Failing a parent neither loses nor doubles a block.
pub proof fn lemma_fail_conserves(v: Seq<PendingView>, p: BlockHash, h: BlockHash)
    ensures
        occurrences(dependents_of(v, p), h) + pending_count(independent_of(v, p), h)
            == pending_count(v, h),
    decreases v.len(),
{
    if v.len() > 0 {
        let t = v.drop_last();
        lemma_fail_conserves(t, p, h);
        if v.last().outstanding.contains(p) {
            assert(dependents_of(v, p).drop_last() == dependents_of(t, p));
        } else {
            assert(independent_of(v, p).drop_last() == independent_of(t, p));
        }
    }
}

/// Failing a parent keeps the manager's invariant.
pub proof fn lemma_fail_keeps_well_formed(v: Seq<PendingView>, p: BlockHash)
    requires
        well_formed(v),
    ensures
        well_formed(independent_of(v, p)),
    decreases v.len(),
{
    let r = independent_of(v, p);
    assert forall|h: BlockHash| #[trigger] pending_count(r, h) <= 1 by {
        lemma_fail_conserves(v, p, h);
        assert(pending_count(v, h) <= 1);
    }
    if v.len() > 0 {
        let t = v.drop_last();
        assert forall|h: BlockHash| #[trigger] pending_count(t, h) <= 1 by {
            assert(pending_count(v, h) <= 1);
        }
        assert forall|i: int| 0 <= i < t.len() implies (#[trigger] t[i]).outstanding.len() > 0 by {
            assert(t[i] == v[i]);
        }
        lemma_fail_keeps_well_formed(t, p);
    }
}

/// Nothing of `s` is left once `p` is taken out exactly when `s` holds
/// nothing but `p`.
pub proof fn lemma_without_empty(s: Seq<BlockHash>, p: BlockHash)
    ensures
        without(s, p).len() == 0 <==> forall|k: int| 0 <= k < s.len() ==> s[k] == p,
    decreases s.len(),
{
    if s.len() > 0 {
        let t = s.drop_last();
        lemma_without_empty(t, p);
        if s.last() == p {
            if forall|k: int| 0 <= k < t.len() ==> t[k] == p {
                assert forall|k: int| 0 <= k < s.len() implies s[k] == p by {
                    if k < t.len() {
                        assert(t[k] == s[k]);
                    }
                }
            } else {
                let k = choose|k: int| 0 <= k < t.len() && t[k] != p;
                assert(s[k] != p);
            }
        } else {
            assert(s[s.len() - 1] != p);
        }
    }
}

/// Every waiting entry is counted under its own hash.
pub proof fn lemma_entry_counted(v: Seq<PendingView>, i: int)
    requires
        0 <= i < v.len(),
    ensures
        pending_count(v, v[i].hash) >= 1,
    decreases v.len(),
{
    if i < v.len() - 1 {
        lemma_entry_counted(v.drop_last(), i);
    }
}

/// Where an entry goes when `p` resolves: among the released blocks if `p`
/// was all it waited for, among the waiting ones otherwise.
pub proof fn lemma_entry_fate(v: Seq<PendingView>, p: BlockHash, i: int)
    requires
        0 <= i < v.len(),
    ensures
        freed_by(v[i], p) ==> occurrences(released_by(v, p), v[i].hash) >= 1,
        !freed_by(v[i], p) ==> pending_count(remaining_after(v, p), v[i].hash) >= 1,
    decreases v.len(),
{
    let t = v.drop_last();
    if i < v.len() - 1 {
        lemma_entry_fate(t, p, i);
        assert(t[i] == v[i]);
    }
    if freed_by(v.last(), p) {
        assert(released_by(v, p).drop_last() == released_by(t, p));
    } else {
        assert(remaining_after(v, p).drop_last() == remaining_after(t, p));
    }
}

/// A waiting block is released exactly once, and only by the resolution of
/// its last outstanding parent: when `p` resolves, a block all of whose
/// outstanding parents are `p` appears once among the released blocks and
/// waits no more; any other block is not released and still waits, once.
pub proof fn lemma_released_exactly_once(v: Seq<PendingView>, p: BlockHash, i: int)
    requires
        well_formed(v),
        0 <= i < v.len(),
    ensures
        freed_by(v[i], p) <==> forall|k: int|
            0 <= k < v[i].outstanding.len() ==> v[i].outstanding[k] == p,
        occurrences(released_by(v, p), v[i].hash) == if freed_by(v[i], p) {
            1nat
        } else {
            0nat
        },
        pending_count(remaining_after(v, p), v[i].hash) == if freed_by(v[i], p) {
            0nat
        } else {
            1nat
        },
{
    let h = v[i].hash;
    lemma_without_empty(v[i].outstanding, p);
    lemma_resolve_conserves(v, p, h);
    lemma_entry_counted(v, i);
    lemma_entry_fate(v, p, i);
    assert(pending_count(v, h) <= 1);
}

/// Counting over a concatenation is counting over both parts.
pub proof fn lemma_occurrences_concat(a: Seq<BlockHash>, b: Seq<BlockHash>, h: BlockHash)
    ensures
        occurrences(a + b, h) == occurrences(a, h) + occurrences(b, h),
    decreases b.len(),
{
    if b.len() > 0 {
        lemma_occurrences_concat(a, b.drop_last(), h);
        assert((a + b).drop_last() == a + b.drop_last());
    } else {
        assert(a + b == a);
    }
}

/// Every block that `dependents_of` names waits for `p`.
pub proof fn lemma_dependents_wait(v: Seq<PendingView>, p: BlockHash)
    ensures
        forall|j: int|
            0 <= j < dependents_of(v, p).len() ==> waits_in(v, #[trigger] dependents_of(v, p)[j], p),
    decreases v.len(),
{
    if v.len() > 0 {
        let t = v.drop_last();
        let d = dependents_of(v, p);
        let dt = dependents_of(t, p);
        lemma_dependents_wait(t, p);
        assert forall|j: int| 0 <= j < d.len() implies waits_in(v, #[trigger] d[j], p) by {
            if j < dt.len() {
                assert(d[j] == dt[j]);
                assert(waits_in(t, dt[j], p));
                let i = choose|i: int|
                    0 <= i < t.len() && (#[trigger] t[i]).hash == dt[j] && t[i].outstanding.contains(
                        p,
                    );
                assert(v[i] == t[i]);
            } else {
                assert(v[v.len() - 1].hash == d[j]);
            }
        }
    }
}

/// Every entry that `independent_of` keeps is an entry of `v` that does not
/// wait for `p`.
pub proof fn lemma_independent_entries(v: Seq<PendingView>, p: BlockHash)
    ensures
        kept_from(independent_of(v, p), v),
        none_waiting(independent_of(v, p), p),
    decreases v.len(),
{
    if v.len() > 0 {
        let t = v.drop_last();
        let r = independent_of(v, p);
        let rt = independent_of(t, p);
        lemma_independent_entries(t, p);
        assert forall|i: int| 0 <= i < r.len() implies v.contains(#[trigger] r[i]) && !r[i]
            .outstanding.contains(p) by {
            if i < rt.len() {
                assert(r[i] == rt[i]);
                assert(t.contains(rt[i]));
                let c = choose|c: int| 0 <= c < t.len() && t[c] == rt[i];
                assert(v[c] == rt[i]);
            } else {
                assert(v[v.len() - 1] == r[i]);
            }
        }
    }
}

/// Failing a parent splits the waiting blocks in two.
pub proof fn lemma_fail_splits(v: Seq<PendingView>, p: BlockHash)
    ensures
        dependents_of(v, p).len() + independent_of(v, p).len() == v.len(),
    decreases v.len(),
{
    if v.len() > 0 {
        lemma_fail_splits(v.drop_last(), p);
    }
}

/// What `without_all` leaves: exactly the hashes of `s` that are not in `ps`.
pub proof fn lemma_without_all_contains(s: Seq<BlockHash>, ps: Seq<BlockHash>, x: BlockHash)
    ensures
        without_all(s, ps).contains(x) <==> s.contains(x) && !ps.contains(x),
    decreases ps.len(),
{
    if ps.len() > 0 {
        let t = ps.drop_last();
        lemma_without_all_contains(s, t, x);
        lemma_without_contains(without_all(s, t), ps.last(), x);
        if ps.contains(x) {
            let k = choose|k: int| 0 <= k < ps.len() && ps[k] == x;
            if k < t.len() {
                assert(t[k] == x);
            }
        }
        if t.contains(x) {
            let k = choose|k: int| 0 <= k < t.len() && t[k] == x;
            assert(ps[k] == x);
        }
        assert(ps[ps.len() - 1] == ps.last());
    }
}

/// Nothing of `s` is left exactly when every hash of `s` is among `ps`.
pub proof fn lemma_without_all_empty(s: Seq<BlockHash>, ps: Seq<BlockHash>)
    ensures
        without_all(s, ps).len() == 0 <==> all_resolved(s, ps),
{
    let w = without_all(s, ps);
    if w.len() > 0 {
        lemma_without_all_contains(s, ps, w[0]);
        assert(w.contains(w[0]));
        let k = choose|k: int| 0 <= k < s.len() && s[k] == w[0];
        assert(!ps.contains(s[k]));
    } else {
        assert forall|k: int| 0 <= k < s.len() implies ps.contains(#[trigger] s[k]) by {
            lemma_without_all_contains(s, ps, s[k]);
            assert(s.contains(s[k]));
            if !ps.contains(s[k]) {
                let j = choose|j: int| 0 <= j < w.len() && w[j] == s[k];
            }
        }
    }
}

/// Resolving parents one after the other keeps the manager's invariant.
pub proof fn lemma_resolve_all_keeps_well_formed(v: Seq<PendingView>, ps: Seq<BlockHash>)
    requires
        well_formed(v),
    ensures
        well_formed(remaining_after_all(v, ps)),
    decreases ps.len(),
{
    if ps.len() > 0 {
        lemma_resolve_all_keeps_well_formed(v, ps.drop_last());
        lemma_resolve_keeps_well_formed(remaining_after_all(v, ps.drop_last()), ps.last());
    }
}

/// Resolving parents one after the other neither loses nor doubles a block.
pub proof fn lemma_resolve_all_conserves(v: Seq<PendingView>, ps: Seq<BlockHash>, h: BlockHash)
    ensures
        occurrences(released_by_all(v, ps), h) + pending_count(remaining_after_all(v, ps), h)
            == pending_count(v, h),
    decreases ps.len(),
{
    if ps.len() > 0 {
        let t = ps.drop_last();
        lemma_resolve_all_conserves(v, t, h);
        lemma_resolve_conserves(remaining_after_all(v, t), ps.last(), h);
        lemma_occurrences_concat(
            released_by_all(v, t),
            released_by(remaining_after_all(v, t), ps.last()),
            h,
        );
    }
}

/// An entry that `p` does not free goes on waiting, without `p`.
pub proof fn lemma_entry_stays(v: Seq<PendingView>, p: BlockHash, i: int)
    requires
        0 <= i < v.len(),
        !freed_by(v[i], p),
    ensures
        remaining_after(v, p).contains(
            PendingView { hash: v[i].hash, outstanding: without(v[i].outstanding, p) },
        ),
    decreases v.len(),
{
    let t = v.drop_last();
    let r = remaining_after(v, p);
    let e = PendingView { hash: v[i].hash, outstanding: without(v[i].outstanding, p) };
    if i < v.len() - 1 {
        lemma_entry_stays(t, p, i);
        assert(t[i] == v[i]);
        let rt = remaining_after(t, p);
        let k = choose|k: int| 0 <= k < rt.len() && rt[k] == e;
        assert(r[k] == e);
    } else {
        assert(r[r.len() - 1] == e);
    }
}

/// A block waits until every parent that it waits for has resolved, and is
/// then released, once: after the parents of `ps` resolved one after the
/// other, a block that waited in `v` was released exactly once if all its
/// outstanding parents are among `ps`, and otherwise was not released and
/// still waits.
pub proof fn lemma_released_once_all_resolved(v: Seq<PendingView>, ps: Seq<BlockHash>, i: int)
    requires
        well_formed(v),
        0 <= i < v.len(),
    ensures
        occurrences(released_by_all(v, ps), v[i].hash) == if all_resolved(v[i].outstanding, ps) {
            1nat
        } else {
            0nat
        },
        pending_count(remaining_after_all(v, ps), v[i].hash) == if all_resolved(
            v[i].outstanding,
            ps,
        ) {
            0nat
        } else {
            1nat
        },
{
    let h = v[i].hash;
    lemma_track_entry(v, ps, i);
    lemma_without_all_empty(v[i].outstanding, ps);
    lemma_resolve_all_conserves(v, ps, h);
    lemma_entry_counted(v, i);
    assert(pending_count(v, h) <= 1);
    let rest = without_all(v[i].outstanding, ps);
    if rest.len() > 0 {
        let r = remaining_after_all(v, ps);
        let e = PendingView { hash: h, outstanding: rest };
        let k = choose|k: int| 0 <= k < r.len() && r[k] == e;
        lemma_entry_counted(r, k);
    }
}

/// Where an entry of `v` is after the parents of `ps` resolved: it waits,
/// without the parents of `ps`, while some parent of its is left, and does
/// not wait once none is.
pub proof fn lemma_track_entry(v: Seq<PendingView>, ps: Seq<BlockHash>, i: int)
    requires
        well_formed(v),
        0 <= i < v.len(),
    ensures
        without_all(v[i].outstanding, ps).len() > 0 ==> remaining_after_all(v, ps).contains(
            PendingView { hash: v[i].hash, outstanding: without_all(v[i].outstanding, ps) },
        ),
        without_all(v[i].outstanding, ps).len() == 0 ==> pending_count(
            remaining_after_all(v, ps),
            v[i].hash,
        ) == 0,
    decreases ps.len(),
{
    let h = v[i].hash;
    if ps.len() == 0 {
        assert(v.contains(v[i]));
        assert(v[i] == (PendingView { hash: h, outstanding: v[i].outstanding }));
    } else {
        let t = ps.drop_last();
        let p = ps.last();
        let w = remaining_after_all(v, t);
        let rest = without_all(v[i].outstanding, t);
        lemma_track_entry(v, t, i);
        lemma_resolve_all_keeps_well_formed(v, t);
        lemma_resolve_conserves(w, p, h);
        if rest.len() > 0 {
            let e = PendingView { hash: h, outstanding: rest };
            let j = choose|j: int| 0 <= j < w.len() && w[j] == e;
            if freed_by(w[j], p) {
                lemma_released_exactly_once(w, p, j);
            } else {
                lemma_entry_stays(w, p, j);
            }
        }
    }
}

} // verus!
