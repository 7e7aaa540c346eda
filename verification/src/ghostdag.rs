//! Ordering data of a block: the selected parent, the blue/red partition of
//! the mergeset under the k-bound, and the blue score and blue work that
//! follow from it.

use crate::deps::contains_hash;
use crate::ordering::sort_by_rank;
use crate::ordering::sorted_by_rank;
use crate::types::occurrences;
use crate::types::lemma_counts_no_duplicates;
use crate::types::lemma_no_duplicates_counts;
use crate::types::lemma_occurrences_contains;
use crate::types::BlockHash;
use crate::types::BlueWork;
use vstd::prelude::*;

verus! {

/// What the header processor reads of a declared parent.
#[derive(Clone, Copy, Debug, PartialEq, Eq, Structural)]
pub struct ParentInfo {
    pub hash: BlockHash,
    /// The parent's own proof-of-work weight.
    pub work: u64,
    pub blue_work: BlueWork,
    pub blue_score: u64,
}

/// A block of the mergeset other than the selected parent, with its own
/// work and the blocks that the DAG index reports in its anticone.
#[derive(Clone, Debug, PartialEq, Eq)]
pub struct MergesetCandidate {
    pub hash: BlockHash,
    pub work: u64,
    pub anticone: Vec<BlockHash>,
}

/// A mergeset candidate as a mathematical value.
pub struct CandidateView {
    pub hash: BlockHash,
    pub work: u64,
    pub anticone: Seq<BlockHash>,
}

impl View for MergesetCandidate {
    type V = CandidateView;

    open spec fn view(&self) -> CandidateView {
        CandidateView { hash: self.hash, work: self.work, anticone: self.anticone@ }
    }
}

/// The views of a sequence of candidates, in order.
pub open spec fn candidate_views(s: Seq<MergesetCandidate>) -> Seq<CandidateView> {
    Seq::new(s.len(), |i: int| s[i]@)
}

/// The ordering data of an accepted block.
#[derive(Clone, Debug, PartialEq, Eq)]
pub struct GhostdagData {
    pub blue_score: u64,
    pub blue_work: BlueWork,
    pub selected_parent: BlockHash,
    pub mergeset_blues: Vec<BlockHash>,
    pub mergeset_reds: Vec<BlockHash>,
}

/// Why a header's ordering data could not be computed.
#[derive(Clone, Copy, Debug, PartialEq, Eq, Structural)]
pub enum HeaderError {
    /// The header declares no parent.
    NoParents,
    /// The header declares more parents than allowed.
    TooManyParents,
    /// A declared parent carries no work.
    InvalidWork,
    /// The mergeset names a block twice.
    RepeatedMergesetBlock,
    /// The timestamp is not later than the median of the window of past
    /// timestamps.
    TimestampTooEarly,
    /// The timestamp lies further ahead of the clock than tolerated.
    TimestampTooFarAhead,
    /// The cumulative blue work does not fit in 192 bits.
    BlueWorkOverflow,
    /// The blue score does not fit in 64 bits.
    BlueScoreOverflow,
}

/// `a` is a better selected parent than `b`: more blue work, or the same
/// blue work and the greater hash.
pub open spec fn outranks(a: ParentInfo, b: ParentInfo) -> bool {
    a.blue_work.value() > b.blue_work.value() || (a.blue_work.value() == b.blue_work.value()
        && a.hash.value() > b.hash.value())
}

/// The index of the selected parent: the first one that no other outranks.
pub open spec fn selected_index(ps: Seq<ParentInfo>) -> int
    decreases ps.len(),
{
    if ps.len() <= 1 {
        0
    } else {
        let best = selected_index(ps.drop_last());
        if outranks(ps.last(), ps[best]) {
            ps.len() - 1
        } else {
            best
        }
    }
}

/// How many blocks of `blues` lie in `anticone`.
pub open spec fn blue_conflicts(blues: Seq<BlockHash>, anticone: Seq<BlockHash>) -> nat
    decreases blues.len(),
{
    if blues.len() == 0 {
        0
    } else {
        blue_conflicts(blues.drop_last(), anticone) + if anticone.contains(blues.last()) {
            1nat
        } else {
            0nat
        }
    }
}

/// The partition of a mergeset, with the work of its blue blocks.
pub struct Classification {
    pub blues: Seq<BlockHash>,
    pub reds: Seq<BlockHash>,
    pub work: nat,
}

/// Classifies the mergeset. The selected parent is blue. Each candidate in
/// turn is blue if at most `k` of the blocks that are blue so far lie in its
/// anticone, and red otherwise. The work is that of the blue blocks.
pub open spec fn classify(sp: ParentInfo, cands: Seq<CandidateView>, k: u16) -> Classification
    decreases cands.len(),
{
    if cands.len() == 0 {
        Classification { blues: seq![sp.hash], reds: Seq::empty(), work: sp.work as nat }
    } else {
        let c = classify(sp, cands.drop_last(), k);
        let x = cands.last();
        if blue_conflicts(c.blues, x.anticone) <= k {
            Classification { blues: c.blues.push(x.hash), reds: c.reds, work: c.work + (x.work as nat) }
        } else {
            Classification { blues: c.blues, reds: c.reds.push(x.hash), work: c.work }
        }
    }
}

/// The mergeset: the selected parent, then the candidates in order.
pub open spec fn mergeset_hashes(sp: ParentInfo, cands: Seq<CandidateView>) -> Seq<BlockHash>
    decreases cands.len(),
{
    if cands.len() == 0 {
        seq![sp.hash]
    } else {
        mergeset_hashes(sp, cands.drop_last()).push(cands.last().hash)
    }
}

/// Every declared parent carries work.
pub open spec fn parents_carry_work(ps: Seq<ParentInfo>) -> bool {
    forall|i: int| 0 <= i < ps.len() ==> (#[trigger] ps[i]).work > 0
}

/// The error that a header with these parents and this mergeset meets, if any.
pub open spec fn header_error(
    ps: Seq<ParentInfo>,
    cands: Seq<CandidateView>,
    k: u16,
    max_block_parents: u8,
) -> Option<HeaderError> {
    if ps.len() == 0 {
        Some(HeaderError::NoParents)
    } else if ps.len() > max_block_parents {
        Some(HeaderError::TooManyParents)
    } else if !parents_carry_work(ps) {
        Some(HeaderError::InvalidWork)
    } else {
        let sp = ps[selected_index(ps)];
        let c = classify(sp, cands, k);
        if !mergeset_hashes(sp, cands).no_duplicates() {
            Some(HeaderError::RepeatedMergesetBlock)
        } else if sp.blue_work.value() + c.work
            >= 0x1_0000_0000_0000_0000_0000_0000_0000_0000_0000_0000_0000_0000 {
            Some(HeaderError::BlueWorkOverflow)
        } else if sp.blue_score + c.blues.len() > u64::MAX {
            Some(HeaderError::BlueScoreOverflow)
        } else {
            None
        }
    }
}

/// The selected index is a parent that no parent outranks, and it outranks
/// every parent before it.
pub proof fn lemma_selected_index(ps: Seq<ParentInfo>)
    requires
        ps.len() > 0,
    ensures
        0 <= selected_index(ps) < ps.len(),
        forall|j: int| 0 <= j < ps.len() ==> !outranks(ps[j], ps[selected_index(ps)]),
        forall|j: int| 0 <= j < selected_index(ps) ==> outranks(ps[selected_index(ps)], ps[j]),
    decreases ps.len(),
{
    if ps.len() > 1 {
        let t = ps.drop_last();
        lemma_selected_index(t);
        let best = selected_index(t);
        assert(t[best] == ps[best]);
        assert forall|j: int| 0 <= j < ps.len() implies !outranks(ps[j], ps[selected_index(ps)]) by {
            if j < t.len() {
                assert(t[j] == ps[j]);
                assert(!outranks(t[j], t[best]));
            }
        }
        assert forall|j: int| 0 <= j < selected_index(ps) implies outranks(
            ps[selected_index(ps)],
            ps[j],
        ) by {
            assert(t[j] == ps[j]);
            if j < best {
                assert(outranks(t[best], t[j]));
            } else if j > best {
                assert(!outranks(t[j], t[best]));
            }
        }
    }
}

/// The mergeset by position: the selected parent first, then each candidate.
pub proof fn lemma_mergeset_index(sp: ParentInfo, cands: Seq<CandidateView>)
    ensures
        mergeset_hashes(sp, cands).len() == cands.len() + 1,
        mergeset_hashes(sp, cands)[0] == sp.hash,
        forall|j: int| 0 <= j < cands.len() ==> mergeset_hashes(sp, cands)[j + 1] == cands[j].hash,
    decreases cands.len(),
{
    if cands.len() > 0 {
        let t = cands.drop_last();
        lemma_mergeset_index(sp, t);
        assert forall|j: int| 0 <= j < cands.len() implies mergeset_hashes(sp, cands)[j + 1]
            == cands[j].hash by {
            if j < t.len() {
                assert(t[j] == cands[j]);
            }
        }
    }
}

/// The selected parent is blue, and the work of the blues is at least its own.
pub proof fn lemma_classify_basics(sp: ParentInfo, cands: Seq<CandidateView>, k: u16)
    ensures
        classify(sp, cands, k).blues.len() >= 1,
        classify(sp, cands, k).blues[0] == sp.hash,
        classify(sp, cands, k).work >= sp.work,
        classify(sp, cands, k).blues.len() + classify(sp, cands, k).reds.len() == cands.len() + 1,
        mergeset_hashes(sp, cands).len() == cands.len() + 1,
    decreases cands.len(),
{
    if cands.len() > 0 {
        lemma_classify_basics(sp, cands.drop_last(), k);
    }
}

/// Blues and reds partition the mergeset: every hash is counted among the
/// blues and the reds together exactly as often as in the mergeset.
pub proof fn lemma_mergeset_partition(
    sp: ParentInfo,
    cands: Seq<CandidateView>,
    k: u16,
    h: BlockHash,
)
    ensures
        occurrences(classify(sp, cands, k).blues, h) + occurrences(classify(sp, cands, k).reds, h)
            == occurrences(mergeset_hashes(sp, cands), h),
    decreases cands.len(),
{
    if cands.len() > 0 {
        let t = cands.drop_last();
        lemma_mergeset_partition(sp, t, k, h);
        let c = classify(sp, t, k);
        let x = cands.last();
        assert(mergeset_hashes(sp, cands).drop_last() == mergeset_hashes(sp, t));
        if blue_conflicts(c.blues, x.anticone) <= k {
            assert(c.blues.push(x.hash).drop_last() == c.blues);
        } else {
            assert(c.reds.push(x.hash).drop_last() == c.reds);
        }
    } else {
        let one = seq![sp.hash];
        assert(one.drop_last() == Seq::<BlockHash>::empty());
        assert(occurrences(one.drop_last(), h) == 0);
        assert(occurrences(Seq::<BlockHash>::empty(), h) == 0);
    }
}

/// In a mergeset that names no block twice, no block is both blue and red,
/// and the blues and reds together are exactly the mergeset.
pub proof fn lemma_blues_reds_disjoint_and_complete(
    sp: ParentInfo,
    cands: Seq<CandidateView>,
    k: u16,
)
    requires
        forall|h: BlockHash| #[trigger] occurrences(mergeset_hashes(sp, cands), h) <= 1,
    ensures
        forall|h: BlockHash|
            !(classify(sp, cands, k).blues.contains(h) && classify(sp, cands, k).reds.contains(h)),
        forall|h: BlockHash|
            mergeset_hashes(sp, cands).contains(h) <==> (classify(sp, cands, k).blues.contains(h)
                || classify(sp, cands, k).reds.contains(h)),
        classify(sp, cands, k).blues.len() + classify(sp, cands, k).reds.len() == mergeset_hashes(
            sp,
            cands,
        ).len(),
{
    let c = classify(sp, cands, k);
    let m = mergeset_hashes(sp, cands);
    lemma_classify_basics(sp, cands, k);
    assert forall|h: BlockHash| !(c.blues.contains(h) && c.reds.contains(h)) by {
        lemma_mergeset_partition(sp, cands, k, h);
        lemma_occurrences_contains(c.blues, h);
        lemma_occurrences_contains(c.reds, h);
        assert(occurrences(m, h) <= 1);
    }
    assert forall|h: BlockHash|
        m.contains(h) <==> (c.blues.contains(h) || c.reds.contains(h)) by {
        lemma_mergeset_partition(sp, cands, k, h);
        lemma_occurrences_contains(c.blues, h);
        lemma_occurrences_contains(c.reds, h);
        lemma_occurrences_contains(m, h);
    }
}

/// Picks the selected parent: the one with the most blue work, the greater
/// hash deciding between equals.
pub fn select_parent(parents: &Vec<ParentInfo>) -> (best: usize)
    requires
        parents@.len() > 0,
    ensures
        best == selected_index(parents@),
        best < parents@.len(),
        forall|j: int| 0 <= j < parents@.len() ==> !outranks(parents@[j], parents@[best as int]),
{
    let mut best: usize = 0;
    let mut i: usize = 1;
    assert(parents@.take(1).len() == 1);
    while i < parents.len()
        invariant
            1 <= i <= parents.len(),
            best < i,
            best == selected_index(parents@.take(i as int)),
        decreases parents.len() - i,
    {
        proof {
            assert(parents@.take(i + 1).drop_last() == parents@.take(i as int));
        }
        let a = parents[i];
        let b = parents[best];
        if b.blue_work.lt(&a.blue_work) || (!a.blue_work.lt(&b.blue_work) && b.hash.lt(&a.hash)) {
            best = i;
        }
        i += 1;
    }
    proof {
        assert(parents@.take(i as int) == parents@);
        lemma_selected_index(parents@);
    }
    best
}

/// Counts the blocks of `blues` that lie in `anticone`.
pub fn count_blue_conflicts(blues: &Vec<BlockHash>, anticone: &Vec<BlockHash>) -> (n: usize)
    ensures
        n == blue_conflicts(blues@, anticone@),
        n <= blues@.len(),
{
    let mut n: usize = 0;
    let mut i: usize = 0;
    while i < blues.len()
        invariant
            i <= blues.len(),
            n <= i,
            n == blue_conflicts(blues@.take(i as int), anticone@),
        decreases blues.len() - i,
    {
        proof {
            assert(blues@.take(i + 1).drop_last() == blues@.take(i as int));
        }
        if contains_hash(anticone, blues[i]) {
            n += 1;
        }
        i += 1;
    }
    assert(blues@.take(i as int) == blues@);
    n
}

/// Computes the ordering data of a block from its declared parents and its
/// mergeset. The parent with the most blue work is selected, the greater hash
/// deciding between equals. A mergeset that names a block twice is refused.
/// The selected parent is blue; each candidate of
/// the mergeset, in order, is blue if at most `k` of the blocks that are blue
/// so far lie in its anticone, and red otherwise. The blue score is the
/// selected parent's plus the number of blues, the blue work the selected
/// parent's plus the work of the blues, so it lies strictly above the
/// selected parent's.
pub fn ghostdag(
    parents: &Vec<ParentInfo>,
    mergeset: &Vec<MergesetCandidate>,
    k: u16,
    max_block_parents: u8,
) -> (r: Result<GhostdagData, HeaderError>)
    ensures
        r is Err <==> header_error(parents@, candidate_views(mergeset@), k, max_block_parents)
            is Some,
        r is Err ==> Some(r->Err_0) == header_error(
            parents@,
            candidate_views(mergeset@),
            k,
            max_block_parents,
        ),
        r is Ok ==> ({
            let sp = parents@[selected_index(parents@)];
            let c = classify(sp, candidate_views(mergeset@), k);
            let d = r->Ok_0;
            &&& d.selected_parent == sp.hash
            &&& d.mergeset_blues@ == c.blues
            &&& d.mergeset_reds@ == c.reds
            &&& d.blue_score == sp.blue_score + c.blues.len()
            &&& d.blue_work.value() == sp.blue_work.value() + c.work
            &&& d.blue_work.value() > sp.blue_work.value()
            &&& d.mergeset_blues@.len() + d.mergeset_reds@.len() == mergeset@.len() + 1
            &&& d.mergeset_blues@.no_duplicates()
            &&& d.mergeset_reds@.no_duplicates()
            &&& forall|h: BlockHash|
                !(d.mergeset_blues@.contains(h) && d.mergeset_reds@.contains(h))
            &&& forall|h: BlockHash|
                mergeset_hashes(sp, candidate_views(mergeset@)).contains(h) <==> (
                d.mergeset_blues@.contains(h) || d.mergeset_reds@.contains(h))
        }),
{
    if parents.len() == 0 {
        return Err(HeaderError::NoParents);
    }
    if parents.len() > max_block_parents as usize {
        return Err(HeaderError::TooManyParents);
    }
    let mut p: usize = 0;
    while p < parents.len()
        invariant
            p <= parents.len(),
            0 < parents.len() <= max_block_parents,
            forall|i: int| 0 <= i < p ==> (#[trigger] parents@[i]).work > 0,
        decreases parents.len() - p,
    {
        if parents[p].work == 0 {
            assert(!(parents@[p as int].work > 0));
            return Err(HeaderError::InvalidWork);
        }
        p += 1;
    }
    let s = select_parent(parents);
    let sp = parents[s];
    let ghost views = candidate_views(mergeset@);
    let mut seen: Vec<BlockHash> = Vec::new();
    seen.push(sp.hash);
    let mut c: usize = 0;
    proof {
        assert(views.take(0).len() == 0);
        assert(seen@ == seq![sp.hash]);
    }
    while c < mergeset.len()
        invariant
            c <= mergeset.len(),
            0 < parents.len() <= max_block_parents,
            parents_carry_work(parents@),
            sp == parents@[selected_index(parents@)],
            views == candidate_views(mergeset@),
            seen@ == mergeset_hashes(sp, views.take(c as int)),
            seen@.no_duplicates(),
        decreases mergeset.len() - c,
    {
        proof {
            assert(views.take(c + 1).drop_last() == views.take(c as int));
            assert(views.take(c + 1).last() == mergeset@[c as int]@);
        }
        if contains_hash(&seen, mergeset[c].hash) {
            proof {
                let whole = mergeset_hashes(sp, views);
                lemma_mergeset_index(sp, views);
                lemma_mergeset_index(sp, views.take(c as int));
                let k = choose|k: int| 0 <= k < seen@.len() && seen@[k] == mergeset@[c as int].hash;
                if k > 0 {
                    assert(views.take(c as int)[k - 1] == views[k - 1]);
                }
                assert(whole[k] == whole[c + 1]);
            }
            return Err(HeaderError::RepeatedMergesetBlock);
        }
        seen.push(mergeset[c].hash);
        c += 1;
    }
    proof {
        assert(views.take(c as int) == views);
    }
    let mut blues: Vec<BlockHash> = Vec::new();
    blues.push(sp.hash);
    let mut reds: Vec<BlockHash> = Vec::new();
    let mut acc: Option<BlueWork> = sp.blue_work.checked_add_u64(sp.work);
    let mut i: usize = 0;
    proof {
        assert(blues@ == seq![sp.hash]);
        assert(views.take(0).len() == 0);
    }
    while i < mergeset.len()
        invariant
            i <= mergeset.len(),
            views == candidate_views(mergeset@),
            blues@ == classify(sp, views.take(i as int), k).blues,
            reds@ == classify(sp, views.take(i as int), k).reds,
            acc is Some ==> acc->Some_0.value() == sp.blue_work.value() + classify(
                sp,
                views.take(i as int),
                k,
            ).work,
            acc is None ==> sp.blue_work.value() + classify(sp, views.take(i as int), k).work
                >= 0x1_0000_0000_0000_0000_0000_0000_0000_0000_0000_0000_0000_0000,
        decreases mergeset.len() - i,
    {
        proof {
            assert(views.take(i + 1).drop_last() == views.take(i as int));
            assert(views.take(i + 1).last() == mergeset@[i as int]@);
        }
        let conflicts = count_blue_conflicts(&blues, &mergeset[i].anticone);
        if conflicts <= k as usize {
            blues.push(mergeset[i].hash);
            acc = match acc {
                Some(w) => w.checked_add_u64(mergeset[i].work),
                None => None,
            };
        } else {
            reds.push(mergeset[i].hash);
        }
        i += 1;
    }
    proof {
        assert(views.take(i as int) == views);
        lemma_classify_basics(sp, views, k);
        let m = mergeset_hashes(sp, views);
        assert forall|h: BlockHash| #[trigger] occurrences(m, h) <= 1 by {
            lemma_no_duplicates_counts(m, h);
        }
        lemma_blues_reds_disjoint_and_complete(sp, views, k);
        assert forall|h: BlockHash| #[trigger] occurrences(blues@, h) <= 1 by {
            lemma_mergeset_partition(sp, views, k, h);
            assert(occurrences(m, h) <= 1);
        }
        assert forall|h: BlockHash| #[trigger] occurrences(reds@, h) <= 1 by {
            lemma_mergeset_partition(sp, views, k, h);
            assert(occurrences(m, h) <= 1);
        }
        lemma_counts_no_duplicates(blues@);
        lemma_counts_no_duplicates(reds@);
    }
    match acc {
        None => Err(HeaderError::BlueWorkOverflow),
        Some(blue_work) => {
            let n: u64 = blues.len() as u64;
            if n > u64::MAX - sp.blue_score {
                Err(HeaderError::BlueScoreOverflow)
            } else {
                Ok(
                    GhostdagData {
                        blue_score: sp.blue_score + n,
                        blue_work,
                        selected_parent: sp.hash,
                        mergeset_blues: blues,
                        mergeset_reds: reds,
                    },
                )
            }
        },
    }
}

/// The median of a window of timestamps: the middle one in ascending order,
/// the upper of the two middle ones where their number is even.
pub open spec fn median_of(window: Seq<u64>) -> u64
    recommends
        window.len() > 0,
{
    sorted_by_rank(window)[(window.len() / 2) as int]
}

/// The error that a header's timestamp meets, if any: it must be later than
/// the median of the window of past timestamps, where there is one, and at
/// most `tolerance` ahead of `now`.
pub open spec fn timestamp_error(timestamp: u64, window: Seq<u64>, now: u64, tolerance: u64) -> Option<
    HeaderError,
> {
    if window.len() > 0 && timestamp <= median_of(window) {
        Some(HeaderError::TimestampTooEarly)
    } else if timestamp > now + tolerance {
        Some(HeaderError::TimestampTooFarAhead)
    } else {
        None
    }
}

/// The median of a non-empty window of timestamps.
pub fn past_median_time(window: &Vec<u64>) -> (m: u64)
    requires
        window@.len() > 0,
    ensures
        m == median_of(window@),
{
    let sorted = sort_by_rank(window);
    sorted[window.len() / 2]
}

/// Checks a header's timestamp against the median of the window of past
/// timestamps and against the clock.
pub fn check_timestamp(timestamp: u64, window: &Vec<u64>, now: u64, tolerance: u64) -> (r: Result<
    (),
    HeaderError,
>)
    ensures
        r is Err <==> timestamp_error(timestamp, window@, now, tolerance) is Some,
        r is Err ==> Some(r->Err_0) == timestamp_error(timestamp, window@, now, tolerance),
{
    if window.len() > 0 && timestamp <= past_median_time(window) {
        return Err(HeaderError::TimestampTooEarly);
    }
    if timestamp > now && timestamp - now > tolerance {
        return Err(HeaderError::TimestampTooFarAhead);
    }
    Ok(())
}

} // verus!
