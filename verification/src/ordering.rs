//! A stable sort by rank, shared by the orders that the library keeps:
//! headers by blue work, discovered blocks by timestamp.

use vstd::prelude::*;

verus! {

/// Items that are arranged by a rank.
pub trait Ranked: Copy {
    /// The rank of the item.
    spec fn rank(&self) -> nat;

    /// Whether the rank of `self` is at most that of `other`.
    fn rank_le(&self, other: &Self) -> (r: bool)
        ensures
            r == (self.rank() <= other.rank()),
    ;
}

impl Ranked for u64 {
    open spec fn rank(&self) -> nat {
        *self as nat
    }

    fn rank_le(&self, other: &Self) -> (r: bool) {
        *self <= *other
    }
}

/// The rank never decreases along the sequence.
pub open spec fn ascending_by_rank<T: Ranked>(s: Seq<T>) -> bool {
    forall|i: int, j: int| 0 <= i < j < s.len() ==> s[i].rank() <= s[j].rank()
}

/// Where `e` goes in `s`: right behind the last entry whose rank is at
/// most that of `e`, or in front where there is none.
pub open spec fn insert_index<T: Ranked>(s: Seq<T>, e: T) -> int
    decreases s.len(),
{
    if s.len() == 0 {
        0
    } else if s.last().rank() <= e.rank() {
        s.len() as int
    } else {
        insert_index(s.drop_last(), e)
    }
}

/// The stable ascending arrangement of `s` by rank: entries of equal rank
/// keep their relative order.
pub open spec fn sorted_by_rank<T: Ranked>(s: Seq<T>) -> Seq<T>
    decreases s.len(),
{
    if s.len() == 0 {
        Seq::empty()
    } else {
        let p = sorted_by_rank(s.drop_last());
        p.insert(insert_index(p, s.last()), s.last())
    }
}

/// The insertion index lies within the sequence, everything from it on is
/// of strictly higher rank than `e`, and the entry right before it is not.
pub proof fn lemma_insert_index<T: Ranked>(s: Seq<T>, e: T)
    ensures
        0 <= insert_index(s, e) <= s.len(),
        forall|k: int|
            insert_index(s, e) <= k < s.len() ==> s[k].rank() > e.rank(),
        insert_index(s, e) > 0 ==> s[insert_index(s, e) - 1].rank()
            <= e.rank(),
    decreases s.len(),
{
    if s.len() > 0 && s.last().rank() > e.rank() {
        let t = s.drop_last();
        lemma_insert_index(t, e);
        assert forall|k: int| insert_index(s, e) <= k < s.len() implies s[k].rank()
            > e.rank() by {
            if k < t.len() {
                assert(s[k] == t[k]);
            }
        }
    }
}

/// Sorting keeps the number of entries.
pub proof fn lemma_sorted_len<T: Ranked>(s: Seq<T>)
    ensures
        sorted_by_rank(s).len() == s.len(),
    decreases s.len(),
{
    if s.len() > 0 {
        lemma_sorted_len(s.drop_last());
        lemma_insert_index(sorted_by_rank(s.drop_last()), s.last());
    }
}

/// The sorted arrangement is in non-decreasing order of rank.
pub proof fn lemma_sorted_ascending<T: Ranked>(s: Seq<T>)
    ensures
        ascending_by_rank(sorted_by_rank(s)),
    decreases s.len(),
{
    if s.len() > 0 {
        let p = sorted_by_rank(s.drop_last());
        let e = s.last();
        let idx = insert_index(p, e);
        lemma_sorted_ascending(s.drop_last());
        lemma_insert_index(p, e);
        let q = p.insert(idx, e);
        assert forall|i: int, j: int| 0 <= i < j < q.len() implies q[i].rank()
            <= q[j].rank() by {
            if i < idx {
                assert(q[i] == p[i]);
                assert(p[i].rank() <= p[idx - 1].rank());
            }
            if j > idx {
                assert(q[j] == p[j - 1]);
            }
        }
    }
}

/// The sorted arrangement holds exactly the entries of the input, each as
/// often as the input does.
pub proof fn lemma_sorted_permutation<T: Ranked>(s: Seq<T>)
    ensures
        sorted_by_rank(s).to_multiset() == s.to_multiset(),
    decreases s.len(),
{
    broadcast use vstd::seq_lib::group_to_multiset_ensures;

    if s.len() > 0 {
        let p = sorted_by_rank(s.drop_last());
        let e = s.last();
        let idx = insert_index(p, e);
        lemma_sorted_permutation(s.drop_last());
        lemma_insert_index(p, e);
        let q = p.insert(idx, e);
        assert(q.remove(idx) == p);
        assert(q.to_multiset() == p.to_multiset().insert(e)) by {
            q.to_multiset_ensures();
            assert(q.remove(idx).to_multiset() == q.to_multiset().remove(q[idx]));
            assert(q.to_multiset().count(e) > 0);
            assert(q.to_multiset() =~= q.to_multiset().remove(e).insert(e));
        }
        assert(s.drop_last().push(e) == s);
        assert(s.to_multiset() == s.drop_last().to_multiset().insert(e));
    } else {
        assert(sorted_by_rank(s) == s);
    }
}

/// Arranges the items by ascending rank, items of equal rank in the order in
/// which they came.
pub fn sort_by_rank<T: Ranked>(items: &Vec<T>) -> (out: Vec<T>)
    ensures
        out@ == sorted_by_rank(items@),
        ascending_by_rank(out@),
        out@.to_multiset() == items@.to_multiset(),
        out@.len() == items@.len(),
{
    let mut out: Vec<T> = Vec::new();
    let mut i: usize = 0;
    while i < items.len()
        invariant
            i <= items.len(),
            out@ == sorted_by_rank(items@.take(i as int)),
        decreases items.len() - i,
    {
        let e = items[i];
        proof {
            lemma_sorted_len(items@.take(i as int));
            assert(out@.take(out@.len() as int) == out@);
        }
        let mut j: usize = out.len();
        while j > 0 && !out[j - 1].rank_le(&e)
            invariant
                j <= out.len(),
                insert_index(out@, e) == insert_index(out@.take(j as int), e),
            decreases j,
        {
            proof {
                assert(out@.take(j as int).drop_last() == out@.take(j - 1));
            }
            j -= 1;
        }
        out.insert(j, e);
        proof {
            assert(items@.take(i + 1).drop_last() == items@.take(i as int));
        }
        i += 1;
    }
    proof {
        assert(items@.take(i as int) == items@);
        lemma_sorted_ascending(items@);
        lemma_sorted_permutation(items@);
        lemma_sorted_len(items@);
    }
    out
}

} // verus!
