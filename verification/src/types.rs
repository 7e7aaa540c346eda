//! Plain value types shared by the pipeline stages: block hashes and
//! cumulative blue work.

use vstd::prelude::*;

verus! {

/// A 256-bit block identity, held as four 64-bit words, most significant first.
/// Word-wise lexicographic order is the byte-wise lexicographic order of the
/// 32-byte big-endian encoding.
#[derive(Clone, Copy, Debug, PartialEq, Eq, Structural, Hash)]
pub struct BlockHash {
    pub w0: u64,
    pub w1: u64,
    pub w2: u64,
    pub w3: u64,
}

/// Cumulative proof-of-work weight along the blue chain: an unsigned 192-bit
/// integer held as three 64-bit limbs.
#[derive(Clone, Copy, Debug, PartialEq, Eq, Structural, Hash)]
pub struct BlueWork {
    pub hi: u64,
    pub mid: u64,
    pub lo: u64,
}

impl BlockHash {
    /// The hash as a natural number.
    pub open spec fn value(self) -> nat {
        (self.w0 as nat) * 0x1_0000_0000_0000_0000_0000_0000_0000_0000_0000_0000_0000_0000
            + (self.w1 as nat) * 0x1_0000_0000_0000_0000_0000_0000_0000_0000
            + (self.w2 as nat) * 0x1_0000_0000_0000_0000
            + (self.w3 as nat)
    }

    /// Builds a hash whose low word is `word` and whose other words are zero.
    pub fn from_u64_word(word: u64) -> (h: BlockHash)
        ensures
            h.value() == word,
            h == (BlockHash { w0: 0, w1: 0, w2: 0, w3: word }),
    {
        BlockHash { w0: 0, w1: 0, w2: 0, w3: word }
    }

    /// Strict numeric order on hashes.
    pub fn lt(&self, other: &BlockHash) -> (r: bool)
        ensures
            r == (self.value() < other.value()),
    {
        if self.w0 != other.w0 {
            self.w0 < other.w0
        } else if self.w1 != other.w1 {
            self.w1 < other.w1
        } else if self.w2 != other.w2 {
            self.w2 < other.w2
        } else {
            self.w3 < other.w3
        }
    }
}

impl BlueWork {
    /// The blue work as a natural number.
    pub open spec fn value(self) -> nat {
        (self.hi as nat) * 0x1_0000_0000_0000_0000_0000_0000_0000_0000
            + (self.mid as nat) * 0x1_0000_0000_0000_0000
            + (self.lo as nat)
    }

    /// Blue work that fits in one limb.
    pub fn from_u64(work: u64) -> (w: BlueWork)
        ensures
            w.value() == work,
            w == (BlueWork { hi: 0, mid: 0, lo: work }),
    {
        BlueWork { hi: 0, mid: 0, lo: work }
    }

    /// Numeric `<=`.
    pub fn le(&self, other: &BlueWork) -> (r: bool)
        ensures
            r == (self.value() <= other.value()),
    {
        if self.hi != other.hi {
            self.hi < other.hi
        } else if self.mid != other.mid {
            self.mid < other.mid
        } else {
            self.lo <= other.lo
        }
    }

    /// Numeric `<`.
    pub fn lt(&self, other: &BlueWork) -> (r: bool)
        ensures
            r == (self.value() < other.value()),
    {
        if self.hi != other.hi {
            self.hi < other.hi
        } else if self.mid != other.mid {
            self.mid < other.mid
        } else {
            self.lo < other.lo
        }
    }

    /// Adds the work of one block; `None` where the sum does not fit in 192 bits.
    pub fn checked_add_u64(&self, work: u64) -> (r: Option<BlueWork>)
        ensures
            r is Some <==> self.value() + work
                < 0x1_0000_0000_0000_0000_0000_0000_0000_0000_0000_0000_0000_0000,
            r is Some ==> r->Some_0.value() == self.value() + work,
    {
        if work <= u64::MAX - self.lo {
            let lo: u64 = self.lo + work;
            return Some(BlueWork { hi: self.hi, mid: self.mid, lo });
        }
        let lo: u64 = work - (u64::MAX - self.lo) - 1;
        if self.mid < u64::MAX {
            let mid: u64 = self.mid + 1;
            return Some(BlueWork { hi: self.hi, mid, lo });
        }
        if self.hi < u64::MAX {
            let hi: u64 = self.hi + 1;
            return Some(BlueWork { hi, mid: 0, lo });
        }
        None
    }
}

/// How often `h` occurs in `s`.
pub open spec fn occurrences(s: Seq<BlockHash>, h: BlockHash) -> nat
    decreases s.len(),
{
    if s.len() == 0 {
        0
    } else {
        occurrences(s.drop_last(), h) + if s.last() == h {
            1nat
        } else {
            0nat
        }
    }
}

/// A hash occurs in a sequence exactly when it is counted there.
pub proof fn lemma_occurrences_contains(s: Seq<BlockHash>, h: BlockHash)
    ensures
        occurrences(s, h) > 0 <==> s.contains(h),
    decreases s.len(),
{
    if s.len() > 0 {
        let t = s.drop_last();
        lemma_occurrences_contains(t, h);
        if s.last() == h {
            assert(s[s.len() - 1] == h);
        } else {
            if t.contains(h) {
                let k = choose|k: int| 0 <= k < t.len() && t[k] == h;
                assert(s[k] == h);
            }
            if s.contains(h) {
                let k = choose|k: int| 0 <= k < s.len() && s[k] == h;
                assert(t[k] == h);
            }
        }
    }
}

/// In a sequence that names no hash twice, every hash is counted at most once.
pub proof fn lemma_no_duplicates_counts(s: Seq<BlockHash>, h: BlockHash)
    requires
        s.no_duplicates(),
    ensures
        occurrences(s, h) <= 1,
    decreases s.len(),
{
    if s.len() > 0 {
        let t = s.drop_last();
        assert forall|i: int, j: int| 0 <= i < t.len() && 0 <= j < t.len() && i != j implies t[i]
            != t[j] by {
            assert(t[i] == s[i] && t[j] == s[j]);
        }
        lemma_no_duplicates_counts(t, h);
        if s.last() == h {
            lemma_occurrences_contains(t, h);
            if t.contains(h) {
                let k = choose|k: int| 0 <= k < t.len() && t[k] == h;
                assert(s[k] == s[s.len() - 1]);
            }
        }
    }
}

/// A sequence in which every hash is counted at most once names no hash twice.
pub proof fn lemma_counts_no_duplicates(s: Seq<BlockHash>)
    requires
        forall|h: BlockHash| #[trigger] occurrences(s, h) <= 1,
    ensures
        s.no_duplicates(),
    decreases s.len(),
{
    if s.len() > 0 {
        let t = s.drop_last();
        assert forall|h: BlockHash| #[trigger] occurrences(t, h) <= 1 by {
            assert(occurrences(s, h) <= 1);
        }
        lemma_counts_no_duplicates(t);
        lemma_occurrences_contains(t, s.last());
        assert(occurrences(s, s.last()) <= 1);
        assert forall|i: int, j: int| 0 <= i < s.len() && 0 <= j < s.len() && i != j implies s[i]
            != s[j] by {
            if i < t.len() && j < t.len() {
                assert(t[i] == s[i] && t[j] == s[j]);
            } else if i < t.len() {
                if s[i] == s[j] {
                    assert(t[i] == s.last());
                    assert(t.contains(s.last()));
                }
            } else {
                if s[i] == s[j] {
                    assert(t[j] == s.last());
                    assert(t.contains(s.last()));
                }
            }
        }
    }
}

} // verus!
