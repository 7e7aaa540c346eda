//! Lock-free, increment-only counters of the pipeline and their snapshots.

use std::sync::atomic::AtomicU64;
use std::sync::atomic::Ordering;
use vstd::prelude::*;

verus! {

/// Monotonic counters that the pipeline stages bump while they work.
#[derive(Default)]
pub struct ProcessingCounters {
    pub blocks_submitted: AtomicU64,
    pub header_counts: AtomicU64,
    pub dep_counts: AtomicU64,
    pub body_counts: AtomicU64,
    pub txs_counts: AtomicU64,
    pub chain_block_counts: AtomicU64,
    pub mass_counts: AtomicU64,
}

/// The counters at one point in time.
#[derive(Clone, Copy, Debug, PartialEq, Eq, Structural)]
pub struct ProcessingCountersSnapshot {
    pub blocks_submitted: u64,
    pub header_counts: u64,
    pub dep_counts: u64,
    pub body_counts: u64,
    pub txs_counts: u64,
    pub chain_block_counts: u64,
    pub mass_counts: u64,
}

impl ProcessingCounters {
    /// Counts one submitted block.
    pub fn record_submitted(&self) {
        self.blocks_submitted.fetch_add(1, Ordering::Relaxed);
    }

    /// Counts one processed header with its dependencies.
    pub fn record_header(&self, dependencies: u64) {
        self.header_counts.fetch_add(1, Ordering::Relaxed);
        self.dep_counts.fetch_add(dependencies, Ordering::Relaxed);
    }

    /// Counts one accepted body with its transactions.
    pub fn record_body(&self, transactions: u64) {
        self.body_counts.fetch_add(1, Ordering::Relaxed);
        self.txs_counts.fetch_add(transactions, Ordering::Relaxed);
    }

    /// Counts the blocks that joined the selected chain and the mass applied.
    pub fn record_chain_update(&self, chain_blocks: u64, mass: u64) {
        self.chain_block_counts.fetch_add(chain_blocks, Ordering::Relaxed);
        self.mass_counts.fetch_add(mass, Ordering::Relaxed);
    }

    /// Reads every counter with relaxed ordering and puts each value read
    /// into the field of the same name. Other threads may bump the counters
    /// at any moment, so nothing is stated of the values read.
    pub fn snapshot(&self) -> (s: ProcessingCountersSnapshot) {
        ProcessingCountersSnapshot::from_counts(
            self.blocks_submitted.load(Ordering::Relaxed),
            self.header_counts.load(Ordering::Relaxed),
            self.dep_counts.load(Ordering::Relaxed),
            self.body_counts.load(Ordering::Relaxed),
            self.txs_counts.load(Ordering::Relaxed),
            self.chain_block_counts.load(Ordering::Relaxed),
            self.mass_counts.load(Ordering::Relaxed),
        )
    }
}

impl ProcessingCountersSnapshot {
    /// The snapshot that holds the seven counts, each in its own field, in
    /// the order in which the counters are declared.
    pub fn from_counts(
        blocks_submitted: u64,
        header_counts: u64,
        dep_counts: u64,
        body_counts: u64,
        txs_counts: u64,
        chain_block_counts: u64,
        mass_counts: u64,
    ) -> (s: ProcessingCountersSnapshot)
        ensures
            s == (ProcessingCountersSnapshot {
                blocks_submitted,
                header_counts,
                dep_counts,
                body_counts,
                txs_counts,
                chain_block_counts,
                mass_counts,
            }),
    {
        ProcessingCountersSnapshot {
            blocks_submitted,
            header_counts,
            dep_counts,
            body_counts,
            txs_counts,
            chain_block_counts,
            mass_counts,
        }
    }

    /// `self` is field by field at or above `earlier`: the two are in
    /// chronological order.
    pub open spec fn covers(self, earlier: ProcessingCountersSnapshot) -> bool {
        &&& self.blocks_submitted >= earlier.blocks_submitted
        &&& self.header_counts >= earlier.header_counts
        &&& self.dep_counts >= earlier.dep_counts
        &&& self.body_counts >= earlier.body_counts
        &&& self.txs_counts >= earlier.txs_counts
        &&& self.chain_block_counts >= earlier.chain_block_counts
        &&& self.mass_counts >= earlier.mass_counts
    }

    /// The window between `earlier` and `self`, field by field.
    pub open spec fn window(self, earlier: ProcessingCountersSnapshot) -> ProcessingCountersSnapshot
        recommends
            self.covers(earlier),
    {
        ProcessingCountersSnapshot {
            blocks_submitted: (self.blocks_submitted - earlier.blocks_submitted) as u64,
            header_counts: (self.header_counts - earlier.header_counts) as u64,
            dep_counts: (self.dep_counts - earlier.dep_counts) as u64,
            body_counts: (self.body_counts - earlier.body_counts) as u64,
            txs_counts: (self.txs_counts - earlier.txs_counts) as u64,
            chain_block_counts: (self.chain_block_counts - earlier.chain_block_counts) as u64,
            mass_counts: (self.mass_counts - earlier.mass_counts) as u64,
        }
    }

    /// Whether `self` is at or above `earlier` in every field.
    pub fn is_after(&self, earlier: &ProcessingCountersSnapshot) -> (r: bool)
        ensures
            r == self.covers(*earlier),
    {
        self.blocks_submitted >= earlier.blocks_submitted
            && self.header_counts >= earlier.header_counts
            && self.dep_counts >= earlier.dep_counts
            && self.body_counts >= earlier.body_counts
            && self.txs_counts >= earlier.txs_counts
            && self.chain_block_counts >= earlier.chain_block_counts
            && self.mass_counts >= earlier.mass_counts
    }

    /// The window between two snapshots, or `None` where they are not in
    /// chronological order.
    pub fn checked_sub(&self, earlier: &ProcessingCountersSnapshot) -> (r: Option<
        ProcessingCountersSnapshot,
    >)
        ensures
            r is Some <==> self.covers(*earlier),
            r is Some ==> r->Some_0 == self.window(*earlier),
    {
        if self.is_after(earlier) {
            Some(
                ProcessingCountersSnapshot {
                    blocks_submitted: self.blocks_submitted - earlier.blocks_submitted,
                    header_counts: self.header_counts - earlier.header_counts,
                    dep_counts: self.dep_counts - earlier.dep_counts,
                    body_counts: self.body_counts - earlier.body_counts,
                    txs_counts: self.txs_counts - earlier.txs_counts,
                    chain_block_counts: self.chain_block_counts - earlier.chain_block_counts,
                    mass_counts: self.mass_counts - earlier.mass_counts,
                },
            )
        } else {
            None
        }
    }
}

impl<'a> core::ops::Sub for &'a ProcessingCountersSnapshot {
    type Output = ProcessingCountersSnapshot;

    /// The difference of two snapshots taken in chronological order.
    fn sub(self, rhs: Self) -> (out: ProcessingCountersSnapshot) {
        ProcessingCountersSnapshot {
            blocks_submitted: self.blocks_submitted - rhs.blocks_submitted,
            header_counts: self.header_counts - rhs.header_counts,
            dep_counts: self.dep_counts - rhs.dep_counts,
            body_counts: self.body_counts - rhs.body_counts,
            txs_counts: self.txs_counts - rhs.txs_counts,
            chain_block_counts: self.chain_block_counts - rhs.chain_block_counts,
            mass_counts: self.mass_counts - rhs.mass_counts,
        }
    }
}

impl<'a> vstd::std_specs::ops::SubSpecImpl for &'a ProcessingCountersSnapshot {
    open spec fn obeys_sub_spec() -> bool {
        true
    }

    open spec fn sub_req(self, rhs: Self) -> bool {
        self.covers(*rhs)
    }

    open spec fn sub_spec(self, rhs: Self) -> ProcessingCountersSnapshot {
        self.window(*rhs)
    }
}

/// A snapshot minus itself is all zeros.
pub proof fn lemma_window_of_self_is_zero(s: ProcessingCountersSnapshot)
    ensures
        s.covers(s),
        s.window(s) == (ProcessingCountersSnapshot {
            blocks_submitted: 0,
            header_counts: 0,
            dep_counts: 0,
            body_counts: 0,
            txs_counts: 0,
            chain_block_counts: 0,
            mass_counts: 0,
        }),
{
}

/// Windows over consecutive intervals add up: for snapshots `a <= b <= c`,
/// each field of `c - a` is the sum of that field in `c - b` and `b - a`.
pub proof fn lemma_windows_add_up(
    a: ProcessingCountersSnapshot,
    b: ProcessingCountersSnapshot,
    c: ProcessingCountersSnapshot,
)
    requires
        b.covers(a),
        c.covers(b),
    ensures
        c.covers(a),
        c.window(a).blocks_submitted == c.window(b).blocks_submitted + b.window(a).blocks_submitted,
        c.window(a).header_counts == c.window(b).header_counts + b.window(a).header_counts,
        c.window(a).dep_counts == c.window(b).dep_counts + b.window(a).dep_counts,
        c.window(a).body_counts == c.window(b).body_counts + b.window(a).body_counts,
        c.window(a).txs_counts == c.window(b).txs_counts + b.window(a).txs_counts,
        c.window(a).chain_block_counts == c.window(b).chain_block_counts + b.window(
            a,
        ).chain_block_counts,
        c.window(a).mass_counts == c.window(b).mass_counts + b.window(a).mass_counts,
{
}

} // verus!
