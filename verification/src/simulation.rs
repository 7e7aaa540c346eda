//! The integer decisions of a simulation run that drives the pipeline:
//! how command-line choices shape the consensus and performance parameters,
//! how a validation run is cut into chunks, and what it sums up.

use crate::deps::contains_hash;
use crate::ordering::ascending_by_rank;
use crate::ordering::lemma_sorted_len;
use crate::ordering::lemma_sorted_permutation;
use crate::ordering::sort_by_rank;
use crate::ordering::sorted_by_rank;
use crate::ordering::Ranked;
use crate::pruning::anticone_finalization_depth;
use crate::pruning::anticone_finalization_depth_spec;
use crate::types::BlockHash;
use vstd::prelude::*;

verus! {

/// The sizes of the worker pools.
#[derive(Clone, Copy, Debug, PartialEq, Eq, Structural)]
pub struct PerfParams {
    pub block_processors_num_threads: usize,
    pub virtual_processor_num_threads: usize,
}

/// The consensus parameters that a simulation run adjusts.
#[derive(Clone, Copy, Debug, PartialEq, Eq, Structural)]
pub struct ConsensusParams {
    pub max_block_level: u8,
    pub genesis_timestamp: u64,
    pub ghostdag_k: u16,
    pub mergeset_size_limit: u64,
    pub max_block_parents: u8,
    pub target_time_per_block: u64,
    pub coinbase_maturity: u64,
    pub sampling_activation_daa_score: u64,
    pub past_median_time_sample_rate: u64,
    pub new_timestamp_deviation_tolerance: u64,
    pub difficulty_sample_rate: u64,
    pub pruning_proof_m: u64,
    pub legacy_difficulty_window_size: usize,
    pub legacy_timestamp_deviation_tolerance: u64,
    pub finality_depth: u64,
    pub merge_depth: u64,
    pub pruning_depth: u64,
}

/// What the block rate and the network delay call for, where their product
/// is large enough to call for anything. The values are products of the
/// block rate, which the caller computes.
#[derive(Clone, Copy, Debug, PartialEq, Eq, Structural)]
pub struct Scaling {
    /// The k that bounds the anticone size for this rate and delay.
    pub k: u64,
    /// Two thirds of the effective k.
    pub parents_for_k: u8,
    pub target_time_per_block: u64,
    pub merge_depth: u64,
    pub coinbase_maturity: u64,
    /// The legacy windows, scaled by the block rate.
    pub legacy_timestamp_deviation_tolerance: u64,
    pub legacy_difficulty_window_size: usize,
    /// The sampled windows, scaled by the block rate.
    pub past_median_time_sample_rate: u64,
    pub new_timestamp_deviation_tolerance: u64,
    pub difficulty_sample_rate: u64,
}

/// Overrides each pool size for which a thread count was given.
pub fn apply_args_to_perf_params(
    processors_threads: Option<usize>,
    virtual_threads: Option<usize>,
    perf_params: &mut PerfParams,
)
    ensures
        final(perf_params).block_processors_num_threads == match processors_threads {
            Some(n) => n,
            None => old(perf_params).block_processors_num_threads,
        },
        final(perf_params).virtual_processor_num_threads == match virtual_threads {
            Some(n) => n,
            None => old(perf_params).virtual_processor_num_threads,
        },
{
    if let Some(processors_pool_threads) = processors_threads {
        perf_params.block_processors_num_threads = processors_pool_threads;
    }
    if let Some(virtual_pool_threads) = virtual_threads {
        perf_params.virtual_processor_num_threads = virtual_pool_threads;
    }
}

/// The k that a run uses where the network delay calls for `scaled_k`: the
/// larger of `scaled_k` and the configured k, clamped to 16 bits.
pub open spec fn effective_k(scaled_k: u64, configured_k: u16) -> u16 {
    if scaled_k <= configured_k {
        configured_k
    } else if scaled_k >= 0xffff {
        0xffff
    } else {
        scaled_k as u16
    }
}

/// Computes `effective_k`.
pub fn effective_k_of(scaled_k: u64, configured_k: u16) -> (k: u16)
    ensures
        k == effective_k(scaled_k, configured_k),
{
    if scaled_k <= configured_k as u64 {
        configured_k
    } else if scaled_k >= u16::MAX as u64 {
        u16::MAX
    } else {
        scaled_k as u16
    }
}

/// The scaling to apply: none with the parameters of the fixed test network,
/// which are taken as they are, and the wanted one otherwise.
pub fn scaling_to_apply(testnet11: bool, wanted: Option<Scaling>) -> (r: Option<Scaling>)
    ensures
        testnet11 ==> r is None,
        !testnet11 ==> r == wanted,
{
    if testnet11 {
        None
    } else {
        wanted
    }
}

/// The parameters after scaling: k is `effective_k`, the mergeset size
/// limit ten times k, the parent limit `parents_for_k` but at least ten, and
/// target time, merge depth and coinbase maturity are the scaled ones. With
/// the legacy windows, sampling never activates and the two legacy windows
/// are the scaled ones; the sample rates stay. Otherwise sampling is active
/// from the start and the three sampled values are the scaled ones; the
/// legacy windows stay.
pub open spec fn params_scaled(s: Scaling, daa_legacy: bool, before: ConsensusParams) -> ConsensusParams {
    let common = ConsensusParams {
        ghostdag_k: effective_k(s.k, before.ghostdag_k),
        mergeset_size_limit: (effective_k(s.k, before.ghostdag_k) * 10) as u64,
        max_block_parents: if s.parents_for_k >= 10 {
            s.parents_for_k
        } else {
            10
        },
        target_time_per_block: s.target_time_per_block,
        merge_depth: s.merge_depth,
        coinbase_maturity: s.coinbase_maturity,
        ..before
    };
    if daa_legacy {
        ConsensusParams {
            sampling_activation_daa_score: 0xffff_ffff_ffff_ffff,
            legacy_timestamp_deviation_tolerance: s.legacy_timestamp_deviation_tolerance,
            legacy_difficulty_window_size: s.legacy_difficulty_window_size,
            ..common
        }
    } else {
        ConsensusParams {
            sampling_activation_daa_score: 0,
            past_median_time_sample_rate: s.past_median_time_sample_rate,
            new_timestamp_deviation_tolerance: s.new_timestamp_deviation_tolerance,
            difficulty_sample_rate: s.difficulty_sample_rate,
            ..common
        }
    }
}

/// The parameters of a run. The block level is capped one under the
/// maximum and the genesis timestamp is zero. Where the delay calls for
/// scaling, the parameters are scaled as `params_scaled` says. A pruning
/// test then shortens the depths and sets the pruning depth to the anticone
/// finalization depth of the shortened parameters.
pub open spec fn params_after(
    scaling: Option<Scaling>,
    daa_legacy: bool,
    test_pruning: bool,
    before: ConsensusParams,
) -> ConsensusParams {
    let based = ConsensusParams { max_block_level: 254, genesis_timestamp: 0, ..before };
    let scaled = match scaling {
        Some(s) => params_scaled(s, daa_legacy, based),
        None => based,
    };
    if test_pruning {
        ConsensusParams {
            pruning_proof_m: 16,
            legacy_difficulty_window_size: 64,
            legacy_timestamp_deviation_tolerance: 16,
            finality_depth: 128,
            merge_depth: 128,
            mergeset_size_limit: 32,
            pruning_depth: anticone_finalization_depth_spec(
                128,
                128,
                32,
                scaled.ghostdag_k,
                scaled.pruning_depth,
            ) as u64,
            ..scaled
        }
    } else {
        scaled
    }
}

/// Shapes the consensus parameters of a run. `scaling` holds what the
/// product of block rate and delay calls for, where it calls for anything;
/// `daa_legacy` chooses the legacy full windows over the sampled ones.
pub fn apply_args_to_consensus_params(
    scaling: Option<Scaling>,
    daa_legacy: bool,
    test_pruning: bool,
    params: &mut ConsensusParams,
)
    ensures
        *final(params) == params_after(scaling, daa_legacy, test_pruning, *old(params)),
{
    params.max_block_level = u8::MAX - 1;
    params.genesis_timestamp = 0;
    if let Some(s) = scaling {
        let k: u16 = effective_k_of(s.k, params.ghostdag_k);
        params.ghostdag_k = k;
        params.mergeset_size_limit = k as u64 * 10;
        params.max_block_parents = if s.parents_for_k >= 10 {
            s.parents_for_k
        } else {
            10
        };
        params.target_time_per_block = s.target_time_per_block;
        params.merge_depth = s.merge_depth;
        params.coinbase_maturity = s.coinbase_maturity;
        if daa_legacy {
            params.sampling_activation_daa_score = u64::MAX;
            params.legacy_timestamp_deviation_tolerance = s.legacy_timestamp_deviation_tolerance;
            params.legacy_difficulty_window_size = s.legacy_difficulty_window_size;
        } else {
            params.sampling_activation_daa_score = 0;
            params.past_median_time_sample_rate = s.past_median_time_sample_rate;
            params.new_timestamp_deviation_tolerance = s.new_timestamp_deviation_tolerance;
            params.difficulty_sample_rate = s.difficulty_sample_rate;
        }
    }
    if test_pruning {
        params.pruning_proof_m = 16;
        params.legacy_difficulty_window_size = 64;
        params.legacy_timestamp_deviation_tolerance = 16;
        params.finality_depth = 128;
        params.merge_depth = 128;
        params.mergeset_size_limit = 32;
        params.pruning_depth = anticone_finalization_depth(
            params.finality_depth,
            params.merge_depth,
            params.mergeset_size_limit,
            params.ghostdag_k,
            params.pruning_depth,
        );
    }
}

/// The time at which a run ends, in milliseconds: `sim_time` seconds after
/// genesis, or never where a target number of blocks is set. `None` where
/// the time does not fit in 64 bits.
pub fn simulation_deadline(target_blocks: Option<u64>, genesis_timestamp: u64, sim_time: u64) -> (r:
    Option<u64>)
    ensures
        target_blocks is Some ==> r == Some(u64::MAX),
        target_blocks is None ==> (r is Some <==> genesis_timestamp + sim_time * 1000 <= u64::MAX),
        target_blocks is None && r is Some ==> r->Some_0 == genesis_timestamp + sim_time * 1000,
{
    if target_blocks.is_some() {
        return Some(u64::MAX);
    }
    if sim_time > u64::MAX / 1000 {
        return None;
    }
    let span: u64 = sim_time * 1000;
    if span > u64::MAX - genesis_timestamp {
        None
    } else {
        Some(genesis_timestamp + span)
    }
}

/// The number of chunks of `size` items that `len` items fall into, the
/// last one possibly shorter.
pub open spec fn chunk_count(len: int, size: int) -> int {
    if len % size == 0 {
        len / size
    } else {
        len / size + 1
    }
}

/// Cuts `len` items into consecutive chunks of `size` items, the last one
/// possibly shorter: chunk `i` runs from `i * size` up to, not including,
/// `(i + 1) * size` or `len`, whichever is less.
pub fn chunk_bounds(len: usize, size: usize) -> (bounds: Vec<(usize, usize)>)
    requires
        size > 0,
    ensures
        bounds@.len() == chunk_count(len as int, size as int),
        forall|i: int|
            0 <= i < bounds@.len() ==> (#[trigger] bounds@[i]).0 == i * size && bounds@[i].1 == if (
            i + 1) * size <= len {
                (i + 1) * size
            } else {
                len as int
            },
{
    let mut bounds: Vec<(usize, usize)> = Vec::new();
    let mut start: usize = 0;
    assert(chunk_count(0, size as int) == 0);
    assert(0 * size == 0);
    while start < len
        invariant
            size > 0,
            start <= len,
            start == len ==> bounds@.len() == chunk_count(len as int, size as int),
            start < len ==> start == bounds@.len() * size,
            forall|i: int|
                0 <= i < bounds@.len() ==> (#[trigger] bounds@[i]).0 == i * size && bounds@[i].1
                    == if (i + 1) * size <= len {
                    (i + 1) * size
                } else {
                    len as int
                },
        decreases len - start,
    {
        let ghost n = bounds@.len() as int;
        let end: usize = if size <= len - start {
            start + size
        } else {
            len
        };
        proof {
            assert((n + 1) * size == n * size + size) by (nonlinear_arith);
            if end == len {
                lemma_chunk_count(len as int, size as int, n);
            }
        }
        bounds.push((start, end));
        start = end;
    }
    bounds
}

/// Where `n` full chunks lie under `len` and one more reaches or passes it,
/// the number of chunks is `n + 1`.
pub proof fn lemma_chunk_count(len: int, size: int, n: int)
    requires
        size > 0,
        n >= 0,
        n * size < len <= (n + 1) * size,
    ensures
        chunk_count(len, size) == n + 1,
{
    assert((n + 1) * size == n * size + size) by (nonlinear_arith);
    if len == (n + 1) * size {
        vstd::arithmetic::div_mod::lemma_fundamental_div_mod_converse(len, size, n + 1, 0);
    } else {
        vstd::arithmetic::div_mod::lemma_fundamental_div_mod_converse(
            len,
            size,
            n,
            len - n * size,
        );
    }
}

/// The sum of the counts.
pub open spec fn total_count(counts: Seq<usize>) -> nat
    decreases counts.len(),
{
    if counts.len() == 0 {
        0
    } else {
        total_count(counts.drop_last()) + (counts.last() as nat)
    }
}

/// The sum of a prefix is at most the sum of the whole.
pub proof fn lemma_count_of_prefix(counts: Seq<usize>, n: int)
    requires
        0 <= n <= counts.len(),
    ensures
        total_count(counts.take(n)) <= total_count(counts),
    decreases counts.len() - n,
{
    if n < counts.len() {
        lemma_count_of_prefix(counts, n + 1);
        assert(counts.take(n + 1).drop_last() == counts.take(n));
    } else {
        assert(counts.take(n) == counts);
    }
}

/// Sums per-block counts, such as the transactions of each block; `None`
/// where the sum does not fit the machine word.
pub fn sum_counts(counts: &Vec<usize>) -> (r: Option<usize>)
    ensures
        r is Some <==> total_count(counts@) <= usize::MAX,
        r is Some ==> r->Some_0 == total_count(counts@),
{
    let mut sum: usize = 0;
    let mut i: usize = 0;
    while i < counts.len()
        invariant
            i <= counts.len(),
            sum == total_count(counts@.take(i as int)),
        decreases counts.len() - i,
    {
        proof {
            assert(counts@.take(i + 1).drop_last() == counts@.take(i as int));
            lemma_count_of_prefix(counts@, i + 1);
        }
        if counts[i] > usize::MAX - sum {
            return None;
        }
        sum = sum + counts[i];
        i += 1;
    }
    assert(counts@.take(i as int) == counts@);
    Some(sum)
}

/// A discovered block with the timestamp of its header.
#[derive(Clone, Copy, Debug, PartialEq, Eq, Structural)]
pub struct TimedHash {
    pub hash: BlockHash,
    pub timestamp: u64,
}

/// `order` followed by each block of `children` that is neither in `order`
/// nor earlier in `children`.
pub open spec fn extend_unique(order: Seq<BlockHash>, children: Seq<BlockHash>) -> Seq<BlockHash>
    decreases children.len(),
{
    if children.len() == 0 {
        order
    } else {
        let o = extend_unique(order, children.drop_last());
        if o.contains(children.last()) {
            o
        } else {
            o.push(children.last())
        }
    }
}

/// Extending keeps what was there, in place, adds no block twice, and
/// leaves no child out.
pub proof fn lemma_extend_unique(order: Seq<BlockHash>, children: Seq<BlockHash>)
    requires
        order.no_duplicates(),
    ensures
        extend_unique(order, children).no_duplicates(),
        order.len() <= extend_unique(order, children).len(),
        forall|i: int| 0 <= i < order.len() ==> extend_unique(order, children)[i] == order[i],
        forall|i: int|
            0 <= i < children.len() ==> extend_unique(order, children).contains(children[i]),
        forall|i: int|
            order.len() <= i < extend_unique(order, children).len() ==> children.contains(
                extend_unique(order, children)[i],
            ),
    decreases children.len(),
{
    if children.len() > 0 {
        let t = children.drop_last();
        let o = extend_unique(order, t);
        let r = extend_unique(order, children);
        lemma_extend_unique(order, t);
        assert forall|i: int| order.len() <= i < r.len() implies children.contains(r[i]) by {
            if i < o.len() {
                assert(t.contains(o[i]));
                let k = choose|k: int| 0 <= k < t.len() && t[k] == o[i];
                assert(children[k] == r[i]);
            } else {
                assert(children[children.len() - 1] == r[i]);
            }
        }
        assert forall|i: int| 0 <= i < children.len() implies r.contains(children[i]) by {
            if i < t.len() {
                assert(o.contains(t[i]));
                let k = choose|k: int| 0 <= k < o.len() && o[k] == t[i];
                assert(r[k] == children[i]);
            } else if !o.contains(children.last()) {
                assert(r[o.len() as int] == children.last());
            }
        }
    }
}

/// A walk as a mathematical value.
pub struct WalkView {
    pub genesis: BlockHash,
    pub started: bool,
    pub order: Seq<BlockHash>,
    pub head: int,
}

/// The block that the walk hands out next, if any.
pub open spec fn handed_out(w: WalkView) -> Option<BlockHash> {
    if !w.started {
        Some(w.genesis)
    } else if 0 <= w.head < w.order.len() {
        Some(w.order[w.head])
    } else {
        None
    }
}

/// The walk after it handed out its next block.
pub open spec fn after_next(w: WalkView) -> WalkView {
    if !w.started {
        WalkView { started: true, ..w }
    } else if 0 <= w.head < w.order.len() {
        WalkView { head: w.head + 1, ..w }
    } else {
        w
    }
}

/// The walk after these children were reported.
pub open spec fn after_discover(w: WalkView, children: Seq<BlockHash>) -> WalkView {
    WalkView { order: extend_unique(w.order, children), ..w }
}

/// One round of the walk over the relation `children`: the next block is
/// handed out and its children are reported. A finished walk stays.
pub open spec fn round(children: spec_fn(BlockHash) -> Seq<BlockHash>, w: WalkView) -> WalkView {
    match handed_out(w) {
        Some(current) => after_discover(after_next(w), children(current)),
        None => w,
    }
}

/// Genesis was handed out, and so was every block found.
pub open spec fn finished(w: WalkView) -> bool {
    w.started && w.head == w.order.len()
}

/// `path` leads down from `g`: its first block is a child of `g`, and each
/// further block is a child of the one before it.
pub open spec fn leads_down(
    children: spec_fn(BlockHash) -> Seq<BlockHash>,
    g: BlockHash,
    path: Seq<BlockHash>,
) -> bool {
    &&& path.len() > 0
    &&& children(g).contains(path[0])
    &&& forall|i: int| 0 <= i < path.len() - 1 ==> children(#[trigger] path[i]).contains(path[i + 1])
}

/// `x` is a strict descendant of `g`: some path leads down from `g` to `x`.
pub open spec fn is_descendant(
    children: spec_fn(BlockHash) -> Seq<BlockHash>,
    g: BlockHash,
    x: BlockHash,
) -> bool {
    exists|path: Seq<BlockHash>| #[trigger] leads_down(children, g, path) && path.last() == x
}

/// What holds of a walk between two rounds: no block was found twice; every
/// block found is a strict descendant of genesis; and the children of every
/// block handed out were found.
pub open spec fn walk_invariant(children: spec_fn(BlockHash) -> Seq<BlockHash>, w: WalkView) -> bool {
    &&& w.order.no_duplicates()
    &&& 0 <= w.head <= w.order.len()
    &&& (!w.started ==> w.head == 0 && w.order.len() == 0)
    &&& forall|i: int|
        0 <= i < w.order.len() ==> is_descendant(children, w.genesis, #[trigger] w.order[i])
    &&& (w.started ==> forall|c: BlockHash| #[trigger]
        children(w.genesis).contains(c) ==> w.order.contains(c))
    &&& forall|q: int, c: BlockHash|
        0 <= q < w.head && #[trigger] children(w.order[q]).contains(c) ==> w.order.contains(c)
}

/// A fresh walk meets the invariant.
pub proof fn lemma_fresh_walk(children: spec_fn(BlockHash) -> Seq<BlockHash>, genesis: BlockHash)
    ensures
        walk_invariant(
            children,
            WalkView { genesis, started: false, order: Seq::empty(), head: 0 },
        ),
{
}

/// A child of a descendant, and a child of genesis, is a descendant.
pub proof fn lemma_child_descends(
    children: spec_fn(BlockHash) -> Seq<BlockHash>,
    g: BlockHash,
    parent: BlockHash,
    x: BlockHash,
)
    requires
        children(parent).contains(x),
        parent == g || is_descendant(children, g, parent),
    ensures
        is_descendant(children, g, x),
{
    if parent == g {
        let path = seq![x];
        assert(path[0] == x);
        assert(leads_down(children, g, path));
        assert(path.last() == x);
    } else {
        let p = choose|p: Seq<BlockHash>| #[trigger] leads_down(children, g, p) && p.last() == parent;
        let path = p.push(x);
        assert(path[0] == p[0]);
        assert forall|i: int| 0 <= i < path.len() - 1 implies children(#[trigger] path[i]).contains(
            path[i + 1],
        ) by {
            if i < p.len() - 1 {
                assert(path[i] == p[i] && path[i + 1] == p[i + 1]);
            } else {
                assert(path[i] == parent && path[i + 1] == x);
            }
        }
        assert(leads_down(children, g, path));
        assert(path.last() == x);
    }
}

/// A round keeps the invariant of the walk.
pub proof fn lemma_round_keeps_invariant(children: spec_fn(BlockHash) -> Seq<BlockHash>, w: WalkView)
    requires
        walk_invariant(children, w),
    ensures
        walk_invariant(children, round(children, w)),
{
    if handed_out(w) is Some {
        let current = handed_out(w)->Some_0;
        let kids = children(current);
        let r = round(children, w);
        lemma_extend_unique(w.order, kids);
        assert forall|c: BlockHash| w.order.contains(c) implies r.order.contains(c) by {
            let k = choose|k: int| 0 <= k < w.order.len() && w.order[k] == c;
            assert(r.order[k] == c);
        }
        assert forall|i: int| 0 <= i < r.order.len() implies is_descendant(
            children,
            r.genesis,
            #[trigger] r.order[i],
        ) by {
            if i < w.order.len() {
                assert(r.order[i] == w.order[i]);
            } else {
                assert(kids.contains(r.order[i]));
                lemma_child_descends(children, w.genesis, current, r.order[i]);
            }
        }
        assert forall|c: BlockHash| #[trigger] children(r.genesis).contains(c) implies r.order.contains(
            c,
        ) by {
            if w.started {
                assert(w.order.contains(c));
            } else {
                let k = choose|k: int| 0 <= k < kids.len() && kids[k] == c;
                assert(r.order.contains(kids[k]));
            }
        }
        assert forall|q: int, c: BlockHash|
            0 <= q < r.head && #[trigger] children(r.order[q]).contains(c) implies r.order.contains(
            c,
        ) by {
            assert(r.order[q] == w.order[q]);
            if q < w.head {
                assert(w.order.contains(c));
            } else {
                let k = choose|k: int| 0 <= k < kids.len() && kids[k] == c;
                assert(r.order.contains(kids[k]));
            }
        }
    }
}

/// In a finished walk, the last block of every path that leads down from
/// genesis was found.
pub proof fn lemma_path_was_found(
    children: spec_fn(BlockHash) -> Seq<BlockHash>,
    w: WalkView,
    path: Seq<BlockHash>,
)
    requires
        walk_invariant(children, w),
        finished(w),
        leads_down(children, w.genesis, path),
    ensures
        w.order.contains(path.last()),
    decreases path.len(),
{
    if path.len() > 1 {
        let p = path.drop_last();
        assert(p[0] == path[0]);
        assert forall|i: int| 0 <= i < p.len() - 1 implies children(#[trigger] p[i]).contains(
            p[i + 1],
        ) by {
            assert(p[i] == path[i] && p[i + 1] == path[i + 1]);
        }
        lemma_path_was_found(children, w, p);
        let q = choose|q: int| 0 <= q < w.order.len() && w.order[q] == p.last();
        assert(p.last() == path[path.len() - 2]);
        assert(children(path[path.len() - 2]).contains(path[path.len() - 2 + 1]));
        assert(children(w.order[q]).contains(path.last()));
    }
}

/// What a finished walk holds: the blocks found are exactly the strict
/// descendants of genesis, each once. A block with several parents is there
/// once; genesis is there only if it descends from itself.
pub proof fn lemma_finished_walk(children: spec_fn(BlockHash) -> Seq<BlockHash>, w: WalkView)
    requires
        walk_invariant(children, w),
        finished(w),
    ensures
        w.order.no_duplicates(),
        forall|x: BlockHash| w.order.contains(x) <==> is_descendant(children, w.genesis, x),
{
    assert forall|x: BlockHash| w.order.contains(x) <==> is_descendant(
        children,
        w.genesis,
        x,
    ) by {
        if w.order.contains(x) {
            let k = choose|k: int| 0 <= k < w.order.len() && w.order[k] == x;
            assert(is_descendant(children, w.genesis, w.order[k]));
        }
        if is_descendant(children, w.genesis, x) {
            let path = choose|path: Seq<BlockHash>| #[trigger]
                leads_down(children, w.genesis, path) && path.last() == x;
            lemma_path_was_found(children, w, path);
        }
    }
}

/// A breadth-first walk over the DAG from genesis towards the tips. The
/// caller looks up the children of each block that `next` hands out and
/// reports them with `discover`.
pub struct Traversal {
    pub genesis: BlockHash,
    /// Whether genesis was handed out.
    pub started: bool,
    /// The blocks found so far, in the order in which they were found.
    pub order: Vec<BlockHash>,
    /// How many blocks of `order` were handed out.
    pub head: usize,
}

impl View for Traversal {
    type V = WalkView;

    open spec fn view(&self) -> WalkView {
        WalkView {
            genesis: self.genesis,
            started: self.started,
            order: self.order@,
            head: self.head as int,
        }
    }
}

impl Traversal {
    /// No block was found twice, and only found blocks were handed out.
    pub open spec fn wf(&self) -> bool {
        &&& self.order@.no_duplicates()
        &&& self.head <= self.order@.len()
        &&& !self.started ==> self.head == 0
    }

    /// A walk that has found nothing yet.
    pub fn new(genesis: BlockHash) -> (t: Traversal)
        ensures
            t.wf(),
            t.genesis == genesis,
            !t.started,
            t.head == 0,
            t.order@ == Seq::<BlockHash>::empty(),
    {
        Traversal { genesis, started: false, order: Vec::new(), head: 0 }
    }

    /// The next block whose children are wanted: genesis first, then the
    /// found blocks in the order in which they were found; `None` when every
    /// found block was handed out.
    pub fn next(&mut self) -> (r: Option<BlockHash>)
        requires
            old(self).wf(),
        ensures
            final(self).wf(),
            r == handed_out(old(self)@),
            r is None <==> finished(old(self)@),
            final(self)@ == after_next(old(self)@),
            final(self).genesis == old(self).genesis,
            final(self).order@ == old(self).order@,
            final(self).started,
            !old(self).started ==> r == Some(old(self).genesis) && final(self).head == 0,
            old(self).started && old(self).head < old(self).order@.len() ==> r == Some(
                old(self).order@[old(self).head as int],
            ) && final(self).head == old(self).head + 1,
            old(self).started && old(self).head == old(self).order@.len() ==> r is None
                && final(self).head == old(self).head,
    {
        if !self.started {
            self.started = true;
            Some(self.genesis)
        } else if self.head < self.order.len() {
            let h = self.order[self.head];
            self.head = self.head + 1;
            Some(h)
        } else {
            None
        }
    }

    /// Records the children of the block handed out last: each one that was
    /// not found before is appended to the found blocks.
    pub fn discover(&mut self, children: &Vec<BlockHash>)
        requires
            old(self).wf(),
        ensures
            final(self).wf(),
            final(self)@ == after_discover(old(self)@, children@),
            final(self).genesis == old(self).genesis,
            final(self).started == old(self).started,
            final(self).head == old(self).head,
            final(self).order@ == extend_unique(old(self).order@, children@),
    {
        let mut i: usize = 0;
        while i < children.len()
            invariant
                i <= children.len(),
                self.genesis == old(self).genesis,
                self.started == old(self).started,
                self.head == old(self).head,
                old(self).wf(),
                self.order@ == extend_unique(old(self).order@, children@.take(i as int)),
            decreases children.len() - i,
        {
            proof {
                assert(children@.take(i + 1).drop_last() == children@.take(i as int));
            }
            if !contains_hash(&self.order, children[i]) {
                self.order.push(children[i]);
            }
            i += 1;
        }
        proof {
            assert(children@.take(i as int) == children@);
            lemma_extend_unique(old(self).order@, children@);
        }
    }
}

/// The hashes of the blocks, in order.
pub open spec fn hashes_of(s: Seq<TimedHash>) -> Seq<BlockHash> {
    Seq::new(s.len(), |i: int| s[i].hash)
}

/// Arranging by timestamp keeps the blocks: an entry is there after it
/// exactly if it was there before.
pub proof fn lemma_sorted_entries(found: Seq<TimedHash>, e: TimedHash)
    ensures
        sorted_by_timestamp(found).contains(e) <==> found.contains(e),
{
    lemma_sorted_permutation(found);
    vstd::seq_lib::to_multiset_contains(found, e);
    vstd::seq_lib::to_multiset_contains(sorted_by_timestamp(found), e);
}

/// Arranging by timestamp keeps which hashes there are, and names no hash
/// twice where the input names none twice.
pub proof fn lemma_sorted_hashes(found: Seq<TimedHash>)
    ensures
        forall|h: BlockHash|
            hashes_of(sorted_by_timestamp(found)).contains(h) <==> hashes_of(found).contains(h),
        hashes_of(found).no_duplicates() ==> hashes_of(sorted_by_timestamp(found)).no_duplicates(),
{
    let sorted = sorted_by_timestamp(found);
    let hs = hashes_of(sorted);
    let hf = hashes_of(found);
    lemma_sorted_len(found);
    assert forall|h: BlockHash| hs.contains(h) <==> hf.contains(h) by {
        if hs.contains(h) {
            let i = choose|i: int| 0 <= i < hs.len() && hs[i] == h;
            lemma_sorted_entries(found, sorted[i]);
            assert(sorted.contains(sorted[i]));
            let k = choose|k: int| 0 <= k < found.len() && found[k] == sorted[i];
            assert(hf[k] == h);
        }
        if hf.contains(h) {
            let k = choose|k: int| 0 <= k < hf.len() && hf[k] == h;
            lemma_sorted_entries(found, found[k]);
            assert(found.contains(found[k]));
            let i = choose|i: int| 0 <= i < sorted.len() && sorted[i] == found[k];
            assert(hs[i] == h);
        }
    }
    if hf.no_duplicates() {
        assert forall|a: int, b: int| 0 <= a < found.len() && 0 <= b < found.len() && a != b implies found[a]
            != found[b] by {
            assert(hf[a] != hf[b]);
        }
        found.lemma_multiset_has_no_duplicates();
        lemma_sorted_permutation(found);
        sorted.lemma_multiset_has_no_duplicates_conv();
        assert forall|i: int, j: int| 0 <= i < hs.len() && 0 <= j < hs.len() && i != j implies hs[i]
            != hs[j] by {
            assert(sorted[i] != sorted[j]);
            lemma_sorted_entries(found, sorted[i]);
            lemma_sorted_entries(found, sorted[j]);
            assert(sorted.contains(sorted[i]) && sorted.contains(sorted[j]));
            let a = choose|a: int| 0 <= a < found.len() && found[a] == sorted[i];
            let b = choose|b: int| 0 <= b < found.len() && found[b] == sorted[j];
            assert(hf[a] == hs[i] && hf[b] == hs[j]);
        }
    }
}

/// The blocks that a walk found, ordered for replay: by ascending timestamp,
/// blocks of equal timestamp in the order in which they were found. The
/// result holds the hashes of the blocks found and no other, and names none
/// twice where the walk found none twice.
pub fn topologically_ordered_hashes(found: &Vec<TimedHash>) -> (out: Vec<BlockHash>)
    ensures
        out@ == hashes_of(sorted_by_timestamp(found@)),
        out@.len() == found@.len(),
        ascending_by_timestamp(sorted_by_timestamp(found@)),
        forall|h: BlockHash| out@.contains(h) <==> hashes_of(found@).contains(h),
        hashes_of(found@).no_duplicates() ==> out@.no_duplicates(),
{
    proof {
        lemma_sorted_hashes(found@);
    }
    let sorted = sort_by_timestamp(found);
    let mut out: Vec<BlockHash> = Vec::new();
    let mut i: usize = 0;
    while i < sorted.len()
        invariant
            i <= sorted.len(),
            out@.len() == i,
            forall|j: int| 0 <= j < i ==> out@[j] == sorted@[j].hash,
        decreases sorted.len() - i,
    {
        out.push(sorted[i].hash);
        i += 1;
    }
    assert(out@ =~= hashes_of(sorted@));
    out
}

/// Timestamps never decrease along the sequence.
pub open spec fn ascending_by_timestamp(s: Seq<TimedHash>) -> bool {
    forall|i: int, j: int| 0 <= i < j < s.len() ==> s[i].timestamp <= s[j].timestamp
}

impl Ranked for TimedHash {
    open spec fn rank(&self) -> nat {
        self.timestamp as nat
    }

    fn rank_le(&self, other: &Self) -> (r: bool) {
        self.timestamp <= other.timestamp
    }
}

/// The stable ascending arrangement of `s` by timestamp: entries of equal
/// timestamp keep their relative order.
pub open spec fn sorted_by_timestamp(s: Seq<TimedHash>) -> Seq<TimedHash> {
    sorted_by_rank(s)
}

/// Arranges blocks by ascending timestamp, blocks of equal timestamp in the
/// order in which they came.
pub fn sort_by_timestamp(blocks: &Vec<TimedHash>) -> (out: Vec<TimedHash>)
    ensures
        out@ == sorted_by_timestamp(blocks@),
        ascending_by_timestamp(out@),
        out@.to_multiset() == blocks@.to_multiset(),
        out@.len() == blocks@.len(),
{
    let out = sort_by_rank(blocks);
    assert(ascending_by_timestamp(out@)) by {
        assert(ascending_by_rank(out@));
    }
    out
}

} // verus!
