use block_pipeline::simulation::apply_args_to_consensus_params;
use block_pipeline::simulation::apply_args_to_perf_params;
use block_pipeline::simulation::chunk_bounds;
use block_pipeline::simulation::simulation_deadline;
use block_pipeline::simulation::sort_by_timestamp;
use block_pipeline::simulation::sum_counts;
use block_pipeline::simulation::topologically_ordered_hashes;
use block_pipeline::simulation::TimedHash;
use block_pipeline::simulation::Traversal;
use block_pipeline::types::BlockHash;
use block_pipeline::simulation::effective_k_of;
use block_pipeline::simulation::scaling_to_apply;
use block_pipeline::simulation::ConsensusParams;
use block_pipeline::simulation::Scaling;
use block_pipeline::simulation::PerfParams;

fn base() -> ConsensusParams {
    ConsensusParams {
        max_block_level: 225,
        genesis_timestamp: 1_700_000_000_000,
        ghostdag_k: 18,
        mergeset_size_limit: 180,
        max_block_parents: 10,
        target_time_per_block: 1000,
        coinbase_maturity: 100,
        sampling_activation_daa_score: 5,
        past_median_time_sample_rate: 10,
        new_timestamp_deviation_tolerance: 600,
        difficulty_sample_rate: 2,
        pruning_proof_m: 1000,
        legacy_difficulty_window_size: 2641,
        legacy_timestamp_deviation_tolerance: 132,
        finality_depth: 86400,
        merge_depth: 3600,
        pruning_depth: 185798,
    }
}

#[test]
fn perf_params_take_given_thread_counts() {
    let mut p = PerfParams { block_processors_num_threads: 4, virtual_processor_num_threads: 8 };
    apply_args_to_perf_params(None, None, &mut p);
    assert_eq!(p, PerfParams { block_processors_num_threads: 4, virtual_processor_num_threads: 8 });
    apply_args_to_perf_params(Some(2), None, &mut p);
    assert_eq!(p, PerfParams { block_processors_num_threads: 2, virtual_processor_num_threads: 8 });
    apply_args_to_perf_params(None, Some(16), &mut p);
    assert_eq!(p, PerfParams { block_processors_num_threads: 2, virtual_processor_num_threads: 16 });
}

fn scaling(k: u64) -> Scaling {
    Scaling {
        k,
        parents_for_k: 26,
        target_time_per_block: 500,
        merge_depth: 7200,
        coinbase_maturity: 200,
        legacy_timestamp_deviation_tolerance: 264,
        legacy_difficulty_window_size: 5282,
        past_median_time_sample_rate: 20,
        new_timestamp_deviation_tolerance: 1200,
        difficulty_sample_rate: 4,
    }
}

#[test]
fn consensus_params_base_adjustment() {
    let mut p = base();
    apply_args_to_consensus_params(None, false, false, &mut p);
    assert_eq!(p, ConsensusParams { max_block_level: 254, genesis_timestamp: 0, ..base() });
    let mut q = base();
    apply_args_to_consensus_params(None, true, false, &mut q);
    assert_eq!(q, p);
}

#[test]
fn consensus_params_scaled_with_sampled_windows() {
    let mut p = base();
    apply_args_to_consensus_params(Some(scaling(40)), false, false, &mut p);
    assert_eq!(
        p,
        ConsensusParams {
            max_block_level: 254,
            genesis_timestamp: 0,
            ghostdag_k: 40,
            mergeset_size_limit: 400,
            max_block_parents: 26,
            target_time_per_block: 500,
            coinbase_maturity: 200,
            sampling_activation_daa_score: 0,
            past_median_time_sample_rate: 20,
            new_timestamp_deviation_tolerance: 1200,
            difficulty_sample_rate: 4,
            merge_depth: 7200,
            ..base()
        }
    );
}

#[test]
fn consensus_params_scaled_with_legacy_windows() {
    let mut p = base();
    apply_args_to_consensus_params(Some(scaling(40)), true, false, &mut p);
    assert_eq!(
        p,
        ConsensusParams {
            max_block_level: 254,
            genesis_timestamp: 0,
            ghostdag_k: 40,
            mergeset_size_limit: 400,
            max_block_parents: 26,
            target_time_per_block: 500,
            coinbase_maturity: 200,
            sampling_activation_daa_score: u64::MAX,
            legacy_timestamp_deviation_tolerance: 264,
            legacy_difficulty_window_size: 5282,
            merge_depth: 7200,
            ..base()
        }
    );
}

#[test]
fn consensus_params_scaled_k() {
    let mut p = base();
    apply_args_to_consensus_params(Some(scaling(7)), false, false, &mut p);
    assert_eq!(p.ghostdag_k, 18);
    assert_eq!(p.mergeset_size_limit, 180);
    let mut p = base();
    apply_args_to_consensus_params(Some(scaling(1_000_000)), false, false, &mut p);
    assert_eq!(p.ghostdag_k, u16::MAX);
    assert_eq!(p.mergeset_size_limit, 655350);
    let mut p = base();
    apply_args_to_consensus_params(Some(Scaling { parents_for_k: 3, ..scaling(40) }), false, false, &mut p);
    assert_eq!(p.max_block_parents, 10);
    assert_eq!(effective_k_of(40, 18), 40);
    assert_eq!(effective_k_of(7, 18), 18);
    assert_eq!(effective_k_of(u64::MAX, 18), u16::MAX);
}

#[test]
fn consensus_params_for_a_pruning_test() {
    let mut p = base();
    apply_args_to_consensus_params(None, false, true, &mut p);
    assert_eq!(
        p,
        ConsensusParams {
            max_block_level: 254,
            genesis_timestamp: 0,
            mergeset_size_limit: 32,
            pruning_proof_m: 16,
            legacy_difficulty_window_size: 64,
            legacy_timestamp_deviation_tolerance: 16,
            finality_depth: 128,
            merge_depth: 128,
            pruning_depth: 2598,
            ..base()
        }
    );
    let mut q = ConsensusParams { pruning_depth: 1000, ..base() };
    apply_args_to_consensus_params(Some(scaling(20)), true, true, &mut q);
    assert_eq!(q.ghostdag_k, 20);
    assert_eq!(q.mergeset_size_limit, 32);
    assert_eq!(q.merge_depth, 128);
    assert_eq!(q.legacy_difficulty_window_size, 64);
    assert_eq!(q.sampling_activation_daa_score, u64::MAX);
    assert_eq!(q.target_time_per_block, 500);
    assert_eq!(q.pruning_depth, 1000);
}

#[test]
fn chunks_of_a_thousand() {
    assert_eq!(chunk_bounds(2500, 1000), vec![(0, 1000), (1000, 2000), (2000, 2500)]);
    assert_eq!(chunk_bounds(2000, 1000), vec![(0, 1000), (1000, 2000)]);
    assert_eq!(chunk_bounds(1, 1000), vec![(0, 1)]);
    assert_eq!(chunk_bounds(0, 1000), vec![]);
}

#[test]
fn counts_are_summed() {
    assert_eq!(sum_counts(&vec![3, 3, 3, 1]), Some(10));
    assert_eq!(sum_counts(&vec![]), Some(0));
    assert_eq!(sum_counts(&vec![usize::MAX, 1]), None);
    assert_eq!(sum_counts(&vec![usize::MAX, 0]), Some(usize::MAX));
}

#[test]
fn deadline_of_a_run() {
    assert_eq!(simulation_deadline(None, 0, 600), Some(600_000));
    assert_eq!(simulation_deadline(None, 5, 1), Some(1005));
    assert_eq!(simulation_deadline(Some(100), 5, 1), Some(u64::MAX));
    assert_eq!(simulation_deadline(None, 0, u64::MAX), None);
    assert_eq!(simulation_deadline(None, u64::MAX, 1), None);
}

fn h(id: u64) -> BlockHash {
    BlockHash::from_u64_word(id)
}

fn children_of(id: u64) -> Vec<BlockHash> {
    match id {
        0 => vec![h(1), h(2)],
        1 => vec![h(3)],
        2 => vec![h(3), h(4)],
        3 => vec![h(5)],
        4 => vec![h(5)],
        _ => vec![],
    }
}

#[test]
fn traversal_finds_every_descendant_once() {
    let mut walk = Traversal::new(h(0));
    let mut handed_out = vec![];
    while let Some(current) = walk.next() {
        handed_out.push(current);
        walk.discover(&children_of(current.w3));
    }
    assert_eq!(handed_out, vec![h(0), h(1), h(2), h(3), h(4), h(5)]);
    assert_eq!(walk.order, vec![h(1), h(2), h(3), h(4), h(5)]);
    assert_eq!(walk.next(), None);
}

#[test]
fn traversal_skips_known_and_repeated_children() {
    let mut walk = Traversal::new(h(0));
    assert_eq!(walk.next(), Some(h(0)));
    walk.discover(&vec![h(1), h(1), h(2)]);
    walk.discover(&vec![h(2), h(3), h(1)]);
    assert_eq!(walk.order, vec![h(1), h(2), h(3)]);
    assert_eq!(walk.next(), Some(h(1)));
    assert_eq!(walk.head, 1);
}

#[test]
fn found_blocks_are_ordered_by_timestamp() {
    let found = vec![
        TimedHash { hash: h(1), timestamp: 30 },
        TimedHash { hash: h(2), timestamp: 10 },
        TimedHash { hash: h(3), timestamp: 30 },
        TimedHash { hash: h(4), timestamp: 20 },
        TimedHash { hash: h(5), timestamp: 10 },
    ];
    assert_eq!(topologically_ordered_hashes(&found), vec![h(2), h(5), h(4), h(1), h(3)]);
    assert_eq!(topologically_ordered_hashes(&vec![]), vec![]);
    let sorted = sort_by_timestamp(&found);
    assert_eq!(sorted[0], TimedHash { hash: h(2), timestamp: 10 });
    assert_eq!(sorted[4], TimedHash { hash: h(3), timestamp: 30 });
}

#[test]
fn fixed_test_network_takes_no_scaling() {
    assert_eq!(scaling_to_apply(true, Some(scaling(40))), None);
    assert_eq!(scaling_to_apply(true, None), None);
    assert_eq!(scaling_to_apply(false, Some(scaling(40))), Some(scaling(40)));
    assert_eq!(scaling_to_apply(false, None), None);
    let mut p = base();
    apply_args_to_consensus_params(scaling_to_apply(true, Some(scaling(40))), true, false, &mut p);
    assert_eq!(p, ConsensusParams { max_block_level: 254, genesis_timestamp: 0, ..base() });
}
