use block_pipeline::ghostdag::count_blue_conflicts;
use block_pipeline::ghostdag::check_timestamp;
use block_pipeline::ghostdag::ghostdag;
use block_pipeline::ghostdag::past_median_time;
use block_pipeline::ghostdag::select_parent;
use block_pipeline::ghostdag::GhostdagData;
use block_pipeline::ghostdag::HeaderError;
use block_pipeline::ghostdag::MergesetCandidate;
use block_pipeline::ghostdag::ParentInfo;
use block_pipeline::types::BlockHash;
use block_pipeline::types::BlueWork;

fn h(id: u64) -> BlockHash {
    BlockHash::from_u64_word(id)
}

fn parent(id: u64, blue_work: u64, blue_score: u64) -> ParentInfo {
    ParentInfo { hash: h(id), work: 1, blue_work: BlueWork::from_u64(blue_work), blue_score }
}

#[test]
fn chain_of_five_has_blue_score_equal_to_index() {
    let mut tip = ParentInfo { hash: h(100), work: 2, blue_work: BlueWork::from_u64(0), blue_score: 0 };
    let mut scores = vec![tip.blue_score];
    for i in 1..5u64 {
        let data = ghostdag(&vec![tip], &vec![], 18, 10).unwrap();
        assert_eq!(data.selected_parent, tip.hash);
        assert_eq!(data.mergeset_blues, vec![tip.hash]);
        assert_eq!(data.mergeset_reds, vec![]);
        assert!(tip.blue_work.lt(&data.blue_work));
        assert_eq!(data.blue_work, BlueWork::from_u64(2 * i));
        tip = ParentInfo { hash: h(100 + i), work: 2, blue_work: data.blue_work, blue_score: data.blue_score };
        scores.push(tip.blue_score);
    }
    assert_eq!(scores, vec![0, 1, 2, 3, 4]);
    assert_eq!(tip.hash, h(104));
}

#[test]
fn merging_two_competing_blocks_makes_both_blue() {
    let a = parent(1, 10, 3);
    let b = parent(2, 10, 3);
    let other = MergesetCandidate { hash: a.hash, work: 1, anticone: vec![b.hash] };
    let data = ghostdag(&vec![a, b], &vec![other], 1, 10).unwrap();
    assert_eq!(data.selected_parent, b.hash);
    assert_eq!(data.mergeset_blues, vec![b.hash, a.hash]);
    assert_eq!(data.mergeset_reds, vec![]);
    assert_eq!(data.blue_score, 5);
    assert_eq!(data.blue_work, BlueWork::from_u64(12));
}

#[test]
fn candidate_over_the_k_bound_is_red() {
    let sp = parent(1, 50, 7);
    let c1 = MergesetCandidate { hash: h(2), work: 3, anticone: vec![h(1)] };
    let c2 = MergesetCandidate { hash: h(3), work: 4, anticone: vec![h(1), h(2)] };
    let c3 = MergesetCandidate { hash: h(4), work: 5, anticone: vec![h(3)] };
    let data = ghostdag(&vec![sp], &vec![c1, c2, c3], 1, 10).unwrap();
    assert_eq!(
        data,
        GhostdagData {
            blue_score: 10,
            blue_work: BlueWork::from_u64(50 + 1 + 3 + 5),
            selected_parent: h(1),
            mergeset_blues: vec![h(1), h(2), h(4)],
            mergeset_reds: vec![h(3)],
        }
    );
}

#[test]
fn blues_and_reds_partition_the_mergeset() {
    let sp = parent(1, 50, 7);
    let cands: Vec<MergesetCandidate> = (2..12u64)
        .map(|i| MergesetCandidate { hash: h(i), work: 1, anticone: (1..i).map(h).collect() })
        .collect();
    let data = ghostdag(&vec![sp], &cands, 3, 10).unwrap();
    assert_eq!(data.mergeset_blues.len() + data.mergeset_reds.len(), 11);
    for i in 1..12u64 {
        let blue = data.mergeset_blues.contains(&h(i));
        let red = data.mergeset_reds.contains(&h(i));
        assert!(blue != red);
    }
    assert_eq!(data.mergeset_blues, vec![h(1), h(2), h(3), h(4)]);
}

#[test]
fn selected_parent_has_most_blue_work_then_greatest_hash() {
    assert_eq!(select_parent(&vec![parent(1, 5, 0), parent(2, 9, 0), parent(3, 7, 0)]), 1);
    assert_eq!(select_parent(&vec![parent(4, 9, 0), parent(2, 9, 0), parent(8, 9, 0)]), 2);
    assert_eq!(select_parent(&vec![parent(4, 9, 0)]), 0);
    let heavy = ParentInfo { hash: h(1), work: 1, blue_work: BlueWork { hi: 0, mid: 1, lo: 0 }, blue_score: 0 };
    assert_eq!(select_parent(&vec![parent(9, u64::MAX, 0), heavy]), 1);
}

#[test]
fn blue_conflicts_are_counted() {
    assert_eq!(count_blue_conflicts(&vec![h(1), h(2), h(3)], &vec![h(3), h(1), h(7)]), 2);
    assert_eq!(count_blue_conflicts(&vec![], &vec![h(3)]), 0);
    assert_eq!(count_blue_conflicts(&vec![h(1)], &vec![]), 0);
}

#[test]
fn header_errors() {
    assert_eq!(ghostdag(&vec![], &vec![], 18, 10), Err(HeaderError::NoParents));
    let many: Vec<ParentInfo> = (0..11u64).map(|i| parent(i, 1, 1)).collect();
    assert_eq!(ghostdag(&many, &vec![], 18, 10), Err(HeaderError::TooManyParents));
    let idle = ParentInfo { hash: h(2), work: 0, blue_work: BlueWork::from_u64(1), blue_score: 1 };
    assert_eq!(ghostdag(&vec![parent(1, 9, 1), idle], &vec![], 18, 10), Err(HeaderError::InvalidWork));
    let top = ParentInfo {
        hash: h(1),
        work: 1,
        blue_work: BlueWork { hi: u64::MAX, mid: u64::MAX, lo: u64::MAX },
        blue_score: 1,
    };
    assert_eq!(ghostdag(&vec![top], &vec![], 18, 10), Err(HeaderError::BlueWorkOverflow));
    let last = parent(1, 9, u64::MAX);
    assert_eq!(ghostdag(&vec![last], &vec![], 18, 10), Err(HeaderError::BlueScoreOverflow));
}

#[test]
fn mergeset_with_a_repeated_block_is_refused() {
    let sp = parent(1, 50, 7);
    let twice = vec![
        MergesetCandidate { hash: h(2), work: 1, anticone: vec![] },
        MergesetCandidate { hash: h(3), work: 1, anticone: vec![] },
        MergesetCandidate { hash: h(2), work: 1, anticone: vec![h(1), h(3)] },
    ];
    assert_eq!(ghostdag(&vec![sp], &twice, 0, 10), Err(HeaderError::RepeatedMergesetBlock));
    let names_parent = vec![MergesetCandidate { hash: h(1), work: 1, anticone: vec![] }];
    assert_eq!(ghostdag(&vec![sp], &names_parent, 18, 10), Err(HeaderError::RepeatedMergesetBlock));
}

#[test]
fn median_of_past_timestamps() {
    assert_eq!(past_median_time(&vec![50]), 50);
    assert_eq!(past_median_time(&vec![30, 10, 20]), 20);
    assert_eq!(past_median_time(&vec![40, 10, 30, 20]), 30);
    assert_eq!(past_median_time(&vec![7, 7, 9, 1, 7]), 7);
}

#[test]
fn timestamp_is_checked_against_median_and_clock() {
    let window = vec![30, 10, 20];
    assert_eq!(check_timestamp(21, &window, 100, 5), Ok(()));
    assert_eq!(check_timestamp(20, &window, 100, 5), Err(HeaderError::TimestampTooEarly));
    assert_eq!(check_timestamp(3, &window, 100, 5), Err(HeaderError::TimestampTooEarly));
    assert_eq!(check_timestamp(105, &window, 100, 5), Ok(()));
    assert_eq!(check_timestamp(106, &window, 100, 5), Err(HeaderError::TimestampTooFarAhead));
    assert_eq!(check_timestamp(0, &vec![], 100, 5), Ok(()));
    assert_eq!(check_timestamp(u64::MAX, &vec![], u64::MAX, u64::MAX), Ok(()));
    assert_eq!(check_timestamp(u64::MAX, &vec![], 0, u64::MAX - 1), Err(HeaderError::TimestampTooFarAhead));
}
