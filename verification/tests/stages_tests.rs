use block_pipeline::body::validate_body;
use block_pipeline::body::BodyError;
use block_pipeline::body::BodyLimits;
use block_pipeline::body::BodySummary;
use block_pipeline::body::TxSummary;
use block_pipeline::deps::DependencyManager;
use block_pipeline::deps::HoldOutcome;
use block_pipeline::pruning::advance_through;
use block_pipeline::pruning::is_on_chain_before;
use block_pipeline::pruning::anticone_finalization_depth;
use block_pipeline::pruning::update_pruning_point;
use block_pipeline::pruning::ChainBlock;
use block_pipeline::pruning::PruningPointInfo;
use block_pipeline::status::all_utxo_valid_or_pending;
use block_pipeline::status::any_utxo_valid;
use block_pipeline::status::BlockStatus;
use block_pipeline::types::BlockHash;
use block_pipeline::virtual_state::chain_path;
use block_pipeline::virtual_state::fork_point;

fn h(id: u64) -> BlockHash {
    BlockHash::from_u64_word(id)
}

fn tx(mass: u64) -> TxSummary {
    TxSummary { mass, well_formed: true }
}

fn limits() -> BodyLimits {
    BodyLimits { max_transactions: 3, max_mass: 100 }
}

#[test]
fn body_within_limits_is_accepted() {
    let r = validate_body(h(1), h(1), &vec![tx(40), tx(60)], limits());
    assert_eq!(r, Ok(BodySummary { transactions: 2, mass: 100 }));
    assert_eq!(validate_body(h(1), h(1), &vec![], limits()), Ok(BodySummary { transactions: 0, mass: 0 }));
}

#[test]
fn body_errors() {
    assert_eq!(validate_body(h(1), h(2), &vec![tx(1)], limits()), Err(BodyError::CommitmentMismatch));
    assert_eq!(
        validate_body(h(1), h(1), &vec![tx(1), tx(1), tx(1), tx(1)], limits()),
        Err(BodyError::TooManyTransactions)
    );
    let bad = TxSummary { mass: 1, well_formed: false };
    assert_eq!(
        validate_body(h(1), h(1), &vec![tx(1), bad, bad], limits()),
        Err(BodyError::MalformedTransaction { index: 1 })
    );
    assert_eq!(validate_body(h(1), h(1), &vec![tx(40), tx(61)], limits()), Err(BodyError::MassLimitExceeded));
    assert_eq!(
        validate_body(h(1), h(1), &vec![tx(u64::MAX), tx(u64::MAX)], BodyLimits { max_transactions: 3, max_mass: u64::MAX }),
        Err(BodyError::MassLimitExceeded)
    );
}

#[test]
fn block_submitted_before_its_parent_waits_and_is_released() {
    let mut deps = DependencyManager::new();
    let mut status_x = BlockStatus::StatusHeaderOnly;
    assert_eq!(deps.hold(h(2), vec![h(1)]), HoldOutcome::Held);
    assert!(deps.is_pending(h(2)));
    assert_eq!(status_x, BlockStatus::StatusHeaderOnly);

    let mut status_p = BlockStatus::StatusHeaderOnly;
    assert_eq!(deps.hold(h(1), vec![]), HoldOutcome::Ready);
    assert!(validate_body(h(11), h(11), &vec![tx(1)], limits()).is_ok());
    assert!(status_p.advance(BlockStatus::StatusUTXOPendingVerification));

    let released = deps.resolve(h(1));
    assert_eq!(released, vec![h(2)]);
    assert!(validate_body(h(12), h(12), &vec![tx(1)], limits()).is_ok());
    assert!(status_x.advance(BlockStatus::StatusUTXOPendingVerification));
    assert_eq!(status_x, BlockStatus::StatusUTXOPendingVerification);
    assert!(!deps.is_pending(h(2)));
}

#[test]
fn body_mismatch_invalidates_block_and_dependents() {
    let mut deps = DependencyManager::new();
    assert_eq!(deps.hold(h(2), vec![h(1)]), HoldOutcome::Held);
    assert_eq!(deps.hold(h(3), vec![h(2)]), HoldOutcome::Held);
    assert_eq!(deps.hold(h(4), vec![h(9)]), HoldOutcome::Held);

    let mut status = BlockStatus::StatusHeaderOnly;
    assert_eq!(validate_body(h(11), h(12), &vec![tx(1)], limits()), Err(BodyError::CommitmentMismatch));
    assert!(status.advance(BlockStatus::StatusInvalid));
    assert_eq!(status, BlockStatus::StatusInvalid);

    let invalid = deps.fail_transitively(h(1));
    assert_eq!(invalid, vec![h(2), h(3)]);
    assert!(deps.is_pending(h(4)));
    assert_eq!(deps.pending_len(), 1);
}

#[test]
fn status_lifecycle() {
    let mut s = BlockStatus::StatusHeaderOnly;
    assert!(!s.advance(BlockStatus::StatusUTXOValid));
    assert!(s.advance(BlockStatus::StatusUTXOPendingVerification));
    assert!(s.advance(BlockStatus::StatusUTXOValid));
    assert!(s.advance(BlockStatus::StatusUTXOPendingVerification));
    assert!(s.advance(BlockStatus::StatusDisqualifiedFromChain));
    assert!(!s.advance(BlockStatus::StatusUTXOPendingVerification));
    assert_eq!(s, BlockStatus::StatusDisqualifiedFromChain);
    let mut bad = BlockStatus::StatusInvalid;
    assert!(!bad.advance(BlockStatus::StatusHeaderOnly));
    assert!(!bad.advance(BlockStatus::StatusUTXOValid));
    assert_eq!(bad, BlockStatus::StatusInvalid);
    assert!(BlockStatus::StatusHeaderOnly.can_become(BlockStatus::StatusInvalid));
    assert!(!BlockStatus::StatusUTXOPendingVerification.can_become(BlockStatus::StatusInvalid));
    let mut pending = BlockStatus::StatusUTXOPendingVerification;
    assert!(!pending.advance(BlockStatus::StatusInvalid));
    assert_eq!(pending, BlockStatus::StatusUTXOPendingVerification);
}

#[test]
fn status_predicates() {
    assert!(BlockStatus::StatusUTXOValid.is_utxo_valid_or_pending());
    assert!(BlockStatus::StatusUTXOPendingVerification.is_utxo_valid_or_pending());
    assert!(!BlockStatus::StatusDisqualifiedFromChain.is_utxo_valid_or_pending());
    assert!(!BlockStatus::StatusHeaderOnly.has_block_body());
    assert!(BlockStatus::StatusDisqualifiedFromChain.has_block_body());
    assert!(!BlockStatus::StatusInvalid.is_valid());
    assert!(BlockStatus::StatusHeaderOnly.is_valid());
    let ok = vec![BlockStatus::StatusUTXOValid, BlockStatus::StatusUTXOPendingVerification];
    assert!(all_utxo_valid_or_pending(&ok));
    assert!(all_utxo_valid_or_pending(&vec![]));
    assert!(any_utxo_valid(&ok));
    let mixed = vec![BlockStatus::StatusUTXOPendingVerification, BlockStatus::StatusInvalid];
    assert!(!all_utxo_valid_or_pending(&mixed));
    assert!(!any_utxo_valid(&mixed));
}

#[test]
fn chain_path_reverts_old_and_applies_new() {
    let old = vec![h(0), h(1), h(2), h(3)];
    let new = vec![h(0), h(1), h(7), h(8), h(9)];
    assert_eq!(fork_point(&old, &new), 2);
    let path = chain_path(&old, &new);
    assert_eq!(path.removed, vec![h(3), h(2)]);
    assert_eq!(path.added, vec![h(7), h(8), h(9)]);
}

#[test]
fn chain_extension_removes_nothing() {
    let old = vec![h(0), h(1)];
    let new = vec![h(0), h(1), h(2)];
    let path = chain_path(&old, &new);
    assert_eq!(path.removed, vec![]);
    assert_eq!(path.added, vec![h(2)]);
    let same = chain_path(&old, &old);
    assert_eq!(same.removed, vec![]);
    assert_eq!(same.added, vec![]);
}

#[test]
fn pruning_point_only_moves_forward() {
    let mut p = PruningPointInfo { hash: h(0), blue_score: 10 };
    assert!(!p.advance(ChainBlock { hash: h(1), blue_score: 5 }));
    assert!(!p.advance(ChainBlock { hash: h(1), blue_score: 10 }));
    assert_eq!(p, PruningPointInfo { hash: h(0), blue_score: 10 });
    assert!(p.advance(ChainBlock { hash: h(2), blue_score: 11 }));
    assert_eq!(p, PruningPointInfo { hash: h(2), blue_score: 11 });
    let offers: Vec<ChainBlock> =
        vec![30, 2, 25, 40, 1].into_iter().map(|s| ChainBlock { hash: h(s), blue_score: s }).collect();
    let mut last = p.blue_score;
    for o in &offers {
        p.advance(*o);
        assert!(p.blue_score >= last);
        last = p.blue_score;
    }
    assert_eq!(p, PruningPointInfo { hash: h(40), blue_score: 40 });
    let mut q = PruningPointInfo { hash: h(0), blue_score: 10 };
    advance_through(&mut q, &offers);
    assert_eq!(q, PruningPointInfo { hash: h(40), blue_score: 40 });
    let mut r = PruningPointInfo { hash: h(0), blue_score: 40 };
    advance_through(&mut r, &offers);
    assert_eq!(r, PruningPointInfo { hash: h(0), blue_score: 40 });
}

#[test]
fn pruning_point_follows_the_chain_at_depth() {
    let chain: Vec<ChainBlock> = (0..10u64).map(|i| ChainBlock { hash: h(i), blue_score: i * 10 }).collect();
    let mut p = PruningPointInfo { hash: h(0), blue_score: 0 };
    assert!(update_pruning_point(&mut p, &chain, 35));
    assert_eq!(p, PruningPointInfo { hash: h(5), blue_score: 50 });
    assert!(!update_pruning_point(&mut p, &chain, 60));
    assert_eq!(p, PruningPointInfo { hash: h(5), blue_score: 50 });
    assert!(!update_pruning_point(&mut p, &chain, 1000));
    assert!(!update_pruning_point(&mut p, &vec![], 0));
    assert!(update_pruning_point(&mut p, &chain, 0));
    assert_eq!(p, PruningPointInfo { hash: h(9), blue_score: 90 });
}

#[test]
fn anticone_finalization_depth_formula() {
    assert_eq!(anticone_finalization_depth(128, 128, 32, 18, 1_000_000), 128 + 128 + 4 * 32 * 18 + 2 * 18 + 2);
    assert_eq!(anticone_finalization_depth(128, 128, 32, 18, 2598), 2598);
    assert_eq!(anticone_finalization_depth(128, 128, 32, 18, 2597), 2597);
    assert_eq!(anticone_finalization_depth(u64::MAX, u64::MAX, u64::MAX, u16::MAX, u64::MAX), u64::MAX);
    assert_eq!(anticone_finalization_depth(0, 0, 0, 0, 100), 2);
}

#[test]
fn pruning_point_moves_only_along_the_chain() {
    let chain: Vec<ChainBlock> = (0..10u64).map(|i| ChainBlock { hash: h(i), blue_score: i * 10 }).collect();
    let mut off_chain = PruningPointInfo { hash: h(77), blue_score: 20 };
    assert!(!update_pruning_point(&mut off_chain, &chain, 35));
    assert_eq!(off_chain, PruningPointInfo { hash: h(77), blue_score: 20 });
    let mut on_chain = PruningPointInfo { hash: h(2), blue_score: 20 };
    assert!(update_pruning_point(&mut on_chain, &chain, 35));
    assert_eq!(on_chain, PruningPointInfo { hash: h(5), blue_score: 50 });
    assert!(is_on_chain_before(&chain, PruningPointInfo { hash: h(2), blue_score: 20 }, 5));
    assert!(!is_on_chain_before(&chain, PruningPointInfo { hash: h(2), blue_score: 20 }, 2));
    assert!(!is_on_chain_before(&chain, PruningPointInfo { hash: h(2), blue_score: 21 }, 5));
}
