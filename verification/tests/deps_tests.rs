use block_pipeline::deps::contains_hash;
use block_pipeline::deps::copy_hashes;
use block_pipeline::deps::remove_hash;
use block_pipeline::deps::DependencyManager;
use block_pipeline::deps::HoldOutcome;
use block_pipeline::types::BlockHash;

fn h(id: u64) -> BlockHash {
    BlockHash::from_u64_word(id)
}

#[test]
fn block_without_outstanding_parents_is_ready() {
    let mut m = DependencyManager::new();
    assert_eq!(m.hold(h(1), vec![]), HoldOutcome::Ready);
    assert_eq!(m.pending_len(), 0);
    assert!(!m.is_pending(h(1)));
}

#[test]
fn block_is_released_once_after_all_parents_resolve() {
    let mut m = DependencyManager::new();
    assert_eq!(m.hold(h(10), vec![h(1), h(2), h(3)]), HoldOutcome::Held);
    assert_eq!(m.resolve(h(1)), vec![]);
    assert_eq!(m.outstanding_of(h(10)), Some(vec![h(2), h(3)]));
    assert_eq!(m.resolve(h(3)), vec![]);
    assert!(m.is_pending(h(10)));
    assert_eq!(m.resolve(h(2)), vec![h(10)]);
    assert!(!m.is_pending(h(10)));
    assert_eq!(m.resolve(h(2)), vec![]);
    assert_eq!(m.resolve(h(1)), vec![]);
    assert_eq!(m.pending_len(), 0);
}

#[test]
fn block_is_not_held_twice() {
    let mut m = DependencyManager::new();
    assert_eq!(m.hold(h(10), vec![h(1)]), HoldOutcome::Held);
    assert_eq!(m.hold(h(10), vec![h(2)]), HoldOutcome::AlreadyPending);
    assert_eq!(m.pending_len(), 1);
    assert_eq!(m.outstanding_of(h(10)), Some(vec![h(1)]));
    assert_eq!(m.resolve(h(1)), vec![h(10)]);
}

#[test]
fn resolve_releases_in_arrival_order() {
    let mut m = DependencyManager::new();
    m.hold(h(12), vec![h(1)]);
    m.hold(h(11), vec![h(1), h(2)]);
    m.hold(h(10), vec![h(1), h(1)]);
    assert_eq!(m.resolve(h(1)), vec![h(12), h(10)]);
    assert_eq!(m.pending_len(), 1);
    assert_eq!(m.outstanding_of(h(11)), Some(vec![h(2)]));
    assert_eq!(m.outstanding_of(h(12)), None);
}

#[test]
fn fail_returns_direct_dependents_and_keeps_the_rest() {
    let mut m = DependencyManager::new();
    m.hold(h(10), vec![h(1), h(2)]);
    m.hold(h(11), vec![h(2)]);
    m.hold(h(12), vec![h(10)]);
    assert_eq!(m.fail(h(1)), vec![h(10)]);
    assert_eq!(m.pending_len(), 2);
    assert_eq!(m.outstanding_of(h(11)), Some(vec![h(2)]));
    assert_eq!(m.fail(h(10)), vec![h(12)]);
    assert_eq!(m.fail(h(10)), vec![]);
    assert_eq!(m.pending_len(), 1);
}

#[test]
fn hash_list_helpers() {
    let s = vec![h(1), h(2), h(1), h(3)];
    assert_eq!(remove_hash(&s, h(1)), vec![h(2), h(3)]);
    assert_eq!(remove_hash(&s, h(9)), s);
    assert_eq!(copy_hashes(&s), s);
    assert!(contains_hash(&s, h(3)));
    assert!(!contains_hash(&s, h(4)));
}

#[test]
fn failure_propagates_transitively() {
    let mut m = DependencyManager::new();
    m.hold(h(10), vec![h(1), h(2)]);
    m.hold(h(11), vec![h(2)]);
    m.hold(h(12), vec![h(10)]);
    m.hold(h(13), vec![h(12), h(11)]);
    m.hold(h(14), vec![h(3)]);
    assert_eq!(m.fail_transitively(h(1)), vec![h(10), h(12), h(13)]);
    assert_eq!(m.pending_len(), 2);
    assert_eq!(m.outstanding_of(h(11)), Some(vec![h(2)]));
    assert_eq!(m.outstanding_of(h(14)), Some(vec![h(3)]));
    assert_eq!(m.fail_transitively(h(1)), vec![]);
    assert_eq!(m.fail_transitively(h(3)), vec![h(14)]);
    assert_eq!(m.resolve(h(2)), vec![h(11)]);
    assert_eq!(m.pending_len(), 0);
}
