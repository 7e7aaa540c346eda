use block_pipeline::counters::ProcessingCounters;
use block_pipeline::counters::ProcessingCountersSnapshot;

fn snap(blocks: u64, txs: u64) -> ProcessingCountersSnapshot {
    ProcessingCountersSnapshot {
        blocks_submitted: blocks,
        header_counts: blocks,
        dep_counts: 0,
        body_counts: blocks,
        txs_counts: txs,
        chain_block_counts: 0,
        mass_counts: 0,
    }
}

#[test]
fn fresh_counters_snapshot_is_zero() {
    let counters = ProcessingCounters::default();
    assert_eq!(counters.snapshot(), snap(0, 0));
}

#[test]
fn ten_blocks_of_three_transactions() {
    let counters = ProcessingCounters::default();
    counters.record_submitted();
    counters.record_body(5);
    let before = counters.snapshot();
    for _ in 0..10 {
        counters.record_submitted();
        counters.record_header(2);
        counters.record_body(3);
        counters.record_chain_update(1, 100);
    }
    let after = counters.snapshot();
    let window = &after - &before;
    assert_eq!(window.blocks_submitted, 10);
    assert_eq!(window.txs_counts, 30);
    assert_eq!(window.header_counts, 10);
    assert_eq!(window.dep_counts, 20);
    assert_eq!(window.body_counts, 10);
    assert_eq!(window.chain_block_counts, 10);
    assert_eq!(window.mass_counts, 1000);
}

#[test]
fn snapshot_reads_raw_atomics() {
    let counters = ProcessingCounters::default();
    counters.blocks_submitted.fetch_add(7, std::sync::atomic::Ordering::Relaxed);
    counters.mass_counts.fetch_add(9, std::sync::atomic::Ordering::Relaxed);
    let s = counters.snapshot();
    assert_eq!(s.blocks_submitted, 7);
    assert_eq!(s.mass_counts, 9);
    assert_eq!(s.txs_counts, 0);
}

#[test]
fn difference_of_snapshots_is_fieldwise() {
    let a = snap(12, 40);
    let b = snap(2, 10);
    assert_eq!(&a - &b, snap(10, 30));
    assert_eq!(&a - &a, snap(0, 0));
}

#[test]
fn checked_sub_refuses_reverse_order() {
    let early = snap(2, 10);
    let late = snap(12, 40);
    assert_eq!(late.checked_sub(&early), Some(snap(10, 30)));
    assert_eq!(early.checked_sub(&late), None);
    assert!(late.is_after(&early));
    assert!(!early.is_after(&late));
}

#[test]
fn windows_over_consecutive_intervals_add_up() {
    let a = snap(1, 3);
    let b = snap(5, 15);
    let c = snap(9, 27);
    let ab = &b - &a;
    let bc = &c - &b;
    let ac = &c - &a;
    assert_eq!(ac.blocks_submitted, ab.blocks_submitted + bc.blocks_submitted);
    assert_eq!(ac.txs_counts, ab.txs_counts + bc.txs_counts);
}

#[test]
fn from_counts_keeps_field_order() {
    let s = ProcessingCountersSnapshot::from_counts(1, 2, 3, 4, 5, 6, 7);
    assert_eq!(
        s,
        ProcessingCountersSnapshot {
            blocks_submitted: 1,
            header_counts: 2,
            dep_counts: 3,
            body_counts: 4,
            txs_counts: 5,
            chain_block_counts: 6,
            mass_counts: 7,
        }
    );
}

#[test]
fn snapshot_reads_each_counter_into_its_field() {
    let c = ProcessingCounters {
        blocks_submitted: std::sync::atomic::AtomicU64::new(1),
        header_counts: std::sync::atomic::AtomicU64::new(2),
        dep_counts: std::sync::atomic::AtomicU64::new(3),
        body_counts: std::sync::atomic::AtomicU64::new(4),
        txs_counts: std::sync::atomic::AtomicU64::new(5),
        chain_block_counts: std::sync::atomic::AtomicU64::new(6),
        mass_counts: std::sync::atomic::AtomicU64::new(7),
    };
    assert_eq!(c.snapshot(), ProcessingCountersSnapshot::from_counts(1, 2, 3, 4, 5, 6, 7));
}
