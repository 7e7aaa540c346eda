use block_pipeline::types::BlockHash;
use block_pipeline::types::BlueWork;

#[test]
fn blue_work_orders_by_most_significant_limb() {
    let small = BlueWork { hi: 0, mid: 0, lo: u64::MAX };
    let mid = BlueWork { hi: 0, mid: 1, lo: 0 };
    let big = BlueWork { hi: 1, mid: 0, lo: 0 };
    assert!(small.lt(&mid));
    assert!(mid.lt(&big));
    assert!(small.le(&small));
    assert!(!small.lt(&small));
    assert!(!big.le(&mid));
}

#[test]
fn blue_work_addition_carries() {
    let w = BlueWork { hi: 0, mid: 0, lo: u64::MAX };
    assert_eq!(w.checked_add_u64(1), Some(BlueWork { hi: 0, mid: 1, lo: 0 }));
    let w = BlueWork { hi: 0, mid: u64::MAX, lo: u64::MAX };
    assert_eq!(w.checked_add_u64(2), Some(BlueWork { hi: 1, mid: 0, lo: 1 }));
    assert_eq!(BlueWork::from_u64(5).checked_add_u64(7), Some(BlueWork::from_u64(12)));
}

#[test]
fn blue_work_addition_overflow() {
    let top = BlueWork { hi: u64::MAX, mid: u64::MAX, lo: u64::MAX };
    assert_eq!(top.checked_add_u64(1), None);
    assert_eq!(top.checked_add_u64(0), Some(top));
}

#[test]
fn hash_order_is_word_lexicographic() {
    let a = BlockHash { w0: 0, w1: 0, w2: 0, w3: 9 };
    let b = BlockHash { w0: 0, w1: 0, w2: 1, w3: 0 };
    let c = BlockHash { w0: 1, w1: 0, w2: 0, w3: 0 };
    assert!(a.lt(&b));
    assert!(b.lt(&c));
    assert!(!c.lt(&a));
    assert!(!a.lt(&a));
    assert_eq!(BlockHash::from_u64_word(9), a);
}
