use shamir_sss::share::operations::ShareOperations;
use shamir_sss::Share;

#[test]
fn share_new_reduces_coordinates() {
    let s = Share::new(2040, 5000, 2039);
    assert_eq!(s, Share { x: 1, y: 922 });
}

#[test]
fn share_add_same_position() {
    let a = Share::new(1, 2000, 2039);
    let b = Share::new(1, 100, 2039);
    assert_eq!(a.add(&b, 2039), Share { x: 1, y: 61 });
}

#[test]
fn share_add_large_values_do_not_truncate() {
    let p = u64::MAX - 58; // 2^64 - 59 is prime
    let a = Share::new(1, p - 1, p);
    let b = Share::new(1, p - 1, p);
    assert_eq!(a.add(&b, p).y, p - 2);
}

#[test]
fn share_add_constant() {
    let a = Share::new(3, 2030, 2039);
    assert_eq!(a.add_constant(15, 2039), Share { x: 3, y: 6 });
}

#[test]
fn share_multiply_by_constant() {
    let a = Share::new(3, 1234, 2039);
    assert_eq!(a.multiply_by_constant(3, 2039), Share { x: 3, y: 1663 });
    let p = u64::MAX - 58;
    let b = Share::new(1, p - 1, p);
    assert_eq!(b.multiply_by_constant(p - 1, p).y, 1);
}

#[test]
fn combine_shares_sums_same_position() {
    let shares = vec![Share::new(2, 1000, 2039), Share::new(2, 1500, 2039), Share::new(2, 3, 2039)];
    assert_eq!(Share::combine_shares(&shares, 2039), Some(Share { x: 2, y: 464 }));
}

#[test]
fn combine_shares_rejects_empty_and_mixed() {
    assert_eq!(Share::combine_shares(&[], 2039), None);
    let mixed = vec![Share::new(2, 1, 2039), Share::new(3, 1, 2039)];
    assert_eq!(Share::combine_shares(&mixed, 2039), None);
}

#[test]
fn multiply_shares_same_position() {
    let a = Share::new(4, 100, 2039);
    let b = Share::new(4, 30, 2039);
    assert_eq!(Share::multiply_shares(&a, &b, 2039), Some(Share { x: 4, y: 3000 % 2039 }));
    let c = Share::new(5, 30, 2039);
    assert_eq!(Share::multiply_shares(&a, &c, 2039), None);
}
