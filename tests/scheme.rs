use shamir_sss::{Error, ShamirSecretSharing, Share};

fn scheme() -> ShamirSecretSharing {
    ShamirSecretSharing::new(3, 5, 2039).unwrap()
}

#[test]
fn scheme_rejects_bad_thresholds() {
    assert!(matches!(ShamirSecretSharing::new(0, 5, 2039), Err(Error::InvalidThreshold(_))));
    assert!(matches!(ShamirSecretSharing::new(6, 5, 2039), Err(Error::InvalidThreshold(_))));
    for t in 1..=5 {
        assert!(ShamirSecretSharing::new(t, 5, 2039).is_ok());
    }
}

#[test]
fn split_rejects_oversized_secret() {
    let s = scheme();
    assert!(matches!(s.split_secret(2039), Err(Error::FieldError(_))));
    assert!(matches!(s.split_secret(u64::MAX), Err(Error::FieldError(_))));
    assert!(s.split_secret(2038).is_ok());
    assert!(s.split_secret(0).is_ok());
}

#[test]
fn split_gives_positions_one_to_n() {
    let shares = scheme().split_secret(1234).unwrap();
    assert_eq!(shares.len(), 5);
    for (i, sh) in shares.iter().enumerate() {
        assert_eq!(sh.x, i as u64 + 1);
        assert!(sh.y < 2039);
    }
}

#[test]
fn shares_from_fixed_coefficients() {
    let shares = scheme().shares_from_coefficients(&[17, 5, 3]);
    let ys: Vec<u64> = shares.iter().map(|s| s.y).collect();
    assert_eq!(ys, vec![25, 39, 59, 85, 117]);
}

#[test]
fn split_then_reconstruct_first_threshold() {
    let s = scheme();
    for secret in [0u64, 1, 20, 1234, 2038] {
        let shares = s.split_secret(secret).unwrap();
        assert_eq!(s.reconstruct_secret(&shares[0..3]).unwrap(), secret);
        assert_eq!(s.reconstruct_secret(&shares).unwrap(), secret);
    }
}

#[test]
fn reconstruct_from_any_subset() {
    let s = scheme();
    let shares = s.split_secret(777).unwrap();
    for a in 0..5 {
        for b in 0..5 {
            for c in 0..5 {
                if a != b && b != c && a != c {
                    let subset = vec![shares[a].clone(), shares[b].clone(), shares[c].clone()];
                    assert_eq!(s.reconstruct_secret(&subset).unwrap(), 777);
                }
            }
        }
    }
}

#[test]
fn reconstruct_with_too_few_shares() {
    let s = scheme();
    let shares = s.split_secret(42).unwrap();
    for k in 0..3 {
        assert!(matches!(s.reconstruct_secret(&shares[0..k]), Err(Error::InsufficientShares)));
    }
}

#[test]
fn reconstruct_with_repeated_position_fails() {
    let s = scheme();
    let shares = vec![Share::new(1, 5, 2039), Share::new(1, 6, 2039), Share::new(2, 7, 2039)];
    assert!(matches!(s.reconstruct_secret(&shares), Err(Error::FieldError(_))));
}

#[test]
fn threshold_one_and_full_threshold() {
    let one = ShamirSecretSharing::new(1, 4, 2039).unwrap();
    let shares = one.split_secret(99).unwrap();
    assert!(shares.iter().all(|s| s.y == 99));
    let full = ShamirSecretSharing::new(4, 4, 2039).unwrap();
    let shares = full.split_secret(1000).unwrap();
    assert_eq!(full.reconstruct_secret(&shares).unwrap(), 1000);
}

#[test]
fn adding_shares_adds_secrets() {
    let s = scheme();
    let a = s.split_secret(20).unwrap();
    let b = s.split_secret(30).unwrap();
    let sum: Vec<Share> = a.iter().zip(b.iter()).map(|(x, y)| x.add(y, 2039)).collect();
    assert_eq!(s.reconstruct_secret(&sum).unwrap(), 50);
    let a = s.split_secret(2000).unwrap();
    let b = s.split_secret(100).unwrap();
    let sum: Vec<Share> = a.iter().zip(b.iter()).map(|(x, y)| x.add(y, 2039)).collect();
    assert_eq!(s.reconstruct_secret(&sum).unwrap(), 61);
}

#[test]
fn adding_constant_shifts_secret() {
    let s = scheme();
    let shares = s.split_secret(1234).unwrap();
    let shifted: Vec<Share> = shares.iter().map(|x| x.add_constant(15, 2039)).collect();
    assert_eq!(s.reconstruct_secret(&shifted).unwrap(), 1249);
}

#[test]
fn multiplying_by_constant_scales_secret() {
    let s = scheme();
    let shares = s.split_secret(1234).unwrap();
    let scaled: Vec<Share> = shares.iter().map(|x| x.multiply_by_constant(3, 2039)).collect();
    assert_eq!(s.reconstruct_secret(&scaled).unwrap(), 1663);
}

#[test]
fn large_prime_round_trip() {
    let p = u64::MAX - 58;
    let s = ShamirSecretSharing::new(4, 7, p).unwrap();
    let shares = s.split_secret(p - 1).unwrap();
    assert_eq!(s.reconstruct_secret(&shares[2..6]).unwrap(), p - 1);
}
