use hyperbacked::backup::{
    create_backup, create_backup_from, restore_backup, BackupConfig, BackupError, BackupShare,
    Secret, SecretRandomness,
};
use hyperbacked::crypto::seal_value;
use hyperbacked::gf256::{gf_inv, gf_mul};
use hyperbacked::shamir::{combine, eval_hiding_poly, split};

fn secret(value: &str, passphrase: &str) -> Secret {
    Secret { value: value.as_bytes().to_vec(), passphrase: passphrase.as_bytes().to_vec() }
}

fn config(required: u8, total: u8) -> BackupConfig {
    BackupConfig { required_shares: required, num_shares: total }
}

fn pick(shares: &[BackupShare], numbers: &[u8]) -> Vec<BackupShare> {
    numbers.iter().map(|n| shares.iter().find(|s| s.number == *n).unwrap().clone()).collect()
}

#[test]
fn field_product_known_values() {
    assert_eq!(gf_mul(0x53, 0xca), 0x01);
    assert_eq!(gf_mul(0x57, 0x83), 0xc1);
    assert_eq!(gf_mul(0x57, 0x13), 0xfe);
    assert_eq!(gf_mul(0x00, 0x7f), 0x00);
    assert_eq!(gf_mul(0x9d, 0x01), 0x9d);
}

#[test]
fn field_inverse_of_every_nonzero_element() {
    for a in 1..=255u8 {
        assert_eq!(gf_mul(a, gf_inv(a)), 1);
    }
    assert_eq!(gf_inv(0), 0);
    assert_eq!(gf_inv(0x53), 0xca);
}

#[test]
fn polynomial_evaluation() {
    // 7 + 3x + x^2 at x = 2: 7 ^ 6 ^ 4 = 5
    assert_eq!(eval_hiding_poly(7, &vec![3, 1], 2), 5);
    assert_eq!(eval_hiding_poly(42, &vec![], 9), 42);
}

#[test]
fn split_then_combine_with_fixed_coefficients() {
    let payload = vec![10u8, 200, 0, 255];
    let coeffs = vec![vec![1u8, 2], vec![3, 4], vec![5, 6], vec![7, 8]];
    let shares = split(&payload, &coeffs, 5);
    assert_eq!(shares.len(), 5);
    assert_ne!(shares[0], payload);
    for subset in [[1usize, 2, 3], [5, 4, 1], [2, 5, 3], [4, 1, 2]] {
        let xs: Vec<u8> = subset.iter().map(|i| *i as u8).collect();
        let ys: Vec<Vec<u8>> = subset.iter().map(|i| shares[i - 1].clone()).collect();
        assert_eq!(combine(&xs, &ys, payload.len()), payload);
    }
    let xs = vec![1u8, 2];
    let ys = vec![shares[0].clone(), shares[1].clone()];
    assert_ne!(combine(&xs, &ys, payload.len()), payload);
}

#[test]
fn sealed_payload_hides_the_value() {
    let value = b"hello-world".to_vec();
    let payload = seal_value(&value, b"pw", &vec![1u8; 16], &vec![2u8; 12]);
    assert_eq!(payload.len(), 16 + 12 + value.len() + 16);
    assert_eq!(&payload[..16], &[1u8; 16]);
    assert_eq!(&payload[16..28], &[2u8; 12]);
    assert_ne!(&payload[28..28 + value.len()], &value[..]);
}

#[test]
fn deterministic_backup_from_given_randomness() {
    let secrets = vec![secret("abc", "pw")];
    let len = 16 + 12 + 3 + 16;
    let rand = vec![SecretRandomness {
        salt: vec![9u8; 16],
        nonce: vec![8u8; 12],
        coeffs: (0..len).map(|p| vec![p as u8, 3]).collect(),
    }];
    let a = create_backup_from(&secrets, config(3, 4), &rand).unwrap();
    let b = create_backup_from(&secrets, config(3, 4), &rand).unwrap();
    assert_eq!(a.len(), 4);
    for (x, y) in a.iter().zip(b.iter()) {
        assert_eq!(x.fragments, y.fragments);
    }
    let restored = restore_backup(&pick(&a, &[4, 2, 1]), b"pw").unwrap();
    assert_eq!(restored, vec![b"abc".to_vec()]);
}

#[test]
fn example_creates_five_shares() {
    let shares = create_backup(&vec![secret("hello-world", "correct horse battery")], config(3, 5)).unwrap();
    assert_eq!(shares.len(), 5);
    let numbers: Vec<u8> = shares.iter().map(|s| s.number).collect();
    assert_eq!(numbers, vec![1, 2, 3, 4, 5]);
    for s in &shares {
        assert_eq!((s.required_shares, s.num_shares), (3, 5));
        assert_eq!(s.fragments.len(), 1);
        assert_eq!(s.fragments[0].len(), shares[0].fragments[0].len());
    }
}

#[test]
fn example_any_three_shares_restore() {
    let shares = create_backup(&vec![secret("hello-world", "correct horse battery")], config(3, 5)).unwrap();
    let restored = restore_backup(&pick(&shares, &[1, 3, 5]), b"correct horse battery").unwrap();
    assert_eq!(restored, vec![b"hello-world".to_vec()]);
    let restored = restore_backup(&pick(&shares, &[4, 2, 3]), b"correct horse battery").unwrap();
    assert_eq!(restored, vec![b"hello-world".to_vec()]);
}

#[test]
fn example_two_shares_are_insufficient() {
    let shares = create_backup(&vec![secret("hello-world", "correct horse battery")], config(3, 5)).unwrap();
    for pair in [[1u8, 2], [2, 5], [4, 3]] {
        assert_eq!(
            restore_backup(&pick(&shares, &pair), b"correct horse battery"),
            Err(BackupError::InsufficientShares)
        );
    }
    // a repeated share counts once
    assert_eq!(
        restore_backup(&pick(&shares, &[2, 2, 5]), b"correct horse battery"),
        Err(BackupError::InsufficientShares)
    );
}

#[test]
fn order_of_shares_does_not_matter() {
    let shares = create_backup(&vec![secret("order", "pass")], config(2, 3)).unwrap();
    let a = restore_backup(&pick(&shares, &[1, 3]), b"pass").unwrap();
    let b = restore_backup(&pick(&shares, &[3, 1]), b"pass").unwrap();
    assert_eq!(a, b);
    assert_eq!(a, vec![b"order".to_vec()]);
}

#[test]
fn wrong_passphrase_is_rejected() {
    let shares = create_backup(&vec![secret("hello-world", "correct horse battery")], config(2, 3)).unwrap();
    assert_eq!(
        restore_backup(&pick(&shares, &[1, 2]), b"correct horse battery!"),
        Err(BackupError::AuthenticationFailure)
    );
}

#[test]
fn all_shares_needed_when_required_equals_total() {
    let shares = create_backup(&vec![secret("n-of-n", "pw")], config(3, 3)).unwrap();
    assert_eq!(restore_backup(&pick(&shares, &[1, 2]), b"pw"), Err(BackupError::InsufficientShares));
    assert_eq!(restore_backup(&pick(&shares, &[1, 3]), b"pw"), Err(BackupError::InsufficientShares));
    assert_eq!(restore_backup(&pick(&shares, &[3, 2]), b"pw"), Err(BackupError::InsufficientShares));
    assert_eq!(restore_backup(&shares, b"pw").unwrap(), vec![b"n-of-n".to_vec()]);
}

#[test]
fn single_share_backup_is_plain_encryption() {
    let shares = create_backup(&vec![secret("solo", "pw")], config(1, 1)).unwrap();
    assert_eq!(shares.len(), 1);
    assert_eq!(shares[0].fragments[0].len(), 16 + 12 + 4 + 16);
    assert_eq!(restore_backup(&shares, b"pw").unwrap(), vec![b"solo".to_vec()]);
}

#[test]
fn several_secrets_in_one_backup() {
    let secrets = vec![secret("first", "pw"), secret("second value", "pw")];
    let shares = create_backup(&secrets, config(2, 3)).unwrap();
    assert!(shares.iter().all(|s| s.fragments.len() == 2));
    let restored = restore_backup(&pick(&shares, &[3, 2]), b"pw").unwrap();
    assert_eq!(restored, vec![b"first".to_vec(), b"second value".to_vec()]);
}

#[test]
fn invalid_configs_are_rejected() {
    let secrets = vec![secret("x", "y")];
    for (r, n) in [(0u8, 0u8), (0, 3), (1, 2), (1, 0), (4, 3), (2, 1), (3, 0)] {
        assert_eq!(create_backup(&secrets, config(r, n)), Err(BackupError::InvalidConfig));
    }
    assert_eq!(create_backup(&vec![], config(0, 1)), Err(BackupError::InvalidConfig));
}

#[test]
fn largest_config_is_accepted() {
    let shares = create_backup(&vec![secret("big", "pw")], config(255, 255)).unwrap();
    assert_eq!(shares.len(), 255);
    assert_eq!(shares[254].number, 255);
}

#[test]
fn empty_inputs_are_rejected() {
    assert_eq!(create_backup(&vec![secret("", "pw")], config(2, 3)), Err(BackupError::EmptyInput));
    assert_eq!(create_backup(&vec![secret("v", "")], config(2, 3)), Err(BackupError::EmptyInput));
    assert_eq!(create_backup(&vec![], config(2, 3)), Err(BackupError::EmptyInput));
    assert_eq!(restore_backup(&vec![], b"pw"), Err(BackupError::InsufficientShares));
    let shares = create_backup(&vec![secret("v", "pw")], config(2, 3)).unwrap();
    assert_eq!(restore_backup(&shares, b""), Err(BackupError::EmptyInput));
}

#[test]
fn inconsistent_shares_are_rejected() {
    let shares = create_backup(&vec![secret("abc", "pw")], config(2, 3)).unwrap();
    let mut other = pick(&shares, &[1, 2]);
    other[1].required_shares = 3;
    assert_eq!(restore_backup(&other, b"pw"), Err(BackupError::InconsistentShares));
    let mut other = pick(&shares, &[1, 2]);
    other[1].fragments[0].pop();
    assert_eq!(restore_backup(&other, b"pw"), Err(BackupError::InconsistentShares));
    let mut other = pick(&shares, &[1, 2]);
    other[0].number = 4;
    assert_eq!(restore_backup(&other, b"pw"), Err(BackupError::InconsistentShares));
}

#[test]
fn tampered_share_fails_authentication() {
    let shares = create_backup(&vec![secret("abc", "pw")], config(2, 3)).unwrap();
    let mut other = pick(&shares, &[1, 2]);
    other[0].fragments[0][40] ^= 1;
    assert_eq!(restore_backup(&other, b"pw"), Err(BackupError::AuthenticationFailure));
}

#[test]
fn one_share_below_threshold_is_uniform() {
    // With two shares required, one share's byte takes every value exactly
    // once as the random coefficient ranges over the field, whatever the
    // secret byte is.
    for x in [1u8, 2, 5, 255] {
        for s in [0u8, 1, 0x68, 0xff] {
            let mut seen = [0u32; 256];
            for c in 0..=255u8 {
                seen[eval_hiding_poly(s, &vec![c], x) as usize] += 1;
            }
            assert!(seen.iter().all(|n| *n == 1));
        }
    }
}
