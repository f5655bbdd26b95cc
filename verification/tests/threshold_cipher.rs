use aes_gcm::aead::{Aead, KeyInit};
use group::{Group, GroupEncoding};
use sha2::Digest;
use threshold_ecies::cipher::{
    combine_shares, decrypt_with_S, derive_symmetric_key, encrypt, encrypt_with,
    partial_decrypt_share, threshold_decrypt, Ciphertext, PartialDecryption,
};
use threshold_ecies::dkg::{aggregate, generate, SecretShare};
use threshold_ecies::error::ThresholdError;
use threshold_ecies::field::Scalar;
use threshold_ecies::group::Point;
use threshold_ecies::polynomial::Polynomial;
use threshold_ecies::protocol::simulate;

fn dealer(values: &[u64]) -> Polynomial {
    Polynomial::from_coefficients(values.iter().map(|v| Scalar::from_u64(*v)).collect()).unwrap()
}

fn partials(shares: &[SecretShare], ct: &Ciphertext, picked: &[usize]) -> Vec<PartialDecryption> {
    picked
        .iter()
        .map(|i| partial_decrypt_share(&shares[*i - 1], ct, shares.len()).unwrap())
        .collect()
}

fn point(p: jubjub::SubgroupPoint) -> Point {
    Point::from_bytes(&p.to_bytes()).unwrap()
}

#[test]
fn example_scenario_five_participants_threshold_three() {
    let (key, shares) = generate(5, 3).expect("entropy");
    let message = b"Hello Threshold DKG + ECIES!";
    let ct = encrypt(&key, message).unwrap();
    let part = partials(&shares, &ct, &[1, 2, 3]);
    let s = combine_shares(&part, 3).unwrap();
    assert_eq!(decrypt_with_S(&s, &ct).unwrap(), message.to_vec());
}

#[test]
fn every_subset_of_three_out_of_five_decrypts() {
    let (key, shares) = generate(5, 3).expect("entropy");
    let message = b"any three of five";
    let ct = encrypt(&key, message).unwrap();
    for a in 1..=5usize {
        for b in (a + 1)..=5 {
            for c in (b + 1)..=5 {
                let s = combine_shares(&partials(&shares, &ct, &[a, b, c]), 3).unwrap();
                assert_eq!(decrypt_with_S(&s, &ct).unwrap(), message.to_vec());
            }
        }
    }
}

#[test]
fn other_parameters_decrypt_too() {
    for (n, t) in [(1usize, 1usize), (2, 1), (2, 2), (3, 2), (4, 4), (7, 5)] {
        let (key, shares) = generate(n, t).expect("entropy");
        let ct = encrypt(&key, b"parameters").unwrap();
        let first: Vec<usize> = (1..=t).collect();
        let last: Vec<usize> = ((n - t + 1)..=n).collect();
        for picked in [first, last] {
            let s = combine_shares(&partials(&shares, &ct, &picked), t).unwrap();
            assert_eq!(decrypt_with_S(&s, &ct).unwrap(), b"parameters".to_vec());
        }
    }
}

#[test]
fn distinct_subsets_reconstruct_one_shared_point() {
    let (key, shares) = generate(5, 3).expect("entropy");
    let ct = encrypt(&key, b"robust").unwrap();
    let expected = combine_shares(&partials(&shares, &ct, &[1, 2, 3]), 3).unwrap().to_bytes();
    let others =
        [vec![3usize, 4, 5], vec![1, 3, 5], vec![2, 4, 5], vec![1, 2, 3, 4], vec![1, 2, 3, 4, 5]];
    for picked in others {
        let s = combine_shares(&partials(&shares, &ct, &picked), 3).unwrap();
        assert_eq!(s.to_bytes(), expected);
    }
}

#[test]
fn the_order_of_the_partials_does_not_matter() {
    let (key, shares) = generate(5, 3).expect("entropy");
    let ct = encrypt(&key, b"order").unwrap();
    let expected = combine_shares(&partials(&shares, &ct, &[1, 2, 4]), 3).unwrap().to_bytes();
    for picked in [[1usize, 4, 2], [2, 1, 4], [2, 4, 1], [4, 1, 2], [4, 2, 1]] {
        let s = combine_shares(&partials(&shares, &ct, &picked), 3).unwrap();
        assert_eq!(s.to_bytes(), expected);
    }
}

#[test]
fn the_shared_point_is_the_key_times_the_ephemeral_scalar() {
    let dealers = vec![dealer(&[3, 1, 4]), dealer(&[10, 5, 9])];
    let (key, shares) = aggregate(&dealers, 4);
    let r = Scalar::from_u64(1000);
    let ct = encrypt_with(&key, b"known randomness", &r, [7u8; 12]).unwrap();
    assert_eq!(
        ct.r.to_bytes(),
        (jubjub::SubgroupPoint::generator() * jubjub::Fr::from(1000)).to_bytes()
    );
    let s = combine_shares(&partials(&shares, &ct, &[2, 3, 4]), 3).unwrap();
    // master secret 13, ephemeral scalar 1000
    assert_eq!(
        s.to_bytes(),
        (jubjub::SubgroupPoint::generator() * jubjub::Fr::from(13000)).to_bytes()
    );
}

#[test]
fn round_trip_of_the_empty_message() {
    let (key, shares) = generate(5, 3).expect("entropy");
    let ct = encrypt(&key, b"").unwrap();
    assert_eq!(ct.ct.len(), 16);
    let s = combine_shares(&partials(&shares, &ct, &[2, 3, 5]), 3).unwrap();
    assert_eq!(decrypt_with_S(&s, &ct).unwrap(), Vec::<u8>::new());
}

#[test]
fn round_trip_of_a_megabyte() {
    let (key, shares) = generate(5, 3).expect("entropy");
    let message: Vec<u8> = (0..(1usize << 20)).map(|i| (i % 251) as u8).collect();
    let ct = encrypt(&key, &message).unwrap();
    assert_eq!(ct.ct.len(), message.len() + 16);
    let s = combine_shares(&partials(&shares, &ct, &[1, 4, 5]), 3).unwrap();
    assert_eq!(decrypt_with_S(&s, &ct).unwrap(), message);
}

#[test]
fn fewer_shares_than_the_threshold_are_refused() {
    let (key, shares) = generate(5, 3).expect("entropy");
    let ct = encrypt(&key, b"threshold").unwrap();
    let two = partials(&shares, &ct, &[1, 2]);
    assert_eq!(combine_shares(&two, 3).err(), Some(ThresholdError::InsufficientShares));
    assert_eq!(combine_shares(&[], 1).err(), Some(ThresholdError::InsufficientShares));
}

#[test]
fn fewer_shares_than_the_threshold_do_not_decrypt() {
    let (key, shares) = generate(5, 3).expect("entropy");
    let ct = encrypt(&key, b"threshold").unwrap();
    // combined as though the threshold were two, the point is wrong
    for picked in [[1usize, 2], [3, 5]] {
        let s = combine_shares(&partials(&shares, &ct, &picked), 2).unwrap();
        assert_eq!(decrypt_with_S(&s, &ct).err(), Some(ThresholdError::DecryptionFailure));
    }
    let one = combine_shares(&partials(&shares, &ct, &[4]), 1).unwrap();
    assert_eq!(decrypt_with_S(&one, &ct).err(), Some(ThresholdError::DecryptionFailure));
}

#[test]
fn shares_for_another_ciphertext_do_not_decrypt() {
    let (key, shares) = generate(5, 3).expect("entropy");
    let ct = encrypt(&key, b"first").unwrap();
    let other = encrypt(&key, b"second").unwrap();
    let s = combine_shares(&partials(&shares, &other, &[1, 2, 3]), 3).unwrap();
    assert_eq!(decrypt_with_S(&s, &ct).err(), Some(ThresholdError::DecryptionFailure));
}

#[test]
fn shares_of_another_key_generation_do_not_decrypt() {
    let (key, _) = generate(5, 3).expect("entropy");
    let (_, strangers) = generate(5, 3).expect("entropy");
    let ct = encrypt(&key, b"mine").unwrap();
    let s = combine_shares(&partials(&strangers, &ct, &[1, 2, 3]), 3).unwrap();
    assert_eq!(decrypt_with_S(&s, &ct).err(), Some(ThresholdError::DecryptionFailure));
}

#[test]
fn flipping_any_byte_of_the_sealed_message_fails_decryption() {
    let (key, shares) = generate(5, 3).expect("entropy");
    let ct = encrypt(&key, b"tamper").unwrap();
    for picked in [[1usize, 2, 3], [2, 3, 5]] {
        let s = combine_shares(&partials(&shares, &ct, &picked), 3).unwrap();
        for position in 0..ct.ct.len() {
            let mut altered = ct.clone();
            altered.ct[position] ^= 0x01;
            assert_eq!(
                decrypt_with_S(&s, &altered).err(),
                Some(ThresholdError::DecryptionFailure)
            );
        }
        assert!(decrypt_with_S(&s, &ct).is_ok());
    }
}

#[test]
fn altered_nonce_or_truncated_message_fails_decryption() {
    let (key, shares) = generate(3, 2).expect("entropy");
    let ct = encrypt(&key, b"nonce").unwrap();
    let s = combine_shares(&partials(&shares, &ct, &[1, 3]), 2).unwrap();
    let mut altered = ct.clone();
    altered.nonce[0] ^= 0x80;
    assert_eq!(decrypt_with_S(&s, &altered).err(), Some(ThresholdError::DecryptionFailure));
    let mut short = ct.clone();
    short.ct.truncate(15);
    assert_eq!(decrypt_with_S(&s, &short).err(), Some(ThresholdError::DecryptionFailure));
    let mut empty = ct.clone();
    empty.ct.clear();
    assert_eq!(decrypt_with_S(&s, &empty).err(), Some(ThresholdError::DecryptionFailure));
}

#[test]
fn duplicate_indices_are_refused() {
    let (key, shares) = generate(5, 3).expect("entropy");
    let ct = encrypt(&key, b"duplicate").unwrap();
    let twice = partials(&shares, &ct, &[1, 2, 2]);
    assert_eq!(combine_shares(&twice, 3).err(), Some(ThresholdError::DuplicateIndex));
    let more = partials(&shares, &ct, &[1, 2, 3, 1]);
    assert_eq!(combine_shares(&more, 3).err(), Some(ThresholdError::DuplicateIndex));
    // one index with two different points is a duplicate as well
    let mut forged = partials(&shares, &ct, &[1, 2, 3]);
    forged[2].index = 1;
    assert_eq!(combine_shares(&forged, 3).err(), Some(ThresholdError::DuplicateIndex));
}

#[test]
fn too_few_is_reported_before_duplicates() {
    let (key, shares) = generate(5, 3).expect("entropy");
    let ct = encrypt(&key, b"order of checks").unwrap();
    let twice = partials(&shares, &ct, &[2, 2]);
    assert_eq!(combine_shares(&twice, 3).err(), Some(ThresholdError::InsufficientShares));
}

#[test]
fn partial_decryption_is_the_ephemeral_point_times_the_share() {
    let share = SecretShare { index: 2, value: Scalar::from_u64(6) };
    let ct = Ciphertext {
        r: point(jubjub::SubgroupPoint::generator() * jubjub::Fr::from(7)),
        ct: Vec::new(),
        nonce: [0u8; 12],
    };
    let p = partial_decrypt_share(&share, &ct, 3).unwrap();
    assert_eq!(p.index, 2);
    assert_eq!(
        p.point.to_bytes(),
        (jubjub::SubgroupPoint::generator() * jubjub::Fr::from(42)).to_bytes()
    );
}

#[test]
fn partial_decryption_refuses_an_index_out_of_range() {
    let ct = Ciphertext {
        r: point(jubjub::SubgroupPoint::generator()),
        ct: Vec::new(),
        nonce: [0u8; 12],
    };
    for index in [0usize, 4, usize::MAX] {
        let share = SecretShare { index, value: Scalar::from_u64(1) };
        assert_eq!(
            partial_decrypt_share(&share, &ct, 3).err(),
            Some(ThresholdError::InvalidShare)
        );
    }
    for index in [1usize, 3] {
        let share = SecretShare { index, value: Scalar::from_u64(1) };
        assert!(partial_decrypt_share(&share, &ct, 3).is_ok());
    }
}

#[test]
fn symmetric_key_is_the_digest_of_the_encoding() {
    let p = jubjub::SubgroupPoint::generator() * jubjub::Fr::from(99);
    let expected: [u8; 32] = sha2::Sha256::digest(p.to_bytes()).into();
    assert_eq!(derive_symmetric_key(&point(p)), expected);
    assert_ne!(derive_symmetric_key(&point(p)), p.to_bytes());
}

#[test]
fn encryption_seals_under_the_hashed_shared_point() {
    let key = jubjub::SubgroupPoint::generator() * jubjub::Fr::from(5);
    let r = Scalar::from_u64(11);
    let nonce = [3u8; 12];
    let ct = encrypt_with(&point(key), b"sealed", &r, nonce).unwrap();
    assert_eq!(ct.nonce, nonce);
    assert_eq!(ct.ct.len(), 6 + 16);
    assert_ne!(&ct.ct[..6], b"sealed");
    // whoever knows the shared point can open the message with the cipher alone
    let shared = jubjub::SubgroupPoint::generator() * jubjub::Fr::from(55);
    let symmetric: [u8; 32] = sha2::Sha256::digest(shared.to_bytes()).into();
    let cipher =
        aes_gcm::Aes256Gcm::new(aes_gcm::Key::<aes_gcm::Aes256Gcm>::from_slice(&symmetric));
    let opened = cipher.decrypt(aes_gcm::Nonce::from_slice(&nonce), ct.ct.as_slice()).unwrap();
    assert_eq!(opened, b"sealed".to_vec());
    assert_eq!(decrypt_with_S(&point(shared), &ct).unwrap(), b"sealed".to_vec());
}

#[test]
fn encryption_is_randomised() {
    let (key, _) = generate(2, 2).expect("entropy");
    let a = encrypt(&key, b"same message").unwrap();
    let b = encrypt(&key, b"same message").unwrap();
    assert_ne!(a.r.to_bytes(), b.r.to_bytes());
    assert_ne!(a.nonce, b.nonce);
    assert_ne!(a.ct, b.ct);
}

#[test]
fn decryption_with_a_wrong_point_fails() {
    let (key, _) = generate(3, 2).expect("entropy");
    let ct = encrypt(&key, b"wrong key").unwrap();
    assert_eq!(decrypt_with_S(&key, &ct).err(), Some(ThresholdError::DecryptionFailure));
    let g = point(jubjub::SubgroupPoint::generator());
    assert_eq!(decrypt_with_S(&g, &ct).err(), Some(ThresholdError::DecryptionFailure));
}

#[test]
fn ciphertext_serializes_as_point_nonce_and_sealed_message() {
    let key = point(jubjub::SubgroupPoint::generator() * jubjub::Fr::from(5));
    let ct = encrypt_with(&key, b"wire", &Scalar::from_u64(11), [9u8; 12]).unwrap();
    let bytes = ct.to_bytes();
    assert_eq!(bytes.len(), 32 + 12 + 4 + 16);
    assert_eq!(
        &bytes[..32],
        &(jubjub::SubgroupPoint::generator() * jubjub::Fr::from(11)).to_bytes()[..]
    );
    assert_eq!(&bytes[32..44], &[9u8; 12][..]);
    assert_eq!(&bytes[44..], ct.ct.as_slice());
}

#[test]
fn ciphertext_parsing_inverts_serialization() {
    let (key, shares) = generate(3, 2).expect("entropy");
    let ct = encrypt(&key, b"over the wire").unwrap();
    let parsed = Ciphertext::from_bytes(&ct.to_bytes()).expect("well formed");
    assert_eq!(parsed.r.to_bytes(), ct.r.to_bytes());
    assert_eq!(parsed.nonce, ct.nonce);
    assert_eq!(parsed.ct, ct.ct);
    let s = combine_shares(&partials(&shares, &parsed, &[2, 3]), 2).unwrap();
    assert_eq!(decrypt_with_S(&s, &parsed).unwrap(), b"over the wire".to_vec());
}

#[test]
fn ciphertext_parsing_refuses_malformed_input() {
    let g = jubjub::SubgroupPoint::generator().to_bytes();
    assert!(Ciphertext::from_bytes(&[]).is_none());
    assert!(Ciphertext::from_bytes(&g).is_none());
    let mut bytes = g.to_vec();
    bytes.extend_from_slice(&[0u8; 11]);
    assert!(Ciphertext::from_bytes(&bytes).is_none());
    bytes.push(0);
    let empty = Ciphertext::from_bytes(&bytes).expect("point and nonce suffice");
    assert!(empty.ct.is_empty());
    // the point must be an element of the subgroup
    let mut bad = vec![0xffu8; 32];
    bad.extend_from_slice(&[0u8; 28]);
    assert!(Ciphertext::from_bytes(&bad).is_none());
}

#[test]
fn threshold_decrypt_combines_and_decrypts() {
    let (key, shares) = generate(5, 3).expect("entropy");
    let ct = encrypt(&key, b"in one step").unwrap();
    let part = partials(&shares, &ct, &[5, 1, 3]);
    assert_eq!(threshold_decrypt(&part, 3, &ct).unwrap(), b"in one step".to_vec());
}

#[test]
fn threshold_decrypt_reports_each_failure() {
    let (key, shares) = generate(5, 3).expect("entropy");
    let ct = encrypt(&key, b"failures").unwrap();
    assert_eq!(
        threshold_decrypt(&partials(&shares, &ct, &[1, 2]), 3, &ct).err(),
        Some(ThresholdError::InsufficientShares)
    );
    assert_eq!(
        threshold_decrypt(&partials(&shares, &ct, &[1, 2, 1]), 3, &ct).err(),
        Some(ThresholdError::DuplicateIndex)
    );
    assert_eq!(
        threshold_decrypt(&partials(&shares, &ct, &[1, 2]), 2, &ct).err(),
        Some(ThresholdError::DecryptionFailure)
    );
    let mut altered = ct.clone();
    altered.ct[0] ^= 0xff;
    assert_eq!(
        threshold_decrypt(&partials(&shares, &ct, &[1, 2, 3]), 3, &altered).err(),
        Some(ThresholdError::DecryptionFailure)
    );
}

#[test]
fn simulated_run_recovers_the_message() {
    let message = b"Hello Threshold DKG + ECIES!";
    let run = simulate(5, 3, message).expect("entropy");
    assert_eq!(run.decrypted, message.to_vec());
    assert_eq!(run.ciphertext.ct.len(), message.len() + 16);
    assert!(Point::from_bytes(&run.key.to_bytes()).is_some());
    for (n, t) in [(1usize, 1usize), (3, 3), (6, 2)] {
        assert_eq!(simulate(n, t, b"again").expect("entropy").decrypted, b"again".to_vec());
    }
}
