use curve25519_dalek::constants::ED25519_BASEPOINT_TABLE;
use curve25519_dalek::edwards::CompressedEdwardsY;
use curve25519_dalek::Scalar;
use rand::Rng;
use sha2::{Digest, Sha256, Sha512};

use scylla::aont::{aont_inv, aont_with_seed, concat_fragments, copy_bytes, KAPPA};
use scylla::bytes::{append_bytes, append_zeros, u128_from_be, u128_to_be, xor};
use scylla::error::Error;
use scylla::keys::{h_b, h_mu, h_pi, h_rho, mu, pi, pi_inv};
use scylla::onion::{bytes_eq, is_zero, to_array, Flag, Node, ProcessedOnion, Scylla};

const ADDR_LEN: usize = 32;

fn private_key() -> [u8; 32] {
    let wide: [u8; 64] = rand::rng().random();
    Scalar::from_bytes_mod_order_wide(&wide).to_bytes()
}

fn public_key_of(sk: &[u8; 32]) -> [u8; 32] {
    (ED25519_BASEPOINT_TABLE * &Scalar::from_bytes_mod_order(*sk)).compress().0
}

fn shared_secret(alpha: &[u8; 32], sk: &[u8; 32]) -> [u8; 32] {
    let point = CompressedEdwardsY(*alpha).decompress().unwrap();
    (point * Scalar::from_bytes_mod_order(*sk)).compress().0
}

fn test_nodes() -> (Vec<[u8; 32]>, Vec<Node>) {
    let keys: Vec<[u8; 32]> = (0..4).map(|_| private_key()).collect();
    let nodes = keys
        .iter()
        .enumerate()
        .map(|(i, k)| Node::from_private_key([i as u8; ADDR_LEN], k))
        .collect();
    (keys, nodes)
}

#[test]
fn xor_takes_the_shorter_length() {
    assert_eq!(xor(&[1, 2, 3], &[3, 2, 1, 9]), vec![2, 0, 2]);
    assert_eq!(xor(&[0xff, 0x0f], &[0x0f]), vec![0xf0]);
    assert_eq!(xor(&[], &[1, 2]), Vec::<u8>::new());
}

#[test]
fn concat_puts_bytes_one_after_the_other() {
    assert_eq!(scylla::bytes::concat(b"foo", b"bar"), b"foobar".to_vec());
    assert_eq!(scylla::bytes::concat(b"", b"x"), b"x".to_vec());
}

#[test]
fn append_bytes_and_zeros() {
    let mut v = vec![7u8];
    append_bytes(&mut v, &[1, 2]);
    append_zeros(&mut v, 3);
    assert_eq!(v, vec![7, 1, 2, 0, 0, 0]);
}

#[test]
fn big_endian_encoding() {
    let mut one = vec![0u8; 15];
    one.push(1);
    assert_eq!(u128_to_be(1), one);
    assert_eq!(u128_from_be(&one), 1);
    let v: u128 = 0x0102_0304_0506_0708_090a_0b0c_0d0e_0f10;
    let bytes = u128_to_be(v);
    assert_eq!(bytes, (1..=16).collect::<Vec<u8>>());
    assert_eq!(u128_from_be(&bytes), v);
    assert_eq!(u128_from_be(&u128_to_be(u128::MAX)), u128::MAX);
    assert_eq!(u128_to_be(v), v.to_be_bytes().to_vec());
}

#[test]
fn byte_helpers() {
    assert!(bytes_eq(&[1, 2], &[1, 2]));
    assert!(!bytes_eq(&[1, 2], &[1, 3]));
    assert!(!bytes_eq(&[1], &[1, 0]));
    assert!(is_zero(&[0, 0, 0]));
    assert!(!is_zero(&[0, 1]));
    let a: [u8; 3] = to_array(&[4, 5, 6]);
    assert_eq!(a, [4, 5, 6]);
    assert_eq!(copy_bytes(&[9, 8]), vec![9, 8]);
    assert_eq!(concat_fragments(&[vec![1], vec![], vec![2, 3]]), vec![1, 2, 3]);
}

#[test]
fn error_messages() {
    assert_eq!(Error::InvalidFragmentSize.message(), "fragments are of wrong size");
    assert_eq!(Error::InvalidPathCount.message(), "wrong number of paths given");
    assert_eq!(Error::MacMismatch.message(), "integrity check failed");
    assert_eq!(Error::InvalidHeaderFlag.message(), "an invalid header flag has been sent");
    assert_eq!(Error::MissingFragments.message(), "fragment set is incomplete");
    assert_eq!(Error::DivergingPaths.message(), "the paths don't end at the same node");
}

#[test]
fn flag_bytes() {
    assert_eq!(Flag::Deliver.as_byte(), 0xf0);
    assert_eq!(Flag::Relay.as_byte(), 0xf1);
    assert_eq!(Flag::Fragment.as_byte(), 0xf2);
}

#[test]
fn header_length_formula() {
    assert_eq!(Scylla::new(5, 128).header_length(), 60 * 4 + 52);
    assert_eq!(Scylla::new(1, 128).header_length(), 52);
    assert_eq!(Scylla::new(3, 1024).header_length(), 172);
}

#[test]
fn key_derivations_match_their_hashes() {
    let a = [5u8; 32];
    let b = [6u8; 32];

    let mut hasher = Sha512::new();
    hasher.update(b"h_b");
    hasher.update(a);
    hasher.update(b);
    let wide: [u8; 64] = hasher.finalize().into();
    assert_eq!(h_b(&a, &b), Scalar::from_bytes_mod_order_wide(&wide).to_bytes());

    let mut hasher = Sha256::new();
    hasher.update(b"h_rho");
    hasher.update(a);
    assert_eq!(h_rho(&a), hasher.finalize().to_vec());

    let mut hasher = Sha256::new();
    hasher.update(b"h_mu");
    hasher.update(a);
    assert_eq!(h_mu(&a), hasher.finalize()[..KAPPA].to_vec());

    let mut hasher = Sha256::new();
    hasher.update(b"mu");
    hasher.update([1u8; 16]);
    hasher.update(b"data");
    assert_eq!(mu(&[1u8; 16], b"data"), hasher.finalize()[..KAPPA].to_vec());

    let hkdf = hkdf::Hkdf::<Sha256>::new(Some(b"h_pi"), &a);
    let mut okm = [0u8; 192];
    hkdf.expand(&[], &mut okm).unwrap();
    assert_eq!(h_pi(&a), okm);
}

#[test]
fn payload_cipher_round_trip() {
    let key = h_pi(&[3u8; 32]);
    let data: Vec<u8> = (0..40).collect();
    let enc = pi(&key, &data);
    assert_eq!(enc.len(), data.len());
    assert_ne!(enc, data);
    assert_eq!(pi_inv(&key, &enc), data);
    assert_eq!(pi(&key, &pi_inv(&key, &data)), data);
    assert!(pi(&key, &[]).is_empty());
    assert!(pi_inv(&key, &[]).is_empty());
}

#[test]
fn aont_with_fixed_seed_masks_and_inverts() {
    let fragments = vec![b"hello".to_vec(), b"world!".to_vec()];
    let seed = [9u8; KAPPA];
    let transformed = aont_with_seed(&seed, &fragments);
    assert_eq!(transformed.len(), 2);
    assert_eq!(transformed[0].len(), KAPPA + 5);
    assert_eq!(transformed[1].len(), 6);
    assert_ne!(&transformed[0][KAPPA..], b"hello");
    assert_ne!(transformed[1], b"world!".to_vec());
    assert_eq!(aont_with_seed(&seed, &fragments), transformed);
    assert_eq!(aont_inv(&transformed).unwrap(), fragments);
}

#[test]
fn aont_single_empty_fragment() {
    let fragments = vec![Vec::new()];
    let transformed = aont_with_seed(&[1u8; KAPPA], &fragments);
    assert_eq!(transformed[0].len(), KAPPA);
    assert_eq!(aont_inv(&transformed).unwrap(), fragments);
}

#[test]
fn node_keys_are_base_point_multiples() {
    let sk = private_key();
    let node = Node::from_private_key([7; ADDR_LEN], &sk);
    assert_eq!(node.address(), [7; ADDR_LEN]);
    assert_eq!(node.public_key(), public_key_of(&sk));
    let (sk2, node2) = Node::random(rand::rng());
    assert_eq!(node2.public_key(), public_key_of(&sk2));
    assert_eq!(Scalar::from_bytes_mod_order(sk2).to_bytes(), sk2);
}

#[test]
fn create_onions_rejects_wrong_path_count() {
    let (_, nodes) = test_nodes();
    let scylla = Scylla::new(5, 128);
    let res = scylla.create_onions(&[nodes.clone()], &[13; ADDR_LEN], vec![vec![2; 64], vec![3; 128]]);
    assert!(matches!(res, Err(Error::InvalidPathCount)));
}

#[test]
fn create_onions_rejects_wrong_first_fragment_size() {
    let (_, nodes) = test_nodes();
    let scylla = Scylla::new(5, 128);
    let res = scylla.create_onions(&[nodes.clone(), nodes.clone()], &[13; ADDR_LEN], vec![vec![2; 65], vec![3; 128]]);
    assert!(matches!(res, Err(Error::InvalidFragmentSize)));
}

#[test]
fn create_onions_rejects_wrong_later_fragment_size() {
    let (_, nodes) = test_nodes();
    let scylla = Scylla::new(5, 128);
    let res = scylla.create_onions(&[nodes.clone(), nodes.clone()], &[13; ADDR_LEN], vec![vec![2; 64], vec![3; 127]]);
    assert!(matches!(res, Err(Error::InvalidFragmentSize)));
}

#[test]
fn create_onions_rejects_diverging_paths() {
    let (_, nodes) = test_nodes();
    let scylla = Scylla::new(5, 128);
    let other = vec![nodes[3], nodes[2], nodes[1], nodes[0]];
    let res = scylla.create_onions(&[nodes.clone(), other], &[13; ADDR_LEN], vec![vec![2; 64], vec![3; 128]]);
    assert!(matches!(res, Err(Error::DivergingPaths)));
}

#[test]
fn create_onions_without_fragments_gives_none() {
    let scylla = Scylla::new(5, 128);
    let res = scylla.create_onions(&[], &[13; ADDR_LEN], vec![]).unwrap();
    assert!(res.is_empty());
}

#[test]
fn onions_have_the_same_size_at_every_hop() {
    let (keys, nodes) = test_nodes();
    let scylla = Scylla::new(5, 128);
    let size = 32 + 292 + 16 + 128;
    let onions = scylla
        .create_onions(&[nodes.clone(), nodes.clone()], &[13; ADDR_LEN], vec![vec![2; 64], vec![3; 128]])
        .unwrap();
    assert_eq!(onions.len(), 2);
    for onion in onions {
        assert_eq!(onion.len(), size);
        let mut current = onion;
        for (hop, key) in keys.iter().enumerate() {
            match scylla.process(key, &current).unwrap() {
                ProcessedOnion::Relay { meta, onion } => {
                    assert!(hop < 3);
                    assert_eq!(&meta[..ADDR_LEN], &[hop as u8 + 1; ADDR_LEN]);
                    assert_eq!(&meta[ADDR_LEN..], &[0u8; 11]);
                    assert_eq!(onion.len(), size);
                    current = onion;
                }
                ProcessedOnion::Fragment { data, .. } => {
                    assert_eq!(hop, 3);
                    assert_eq!(data.len(), 128);
                }
                ProcessedOnion::Reply { .. } => panic!("no reply expected"),
            }
        }
    }
}

#[test]
fn fragments_carry_their_index_and_set() {
    let (keys, nodes) = test_nodes();
    let scylla = Scylla::new(4, 100);
    let paths = vec![nodes.clone(), nodes.clone(), nodes.clone()];
    let onions = scylla
        .create_onions(&paths, &[1; ADDR_LEN], vec![vec![1; 36], vec![2; 100], vec![3; 100]])
        .unwrap();
    let mut set_ids = vec![];
    let mut fragments = vec![];
    for (i, onion) in onions.into_iter().enumerate() {
        let mut current = onion;
        for key in &keys[..3] {
            match scylla.process(key, &current).unwrap() {
                ProcessedOnion::Relay { onion, .. } => current = onion,
                _ => panic!("relay expected"),
            }
        }
        match scylla.process(&keys[3], &current).unwrap() {
            ProcessedOnion::Fragment { set_id, index, data } => {
                assert_eq!(index, i as u128);
                set_ids.push(set_id);
                fragments.push(data);
            }
            _ => panic!("fragment expected"),
        }
    }
    assert!(set_ids.iter().all(|s| *s == set_ids[0]));
    let (destination, message) = scylla.defrag(&fragments).unwrap();
    assert_eq!(destination, [1; ADDR_LEN]);
    let mut expected = vec![1u8; 36];
    expected.extend(vec![2u8; 100]);
    expected.extend(vec![3u8; 100]);
    assert_eq!(message, expected);
    let again = scylla.try_defrag(&fragments).unwrap().unwrap();
    assert_eq!(again.1, expected);
}

#[test]
fn incomplete_fragment_set_is_refused() {
    let (keys, nodes) = test_nodes();
    let scylla = Scylla::new(1, 128);
    let single = vec![nodes[3]];
    let onions = scylla
        .create_onions(&[single.clone(), single], &[13; ADDR_LEN], vec![vec![2; 64], vec![3; 128]])
        .unwrap();
    let mut datas = vec![];
    for onion in onions {
        match scylla.process(&keys[3], &onion).unwrap() {
            ProcessedOnion::Fragment { data, .. } => datas.push(data),
            _ => panic!("fragment expected"),
        }
    }
    assert!(matches!(scylla.defrag(&datas[..1]), Err(Error::MissingFragments)));
    assert!(matches!(scylla.defrag(&[datas[1].clone(), datas[0].clone()]), Err(Error::MissingFragments)));
    assert!(scylla.defrag(&datas).is_ok());
}

#[test]
fn tampered_header_fails_the_mac() {
    let (keys, nodes) = test_nodes();
    let scylla = Scylla::new(5, 128);
    let (_, surb) = scylla.create_surb(&nodes, &[1; 51]);
    assert_eq!(surb.len(), 32 + 292 + 16);
    let mut onion = surb.clone();
    onion.extend([0u8; 40]);
    assert!(scylla.process(&keys[0], &onion).is_ok());
    let mut tampered = onion.clone();
    tampered[40] ^= 1;
    assert!(matches!(scylla.process(&keys[0], &tampered), Err(Error::MacMismatch)));
    let mut tampered = onion.clone();
    tampered[32 + 292] ^= 1;
    assert!(matches!(scylla.process(&keys[0], &tampered), Err(Error::MacMismatch)));
    assert!(matches!(scylla.process(&keys[1], &onion), Err(Error::MacMismatch)));
}

#[test]
fn unknown_flags_are_refused() {
    let scylla = Scylla::new(2, 0);
    let header_length = scylla.header_length() as usize;
    let sk = private_key();
    let alpha = public_key_of(&private_key());
    let secret = shared_secret(&alpha, &sk);
    let mut counts = [0usize; 4];
    for first in 0..=255u8 {
        let mut beta = vec![0u8; header_length];
        beta[0] = first;
        let gamma = mu(&h_mu(&secret), &beta);
        let mut onion = alpha.to_vec();
        onion.extend(&beta);
        onion.extend(&gamma);
        match scylla.process(&sk, &onion) {
            Ok(ProcessedOnion::Relay { onion: next, .. }) => {
                assert_eq!(next.len(), onion.len());
                counts[0] += 1
            }
            Ok(ProcessedOnion::Fragment { .. }) => counts[1] += 1,
            Ok(ProcessedOnion::Reply { .. }) => counts[2] += 1,
            Err(Error::InvalidHeaderFlag) => counts[3] += 1,
            Err(e) => panic!("unexpected error {e:?}"),
        }
    }
    assert_eq!(counts, [1, 1, 1, 253]);
}

#[test]
fn non_points_are_not_processed() {
    let (keys, nodes) = test_nodes();
    let scylla = Scylla::new(5, 128);
    let (_, surb) = scylla.create_surb(&nodes, &[1; 51]);
    assert!(scylla.try_process(&keys[0], &surb).unwrap().is_ok());
    let mut bad = None;
    for i in 0..=255u8 {
        let mut candidate = [0u8; 32];
        candidate[0] = i;
        candidate[1] = 0x55;
        if CompressedEdwardsY(candidate).decompress().is_none() {
            bad = Some(candidate);
            break;
        }
    }
    let bad = bad.unwrap();
    let mut onion = surb.clone();
    onion[..32].copy_from_slice(&bad);
    assert!(scylla.try_process(&keys[0], &onion).is_none());
}

#[test]
fn reply_without_layers_is_unchanged() {
    let scylla = Scylla::new(5, 128);
    let data: Vec<u8> = (0..50).collect();
    let no_keys: [[u8; 192]; 0] = [];
    assert_eq!(scylla.unwrap_reply(&no_keys, &data), data);
    let key = h_pi(&[8u8; 32]);
    assert_eq!(scylla.unwrap_reply(&[key], &pi_inv(&key, &data)), data);
}

#[test]
fn surb_keys_belong_to_the_path() {
    let (keys, nodes) = test_nodes();
    let scylla = Scylla::new(5, 128);
    let (secrets, surb) = scylla.create_surb(&nodes, &[2; 51]);
    assert_eq!(secrets.len(), 4);
    let alpha: [u8; 32] = surb[..32].try_into().unwrap();
    assert_eq!(secrets[0], h_pi(&shared_secret(&alpha, &keys[0])));
}

#[test]
fn reply_unwrapping_composes() {
    let scylla = Scylla::new(5, 128);
    assert_eq!(scylla.unwrap_reply(&[], b"abc"), b"abc".to_vec());
    let k1 = h_pi(&[1u8; 32]);
    let k2 = h_pi(&[2u8; 32]);
    let data: Vec<u8> = (0..35).collect();
    let both = scylla.unwrap_reply(&[k1, k2], &data);
    assert_eq!(both.len(), data.len());
    assert_eq!(both, scylla.unwrap_reply(&[k1], &scylla.unwrap_reply(&[k2], &data)));
    assert_eq!(scylla.unwrap_reply(&[k1], &data), pi(&k1, &data));
    assert_eq!(Scylla::new(2, 7).unwrap_reply(&[k1, k2], &data), both);
}

#[test]
fn every_onion_starts_with_a_curve_point() {
    let (keys, nodes) = test_nodes();
    let scylla = Scylla::new(5, 128);
    let onions = scylla
        .create_onions(&[nodes.clone()], &[13; ADDR_LEN], vec![vec![2; 64]])
        .unwrap();
    let mut current = onions[0].clone();
    for key in &keys[..3] {
        let alpha: [u8; 32] = current[..32].try_into().unwrap();
        let point = CompressedEdwardsY(alpha).decompress().unwrap();
        assert_eq!(point.compress().0, alpha);
        match scylla.process(key, &current).unwrap() {
            ProcessedOnion::Relay { onion, .. } => current = onion,
            _ => panic!("relay expected"),
        }
    }
    let (_, surb) = scylla.create_surb(&nodes, &[4; 51]);
    let alpha: [u8; 32] = surb[..32].try_into().unwrap();
    assert_eq!(CompressedEdwardsY(alpha).decompress().unwrap().compress().0, alpha);
}

#[test]
fn create_onions_reports_argument_errors_for_any_format() {
    let scylla = Scylla::new(0, 128);
    let res = scylla.create_onions(&[], &[0; ADDR_LEN], vec![vec![0; 64]]);
    assert!(matches!(res, Err(Error::InvalidPathCount)));
    let (_, nodes) = test_nodes();
    let res = scylla.create_onions(&[nodes.clone()], &[0; ADDR_LEN], vec![vec![0; 10]]);
    assert!(matches!(res, Err(Error::InvalidFragmentSize)));
}
