use std::collections::HashMap;

use curve25519_dalek::Scalar;
use rand::Rng;
use scylla::aont::{aont, aont_inv, KAPPA};
use scylla::onion::{Node, ProcessedOnion, Scylla};

const ADDR_LEN: usize = 32;

fn random_private_key(rng: &mut impl Rng) -> [u8; 32] {
    let wide: [u8; 64] = rng.random();
    Scalar::from_bytes_mod_order_wide(&wide).to_bytes()
}

#[test]
fn test_aont() {
    let rng = rand::rng();
    let fragments = vec![b"foo".to_vec(), b"raboof".to_vec()];
    let transformed = aont(rng, &fragments);
    let reverted = aont_inv(&transformed).unwrap();
    assert_eq!(fragments, reverted)
}

#[test]
fn test_create_onion() {
    let mut success = false;
    let mut rng = rand::rng();
    let scylla = Scylla::new(5, 128);

    let private_keys = [
        random_private_key(&mut rng),
        random_private_key(&mut rng),
        random_private_key(&mut rng),
        random_private_key(&mut rng),
    ];
    let nodes = [
        Node::from_private_key([0; ADDR_LEN], &private_keys[0]),
        Node::from_private_key([1; ADDR_LEN], &private_keys[1]),
        Node::from_private_key([2; ADDR_LEN], &private_keys[2]),
        Node::from_private_key([3; ADDR_LEN], &private_keys[3]),
    ];
    let path1 = nodes.to_vec();
    let path2 = vec![nodes[0], nodes[2], nodes[1], nodes[3]];
    let mut onions = scylla
        .create_onions(
            &[path1, path2],
            &[13; ADDR_LEN],
            vec![vec![2; 128 - 4 * KAPPA], vec![3; 128]],
        )
        .unwrap()
        .into_iter()
        .map(|x| ([0u8; ADDR_LEN], x))
        .collect::<Vec<_>>();

    let mut fragments = HashMap::<u128, Vec<(u128, Vec<u8>)>>::new();

    while !onions.is_empty() {
        let (hop, onion) = onions.pop().unwrap();
        let private_key = &private_keys[hop[0] as usize];

        let procd = scylla.process(private_key, &onion).unwrap();

        match procd {
            ProcessedOnion::Relay { meta, onion } => {
                println!("Relaying to {meta:?}");
                onions.push((meta[..ADDR_LEN].try_into().unwrap(), onion));
            }
            ProcessedOnion::Fragment {
                set_id,
                index,
                data,
            } => {
                println!("Received fragment {set_id}:{index}");
                let frags = fragments.entry(set_id).or_default();
                frags.push((index, data));
                frags.sort_by_key(|x| x.0);
                println!(
                    "Received {} fragments for this set so far, checking completeness",
                    frags.len()
                );
                let set = frags.iter().map(|x| x.1.clone()).collect::<Vec<_>>();
                let data = scylla.defrag(&set);
                match data {
                    Ok(x) => {
                        println!("Complete: {x:?}");
                        success = x.0 == [13; ADDR_LEN] && x.1.iter().all(|x| *x == 2 || *x == 3);
                    }
                    Err(_) => println!("Still incomplete"),
                }
            }
            ProcessedOnion::Reply { .. } => panic!("no reply expected"),
        }
    }

    assert!(success);
}

#[test]
fn test_surb() {
    let mut rng = rand::rng();
    let scylla = Scylla::new(5, 128);

    let private_keys = [
        random_private_key(&mut rng),
        random_private_key(&mut rng),
        random_private_key(&mut rng),
        random_private_key(&mut rng),
    ];
    let nodes = [
        Node::from_private_key([0; ADDR_LEN], &private_keys[0]),
        Node::from_private_key([1; ADDR_LEN], &private_keys[1]),
        Node::from_private_key([2; ADDR_LEN], &private_keys[2]),
        Node::from_private_key([3; ADDR_LEN], &private_keys[3]),
    ];
    let reply_id: u128 = rng.random();
    let reply_addr = &[42; ADDR_LEN];
    let meta = scylla::bytes::concat(reply_addr, &reply_id.to_be_bytes());
    let meta = scylla::bytes::concat(&meta, &[0, 0, 0]);
    let (secrets, surb) = scylla.create_surb(&nodes, meta.as_slice().try_into().unwrap());
    let text = b"Widdewiddewitt und drei macht neune";

    let mut onion = scylla::bytes::concat(&surb, text);

    let ProcessedOnion::Relay { onion: o, .. } =
        scylla.process(&private_keys[0], &onion).unwrap()
    else {
        panic!()
    };
    onion = o;

    let ProcessedOnion::Relay { onion: o, .. } =
        scylla.process(&private_keys[1], &onion).unwrap()
    else {
        panic!()
    };
    onion = o;

    let ProcessedOnion::Relay { onion: o, .. } =
        scylla.process(&private_keys[2], &onion).unwrap()
    else {
        panic!()
    };
    onion = o;

    let ProcessedOnion::Reply { meta, data } =
        scylla.process(&private_keys[3], &onion).unwrap()
    else {
        panic!()
    };

    assert_eq!(&meta[..ADDR_LEN], [42; ADDR_LEN]);
    assert_eq!(&meta[ADDR_LEN..][..16], reply_id.to_be_bytes());

    let payload = scylla.unwrap_reply(&secrets, &data);
    assert_eq!(payload, text);
}
