//! Cluster scenarios: three nodes, one replicated log, the refresh protocol
//! end to end against the classic reconstruction primitive.

use shared_secret_server::api::{create_share, read_share};
use shared_secret_server::error::SecretServerError;
use shared_secret_server::model::{ClientId, NodeId};
use shared_secret_server::poly::{Coeff, GaloisPolynomial};
use shared_secret_server::refresher::{
    build_refresh_messages, finish_refresh_message, refresh_tick_decision, start_refresh_message,
};
use shared_secret_server::share::{Metadata, Share, ShareMeta};
use shared_secret_server::store::HashStore;
use sss_rs::basic_sharing::{from_secrets, reconstruct_secrets};

const K: u8 = 2;
const N: u8 = 3;

/// A (K, N) split whose shares sit at the evaluation points 1..=N, as the
/// cluster assigns them to its nodes: one degree-(K-1) polynomial per secret
/// byte, the byte as its constant coefficient.
fn split_at_node_points(secret: &[u8]) -> Vec<Share> {
    let mut per_node: Vec<Vec<u8>> = (0..N).map(|_| Vec::new()).collect();
    for (i, &b) in secret.iter().enumerate() {
        let mut poly = GaloisPolynomial::new();
        poly.set_coeff(Coeff(b), 0);
        poly.set_coeff(Coeff((i as u8).wrapping_mul(37).wrapping_add(11)), 1);
        for x in 1..=N {
            per_node[(x - 1) as usize].push(poly.get_y_value(x));
        }
    }
    (1..=N).map(|x| Share::new(x, per_node[(x - 1) as usize].clone())).collect()
}

fn reconstruct(shares: &[&Share]) -> Vec<u8> {
    let points: Vec<Vec<(u8, u8)>> = shares.iter().map(|s| s.to_points()).collect();
    reconstruct_secrets(points).unwrap()
}

fn three_nodes_with(client: ClientId, secret: &[u8]) -> Vec<HashStore> {
    let shares = split_at_node_points(secret);
    let meta = Metadata::new(K, N, secret.len());
    let mut stores: Vec<HashStore> = (1..=N).map(|i| HashStore::new(NodeId(i))).collect();
    for share in shares {
        let node = (share.id() - 1) as usize;
        create_share(&mut stores[node], client, ShareMeta::new(share, meta)).unwrap();
    }
    stores
}

fn run_refresh_round(stores: &mut Vec<HashStore>, leader: usize) {
    assert!(refresh_tick_decision(&stores[leader]));
    let start = start_refresh_message(&stores[leader]);
    for s in stores.iter_mut() {
        s.apply(&start).unwrap();
    }
    let deltas = build_refresh_messages(&stores[leader]);
    for delta in &deltas {
        for s in stores.iter_mut() {
            s.apply(delta).unwrap();
        }
    }
    let finish = finish_refresh_message(&stores[leader]);
    for s in stores.iter_mut() {
        s.apply(&finish).unwrap();
    }
}

#[test]
fn refresh_round_with_no_secrets_proposes_nothing() {
    let store = HashStore::new(NodeId(1));
    assert_eq!(build_refresh_messages(&store).len(), 0);
    assert_eq!(store.storage().len(), 0);
}

#[test]
fn refresh_round_proposes_one_delta_per_share() {
    let client = ClientId::new(1, K, N, 5);
    let secret = b"hello".to_vec();
    let stores = three_nodes_with(client, &secret);
    // One record on the leader fans out into one delta per share.
    assert_eq!(build_refresh_messages(&stores[0]).len(), N as usize);
}

#[test]
fn three_node_happy_path() {
    let client = ClientId::new(1, K, N, 5);
    let secret = b"hello".to_vec();
    // The classic splitting library chooses the evaluation points; each share
    // goes to the node whose identifier is that point.
    let shares: Vec<Share> = from_secrets(&secret, K, N, None)
        .unwrap()
        .iter()
        .map(Share::from_points)
        .collect();
    let meta = Metadata::new(K, N, secret.len());
    let mut stores: Vec<HashStore> =
        shares.iter().map(|s| HashStore::new(NodeId(s.id()))).collect();
    for (i, share) in shares.iter().enumerate() {
        let echoed = create_share(
            &mut stores[i],
            client,
            ShareMeta::new(share.clone(), meta),
        )
        .unwrap();
        assert_eq!(echoed.share, *share);
    }
    let got: Vec<Share> = stores.iter().map(|s| read_share(s, client).unwrap()).collect();
    for (i, share) in got.iter().enumerate() {
        assert_eq!(*share, shares[i]);
    }
    assert_eq!(reconstruct(&[&got[0], &got[1]]), secret);
    assert_eq!(reconstruct(&[&got[0], &got[2]]), secret);
    assert_eq!(reconstruct(&[&got[1], &got[2]]), secret);
}

#[test]
fn refresh_preserves_secret_and_rerandomizes() {
    let client = ClientId::new(1, K, N, 5);
    let secret = b"hello".to_vec();
    let mut stores = three_nodes_with(client, &secret);
    let before: Vec<Share> = stores.iter().map(|s| read_share(s, client).unwrap()).collect();
    assert_eq!(reconstruct(&[&before[0], &before[1]]), secret);

    run_refresh_round(&mut stores, 0);
    for s in &stores {
        assert!(!s.is_begin_refresh());
    }
    let after: Vec<Share> = stores.iter().map(|s| read_share(s, client).unwrap()).collect();
    assert_eq!(reconstruct(&[&after[0], &after[1]]), secret);
    assert_eq!(reconstruct(&[&after[0], &after[2]]), secret);
    assert_eq!(reconstruct(&[&after[1], &after[2]]), secret);

    // One round rerandomizes each share with overwhelming probability; a few
    // more rounds make a coincidence astronomically unlikely.
    let mut rounds = 1;
    while stores
        .iter()
        .zip(before.iter())
        .any(|(s, b)| read_share(s, client).unwrap() == *b)
        && rounds < 64
    {
        run_refresh_round(&mut stores, 0);
        rounds += 1;
    }
    for (s, b) in stores.iter().zip(before.iter()) {
        assert_ne!(read_share(s, client).unwrap(), *b);
    }
    let last: Vec<Share> = stores.iter().map(|s| read_share(s, client).unwrap()).collect();
    assert_eq!(reconstruct(&[&last[0], &last[2]]), secret);
}

#[test]
fn ticks_skip_while_a_round_is_open() {
    let client = ClientId::new(1, K, N, 5);
    let secret = b"hello".to_vec();
    let mut stores = three_nodes_with(client, &secret);
    let start = start_refresh_message(&stores[0]);
    for s in stores.iter_mut() {
        s.apply(&start).unwrap();
    }
    // Followers observe the open round and refuse to start their own.
    assert!(!refresh_tick_decision(&stores[1]));
    assert!(!refresh_tick_decision(&stores[2]));
    let finish = finish_refresh_message(&stores[0]);
    for s in stores.iter_mut() {
        s.apply(&finish).unwrap();
    }
    assert!(refresh_tick_decision(&stores[1]));
}

#[test]
fn read_during_refresh_is_refused() {
    let client = ClientId::new(1, K, N, 5);
    let secret = b"hello".to_vec();
    let mut stores = three_nodes_with(client, &secret);
    let start = start_refresh_message(&stores[0]);
    stores[1].apply(&start).unwrap();
    let refused = read_share(&stores[1], client);
    assert_eq!(refused, Err(SecretServerError::RefreshInProgress));
    assert_eq!(refused.unwrap_err().status_code(), 503);
    // The originating node keeps serving.
    stores[0].apply(&start).unwrap();
    assert!(read_share(&stores[0], client).is_ok());
}

#[test]
fn snapshot_restore_with_hundred_clients() {
    let mut stores: Vec<HashStore> = (1..=N).map(|i| HashStore::new(NodeId(i))).collect();
    let mut secrets: Vec<Vec<u8>> = Vec::new();
    for c in 0..100u64 {
        let secret = vec![c as u8, 1, 2, 3, (c % 7) as u8];
        let client = ClientId::new(c, K, N, secret.len());
        let shares = split_at_node_points(&secret);
        let meta = Metadata::new(K, N, secret.len());
        for share in shares {
            let node = (share.id() - 1) as usize;
            create_share(&mut stores[node], client, ShareMeta::new(share, meta)).unwrap();
        }
        secrets.push(secret);
    }
    let bytes = stores[0].snapshot().unwrap();
    let mut fresh = HashStore::new(NodeId(1));
    fresh.restore(&bytes).unwrap();
    assert_eq!(fresh.snapshot().unwrap(), bytes);
    for c in 0..100u64 {
        let client = ClientId::new(c, K, N, 5);
        assert_eq!(
            fresh.get(client).unwrap().unwrap(),
            stores[0].get(client).unwrap().unwrap()
        );
    }
    // A refresh round led by the recovered node still preserves every secret.
    let old = std::mem::replace(&mut stores[0], fresh);
    drop(old);
    run_refresh_round(&mut stores, 0);
    for c in 0..100u64 {
        let client = ClientId::new(c, K, N, 5);
        let a = read_share(&stores[0], client).unwrap();
        let b = read_share(&stores[2], client).unwrap();
        assert_eq!(reconstruct(&[&a, &b]), secrets[c as usize]);
    }
}
