//! The wire codec and the replicated state machine, command by command.

use shared_secret_server::error::SecretServerError;
use shared_secret_server::messages::{decode_message, encode_message, Message};
use shared_secret_server::model::{ClientId, NodeId};
use shared_secret_server::share::{Metadata, Share, ShareMeta};
use shared_secret_server::store::HashStore;

fn client(id: u64) -> ClientId {
    ClientId::new(id, 2, 3, 5)
}

fn record(x: u8, ys: Vec<u8>) -> ShareMeta {
    let len = ys.len();
    ShareMeta::new(Share::new(x, ys), Metadata::new(2, 3, len))
}

#[test]
fn message_encodings_round_trip() {
    let commands = vec![
        Message::StoreShare { client_id: client(7), record: record(1, vec![5, 6, 7, 8, 9]) },
        Message::StartRefresh { node_id: NodeId(2) },
        Message::Refresh { client_id: client(7), new_share: Share::new(3, vec![1, 1, 1, 1, 1]) },
        Message::FinishRefresh { node_id: NodeId(2) },
    ];
    for command in commands {
        let bytes = encode_message(&command);
        let decoded = decode_message(&bytes).expect("a command must read back");
        assert_eq!(encode_message(&decoded), bytes);
    }
}

#[test]
fn wire_format_is_stable() {
    // Every node must produce these exact bytes: a discriminant byte, then
    // little-endian integers, byte strings length-prefixed by a u64.
    assert_eq!(encode_message(&Message::StartRefresh { node_id: NodeId(2) }), vec![1, 2]);
    assert_eq!(encode_message(&Message::FinishRefresh { node_id: NodeId(9) }), vec![3, 9]);
    let refresh = Message::Refresh {
        client_id: ClientId::new(7, 2, 3, 2),
        new_share: Share::new(1, vec![0xAB, 0xCD]),
    };
    assert_eq!(
        encode_message(&refresh),
        vec![
            2, // discriminant
            7, 0, 0, 0, 0, 0, 0, 0, // client identifier
            2, 3, // threshold K, share count N
            2, 0, 0, 0, 0, 0, 0, 0, // secret length
            1, // evaluation point x
            2, 0, 0, 0, 0, 0, 0, 0, // byte count
            0xAB, 0xCD, // evaluations
        ]
    );
}

#[test]
fn message_decoding_rejects_noise() {
    assert!(decode_message(&[]).is_none());
    assert!(decode_message(&[9]).is_none());
    assert!(decode_message(&[1]).is_none());
    assert!(decode_message(&[1, 0]).is_none());
    let mut bytes = encode_message(&Message::StartRefresh { node_id: NodeId(2) });
    bytes.push(0);
    assert!(decode_message(&bytes).is_none());
}

#[test]
fn apply_store_share_inserts_and_echoes() {
    let mut store = HashStore::new(NodeId(1));
    let bytes = encode_message(&Message::StoreShare {
        client_id: client(7),
        record: record(1, vec![5, 6, 7, 8, 9]),
    });
    let echo = store.apply(&bytes).unwrap();
    assert_eq!(echo, bytes);
    let held = store.get(client(7)).unwrap().unwrap();
    assert_eq!(held, record(1, vec![5, 6, 7, 8, 9]));
}

#[test]
fn apply_start_refresh_flags_only_other_nodes() {
    let mut originator = HashStore::new(NodeId(1));
    let mut follower = HashStore::new(NodeId(2));
    let bytes = encode_message(&Message::StartRefresh { node_id: NodeId(1) });
    originator.apply(&bytes).unwrap();
    follower.apply(&bytes).unwrap();
    assert!(!originator.is_begin_refresh());
    assert!(follower.is_begin_refresh());
    let finish = encode_message(&Message::FinishRefresh { node_id: NodeId(1) });
    originator.apply(&finish).unwrap();
    follower.apply(&finish).unwrap();
    assert!(!originator.is_begin_refresh());
    assert!(!follower.is_begin_refresh());
}

#[test]
fn apply_refresh_merges_by_field_addition() {
    let mut store = HashStore::new(NodeId(1));
    store.insert(client(7), record(1, vec![0x10, 0x20, 0x30, 0x40, 0x50])).unwrap();
    let bytes = encode_message(&Message::Refresh {
        client_id: client(7),
        new_share: Share::new(1, vec![0x01, 0x01, 0x01, 0x01, 0x01]),
    });
    store.apply(&bytes).unwrap();
    let held = store.get(client(7)).unwrap().unwrap();
    assert_eq!(held.share.to_bytes(), vec![1, 0x11, 0x21, 0x31, 0x41, 0x51]);
    assert_eq!(held.meta, Metadata::new(2, 3, 5));
}

#[test]
fn apply_refresh_addressed_elsewhere_is_a_no_op() {
    let mut store = HashStore::new(NodeId(1));
    store.insert(client(7), record(1, vec![0x10, 0x20, 0x30, 0x40, 0x50])).unwrap();
    let bytes = encode_message(&Message::Refresh {
        client_id: client(7),
        new_share: Share::new(2, vec![0x01, 0x01, 0x01, 0x01, 0x01]),
    });
    store.apply(&bytes).unwrap();
    let held = store.get(client(7)).unwrap().unwrap();
    assert_eq!(held, record(1, vec![0x10, 0x20, 0x30, 0x40, 0x50]));
}

#[test]
fn apply_refresh_for_unknown_client_fails() {
    let mut store = HashStore::new(NodeId(1));
    let bytes = encode_message(&Message::Refresh {
        client_id: client(99),
        new_share: Share::new(1, vec![1, 1, 1, 1, 1]),
    });
    let result = store.apply(&bytes);
    assert_eq!(result, Err(SecretServerError::NotFound));
}

#[test]
fn apply_same_refresh_twice_is_not_idempotent() {
    let mut store = HashStore::new(NodeId(1));
    store.insert(client(7), record(1, vec![0x10, 0x20, 0x30, 0x40, 0x50])).unwrap();
    let bytes = encode_message(&Message::Refresh {
        client_id: client(7),
        new_share: Share::new(1, vec![0x0A, 0x0A, 0x0A, 0x0A, 0x0A]),
    });
    store.apply(&bytes).unwrap();
    let once = store.get(client(7)).unwrap().unwrap();
    assert_ne!(once, record(1, vec![0x10, 0x20, 0x30, 0x40, 0x50]));
    store.apply(&bytes).unwrap();
    let twice = store.get(client(7)).unwrap().unwrap();
    assert_eq!(twice, record(1, vec![0x10, 0x20, 0x30, 0x40, 0x50]));
}

#[test]
fn refresh_never_moves_x_or_metadata() {
    let mut store = HashStore::new(NodeId(1));
    store.insert(client(7), record(1, vec![0x10, 0x20, 0x30, 0x40, 0x50])).unwrap();
    for delta in [vec![1, 2, 3, 4, 5], vec![9, 9, 9, 9, 9], vec![0xFF, 0, 0xFF, 0, 0xFF]] {
        let bytes = encode_message(&Message::Refresh {
            client_id: client(7),
            new_share: Share::new(1, delta),
        });
        store.apply(&bytes).unwrap();
        let held = store.get(client(7)).unwrap().unwrap();
        assert_eq!(held.share.id(), 1);
        assert_eq!(held.meta, Metadata::new(2, 3, 5));
    }
}

#[test]
fn apply_rejects_unreadable_commands() {
    let mut store = HashStore::new(NodeId(1));
    assert!(store.apply(&[]).is_err());
    let err = store.apply(&[42, 1, 2, 3]).unwrap_err();
    assert!(matches!(err, SecretServerError::ConsensusError(_)));
}

#[test]
fn snapshot_restore_snapshot_is_byte_identical() {
    let mut store = HashStore::new(NodeId(1));
    for id in [9u64, 3, 7, 1, 5] {
        store.insert(client(id), record(1, vec![id as u8, 2, 3, 4, 5])).unwrap();
    }
    let first = store.snapshot().unwrap();
    let mut fresh = HashStore::new(NodeId(1));
    fresh.restore(&first).unwrap();
    let second = fresh.snapshot().unwrap();
    assert_eq!(first, second);
    for id in [1u64, 3, 5, 7, 9] {
        assert_eq!(fresh.get(client(id)).unwrap(), store.get(client(id)).unwrap());
    }
}

#[test]
fn snapshot_is_key_sorted_and_restore_rejects_noise() {
    let mut store = HashStore::new(NodeId(1));
    store.insert(client(20), record(1, vec![1])).unwrap();
    store.insert(client(10), record(1, vec![2])).unwrap();
    let entries = store.storage();
    assert_eq!(entries[0].0, 10);
    assert_eq!(entries[1].0, 20);

    let mut fresh = HashStore::new(NodeId(1));
    let err = fresh.restore(&[1, 2, 3]).unwrap_err();
    assert!(matches!(err, SecretServerError::InvalidStateError(_)));
    let mut bytes = store.snapshot().unwrap();
    bytes.push(0);
    assert!(fresh.restore(&bytes).is_err());
    assert_eq!(fresh.storage().len(), 0);
}

#[test]
fn replicas_applying_the_same_log_stay_identical() {
    let mut a = HashStore::new(NodeId(1));
    let mut b = HashStore::new(NodeId(1));
    let log = vec![
        encode_message(&Message::StoreShare {
            client_id: client(1),
            record: record(1, vec![1, 2, 3, 4, 5]),
        }),
        encode_message(&Message::StartRefresh { node_id: NodeId(3) }),
        encode_message(&Message::Refresh {
            client_id: client(1),
            new_share: Share::new(1, vec![7, 7, 7, 7, 7]),
        }),
        encode_message(&Message::FinishRefresh { node_id: NodeId(3) }),
    ];
    for entry in &log {
        let ra = a.apply(entry);
        let rb = b.apply(entry);
        assert_eq!(ra, rb);
    }
    assert_eq!(a.snapshot().unwrap(), b.snapshot().unwrap());
    assert_eq!(a.is_begin_refresh(), b.is_begin_refresh());
}
