//! The admission surface: bearer-token checks, error surfaces, settings.

use shared_secret_server::api::{authorize, read_share, store_share_proposal, validate_key};
use shared_secret_server::error::SecretServerError;
use shared_secret_server::messages::decode_message;
use shared_secret_server::model::{ClientId, NodeId};
use shared_secret_server::settings::Settings;
use shared_secret_server::share::{Metadata, Share, ShareMeta};
use shared_secret_server::store::HashStore;

#[test]
fn matching_token_is_accepted() {
    let key = "SECRET-REDACTED".to_string();
    let token = "SECRET-REDACTED".to_string();
    assert!(validate_key(&key, &token));
    assert!(authorize(&key, &token).is_ok());
}

#[test]
fn wrong_or_missing_token_is_unauthorized() {
    let key = "SECRET-REDACTED".to_string();
    for bad in ["", "secret-redacted", "SECRET-REDACTED "] {
        let token = bad.to_string();
        assert!(!validate_key(&key, &token));
        let err = authorize(&key, &token).unwrap_err();
        assert_eq!(err, SecretServerError::Unauthorized);
        assert_eq!(err.status_code(), 401);
    }
}

#[test]
fn unknown_client_is_not_found() {
    let store = HashStore::new(NodeId(1));
    let missing = read_share(&store, ClientId::new(42, 2, 3, 5));
    assert_eq!(missing, Err(SecretServerError::NotFound));
    assert_eq!(missing.unwrap_err().status_code(), 404);
}

#[test]
fn stored_share_is_read_back() {
    let mut store = HashStore::new(NodeId(2));
    let client = ClientId::new(9, 2, 3, 3);
    let record = ShareMeta::new(Share::new(2, vec![4, 5, 6]), Metadata::new(2, 3, 3));
    store.insert(client, record.clone()).unwrap();
    let share = read_share(&store, client).unwrap();
    assert_eq!(share, record.share);
}

#[test]
fn write_proposal_reads_back_as_a_store_command() {
    let client = ClientId::new(9, 2, 3, 3);
    let record = ShareMeta::new(Share::new(2, vec![4, 5, 6]), Metadata::new(2, 3, 3));
    let bytes = store_share_proposal(client, &record);
    let decoded = decode_message(&bytes).unwrap();
    match decoded {
        shared_secret_server::messages::Message::StoreShare { client_id, record: r } => {
            assert_eq!(client_id, client);
            assert_eq!(r, record);
        },
        _ => panic!("a write must propose a store command"),
    }
}

#[test]
fn error_surfaces_follow_the_taxonomy() {
    assert_eq!(SecretServerError::InvalidStateError("poisoned".to_string()).status_code(), 500);
    assert_eq!(SecretServerError::ConsensusError("no quorum".to_string()).status_code(), 500);
    assert_eq!(SecretServerError::NotFound.status_code(), 404);
    assert_eq!(SecretServerError::RefreshInProgress.status_code(), 503);
    assert_eq!(SecretServerError::RefreshError.status_code(), 500);
    assert_eq!(SecretServerError::Unauthorized.status_code(), 401);
    assert!(SecretServerError::NotFound.message().contains("not found"));
}

#[test]
fn settings_carry_their_values() {
    let settings = Settings::new(
        "0.0.0.0:9000".to_string(),
        Some("peer:9000".to_string()),
        8080,
        1,
        "SECRET-REDACTED".to_string(),
        60,
    );
    assert_eq!(settings.raft_addr(), "0.0.0.0:9000");
    assert_eq!(settings.peer_addr(), Some("peer:9000"));
    assert_eq!(settings.http_port(), 8080);
    assert_eq!(settings.node_id(), 1);
    assert_eq!(settings.api_key(), "SECRET-REDACTED");
    assert_eq!(settings.interval_refresh_secs(), 60);
}

#[test]
fn client_identity_keeps_its_parts() {
    let client = ClientId::new(77, 3, 5, 11);
    assert_eq!(client.id(), 77);
    assert_eq!(client.shares_required(), 3);
    assert_eq!(client.shares_to_create(), 5);
    assert_eq!(client.sec_len(), 11);
}
