//! The decisions of the authenticated ingress: bearer-token checking, the
//! write path's proposal, and the refresh-aware read path.
//!
//! The HTTP frame around these functions only parses requests and writes
//! responses; which status a request earns is decided and proved here.

use crate::codec::record_wf;
use crate::error::SecretServerError;
use crate::messages::{encode_message, message_enc, Message, MessageView};
use crate::model::ClientId;
use crate::share::{Share, ShareMeta};
use crate::store::HashStore;
use vstd::prelude::*;

verus! {

/// Whether the presented bearer token equals the cluster's key.
pub fn validate_key(api_key: &String, token: &String) -> (r: bool)
    ensures
        r == (api_key@ == token@),
{
    api_key.eq(token)
}

/// The admission decision for a request: through when the token matches the
/// key, unauthorized when it does not.
pub fn authorize(api_key: &String, token: &String) -> (r: Result<(), SecretServerError>)
    ensures
        r is Ok <==> api_key@ == token@,
        r is Err ==> r matches Err(SecretServerError::Unauthorized),
{
    if validate_key(api_key, token) {
        Ok(())
    } else {
        Err(SecretServerError::Unauthorized)
    }
}

/// The proposal a write turns into: a StoreShare command for the log, applied
/// identically on every node.
pub fn store_share_proposal(client_id: ClientId, record: &ShareMeta) -> (r: Vec<u8>)
    ensures
        r@ == message_enc(MessageView::StoreShare { client_id, record: record@ }),
{
    encode_message(&Message::StoreShare { client_id, record: record.clone() })
}

/// The read path: a share is handed out only outside a refresh window, and
/// only if this node holds one for the client. A read during refresh is
/// refused so that no client mixes pre- and post-refresh shares of one
/// secret; a client this node never stored is not found.
pub fn read_share(store: &HashStore, id: ClientId) -> (r: Result<Share, SecretServerError>)
    ensures
        match r {
            Ok(share) => !store@.refreshing && (store@.lookup(id.id()) matches Some(rec)
                && rec.share == share@),
            Err(e) => (e is RefreshInProgress && store@.refreshing) || (e is NotFound
                && !store@.refreshing && store@.lookup(id.id()) is None),
        },
{
    if store.is_begin_refresh() {
        return Err(SecretServerError::RefreshInProgress);
    }
    match store.get(id) {
        Ok(Some(rec)) => Ok(rec.share),
        Ok(None) => Err(SecretServerError::NotFound),
        Err(e) => Err(e),
    }
}

/// The write path's local application, as the store applies it for the
/// leader: the record is stored under the client's identifier and echoed
/// back, as the ingress answers the client with what it accepted.
pub fn create_share(store: &mut HashStore, id: ClientId, record: ShareMeta) -> (r: Result<
    ShareMeta,
    SecretServerError,
>)
    requires
        old(store)@.wf(),
        record_wf(record@),
    ensures
        final(store)@.wf(),
        final(store)@.node_id == old(store)@.node_id,
        final(store)@.refreshing == old(store)@.refreshing,
        match r {
            Ok(echo) => echo@ == record@ && final(store)@.lookup(id.id()) == Some(record@)
                && forall|k2: u64|
                k2 != id.id() ==> final(store)@.lookup(k2) == old(store)@.lookup(k2),
            Err(_) => false,
        },
{
    let echo = record.clone();
    let _ = store.insert(id, record);
    Ok(echo)
}

} // verus!
