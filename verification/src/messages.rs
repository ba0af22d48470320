//! The commands that flow through the replicated log, and their wire format.
//!
//! Every command is a tagged union with a discriminant byte. All nodes decode
//! a committed entry to the same command and apply it deterministically.

use crate::codec::{
    client_enc, decode_client, decode_record, decode_share, lemma_parse_client_enc,
    lemma_parse_record_enc, lemma_parse_share_enc, parse_client, parse_record, parse_share,
    push_client, push_record, push_share, record_enc, record_wf, share_enc, share_wf,
};
use crate::model::{ClientId, NodeId};
use crate::share::{Share, ShareMeta, ShareMetaView, ShareView};
use vstd::prelude::*;

verus! {

/// A command of the replicated state machine.
#[derive(Debug)]
pub enum Message {
    /// Store a record on every node; issued by the ingress API.
    StoreShare { client_id: ClientId, record: ShareMeta },
    /// A refresh round begins; every node but the originator raises its flag.
    StartRefresh { node_id: NodeId },
    /// One renewal delta, addressed by its `x` to exactly one node.
    Refresh { client_id: ClientId, new_share: Share },
    /// The refresh round is over; every node but the originator clears its
    /// flag.
    FinishRefresh { node_id: NodeId },
}

/// The mathematical content of a [`Message`].
pub enum MessageView {
    StoreShare { client_id: ClientId, record: ShareMetaView },
    StartRefresh { node_id: NodeId },
    Refresh { client_id: ClientId, new_share: ShareView },
    FinishRefresh { node_id: NodeId },
}

impl View for Message {
    type V = MessageView;

    open spec fn view(&self) -> MessageView {
        match self {
            Message::StoreShare { client_id, record } => MessageView::StoreShare {
                client_id: *client_id,
                record: record@,
            },
            Message::StartRefresh { node_id } => MessageView::StartRefresh { node_id: *node_id },
            Message::Refresh { client_id, new_share } => MessageView::Refresh {
                client_id: *client_id,
                new_share: new_share@,
            },
            Message::FinishRefresh { node_id } => MessageView::FinishRefresh { node_id: *node_id },
        }
    }
}

/// A command whose encoding reads back unchanged: shares carry a nonzero
/// evaluation point, metadata is valid, node identifiers are nonzero.
pub open spec fn message_wf(m: MessageView) -> bool {
    match m {
        MessageView::StoreShare { client_id, record } => record_wf(record),
        MessageView::StartRefresh { node_id } => node_id.0 != 0,
        MessageView::Refresh { client_id, new_share } => share_wf(new_share),
        MessageView::FinishRefresh { node_id } => node_id.0 != 0,
    }
}

/// The encoding of a command: a discriminant byte, then the payload.
pub open spec fn message_enc(m: MessageView) -> Seq<u8> {
    match m {
        MessageView::StoreShare { client_id, record } => seq![0u8] + client_enc(client_id)
            + record_enc(record),
        MessageView::StartRefresh { node_id } => seq![1u8, node_id.0],
        MessageView::Refresh { client_id, new_share } => seq![2u8] + client_enc(client_id)
            + share_enc(new_share),
        MessageView::FinishRefresh { node_id } => seq![3u8, node_id.0],
    }
}

/// Reads a whole buffer as one command; trailing bytes reject it.
pub open spec fn parse_message(s: Seq<u8>) -> Option<MessageView> {
    if s.len() < 1 {
        None
    } else if s[0] == 0 {
        match parse_client(s, 1) {
            Some((client_id, j)) => match parse_record(s, j) {
                Some((record, k)) => if k == s.len() {
                    Some(MessageView::StoreShare { client_id, record })
                } else {
                    None
                },
                None => None,
            },
            None => None,
        }
    } else if s[0] == 1 {
        if s.len() == 2 && s[1] != 0 {
            Some(MessageView::StartRefresh { node_id: NodeId(s[1]) })
        } else {
            None
        }
    } else if s[0] == 2 {
        match parse_client(s, 1) {
            Some((client_id, j)) => match parse_share(s, j) {
                Some((new_share, k)) => if k == s.len() {
                    Some(MessageView::Refresh { client_id, new_share })
                } else {
                    None
                },
                None => None,
            },
            None => None,
        }
    } else if s[0] == 3 {
        if s.len() == 2 && s[1] != 0 {
            Some(MessageView::FinishRefresh { node_id: NodeId(s[1]) })
        } else {
            None
        }
    } else {
        None
    }
}

/// Round trip: a well-formed command's encoding decodes back to the command
/// on every node.
pub proof fn lemma_message_roundtrip(m: MessageView)
    requires
        message_wf(m),
    ensures
        parse_message(message_enc(m)) == Some(m),
{
    let s = message_enc(m);
    match m {
        MessageView::StoreShare { client_id, record } => {
            let ce = client_enc(client_id);
            let re = record_enc(record);
            assert((seq![0u8] + ce)[0] == 0u8);
            assert(s[0] == 0u8);
            assert forall|k: int| 0 <= k < 18 implies s.subrange(1, 19)[k] == ce[k] by {
                assert((seq![0u8] + ce)[k + 1] == ce[k]);
                assert(s[k + 1] == (seq![0u8] + ce)[k + 1]);
            }
            assert(s.subrange(1, 19) =~= ce);
            lemma_parse_client_enc(s, 1, client_id);
            assert forall|k: int| 0 <= k < re.len() implies s.subrange(19, s.len() as int)[k]
                == re[k] by {
                assert(s[k + 19] == re[k]);
            }
            assert(s.subrange(19, 19 + re.len() as int) =~= re);
            lemma_parse_record_enc(s, 19, record);
        },
        MessageView::StartRefresh { node_id } => {
            assert(s[0] == 1u8);
            assert(s[1] == node_id.0);
        },
        MessageView::Refresh { client_id, new_share } => {
            let ce = client_enc(client_id);
            let se = share_enc(new_share);
            assert((seq![2u8] + ce)[0] == 2u8);
            assert(s[0] == 2u8);
            assert forall|k: int| 0 <= k < 18 implies s.subrange(1, 19)[k] == ce[k] by {
                assert((seq![2u8] + ce)[k + 1] == ce[k]);
                assert(s[k + 1] == (seq![2u8] + ce)[k + 1]);
            }
            assert(s.subrange(1, 19) =~= ce);
            lemma_parse_client_enc(s, 1, client_id);
            assert forall|k: int| 0 <= k < se.len() implies s.subrange(19, s.len() as int)[k]
                == se[k] by {
                assert(s[k + 19] == se[k]);
            }
            assert(s.subrange(19, 19 + se.len() as int) =~= se);
            lemma_parse_share_enc(s, 19, new_share);
        },
        MessageView::FinishRefresh { node_id } => {
            assert(s[0] == 3u8);
            assert(s[1] == node_id.0);
        },
    }
}

/// Encodes a command for the log.
pub fn encode_message(m: &Message) -> (r: Vec<u8>)
    ensures
        r@ == message_enc(m@),
{
    let mut buf: Vec<u8> = Vec::new();
    match m {
        Message::StoreShare { client_id, record } => {
            buf.push(0u8);
            push_client(&mut buf, client_id);
            push_record(&mut buf, record);
            proof {
                assert(buf@ =~= message_enc(m@));
            }
        },
        Message::StartRefresh { node_id } => {
            buf.push(1u8);
            buf.push(node_id.0);
            proof {
                assert(buf@ =~= message_enc(m@));
            }
        },
        Message::Refresh { client_id, new_share } => {
            buf.push(2u8);
            push_client(&mut buf, client_id);
            push_share(&mut buf, new_share);
            proof {
                assert(buf@ =~= message_enc(m@));
            }
        },
        Message::FinishRefresh { node_id } => {
            buf.push(3u8);
            buf.push(node_id.0);
            proof {
                assert(buf@ =~= message_enc(m@));
            }
        },
    }
    buf
}

/// Decodes a committed log entry, exactly as the specification parser does.
pub fn decode_message(s: &[u8]) -> (r: Option<Message>)
    ensures
        match r {
            Some(m) => parse_message(s@) == Some(m@) && message_wf(m@),
            None => parse_message(s@) is None,
        },
{
    if s.len() < 1 {
        return None;
    }
    let tag = s[0];
    if tag == 0 {
        match decode_client(s, 1) {
            Some((client_id, j)) => match decode_record(s, j) {
                Some((record, k)) => if k == s.len() {
                    Some(Message::StoreShare { client_id, record })
                } else {
                    None
                },
                None => None,
            },
            None => None,
        }
    } else if tag == 1 {
        if s.len() == 2 && s[1] != 0 {
            Some(Message::StartRefresh { node_id: NodeId(s[1]) })
        } else {
            None
        }
    } else if tag == 2 {
        match decode_client(s, 1) {
            Some((client_id, j)) => match decode_share(s, j) {
                Some((new_share, k)) => if k == s.len() {
                    Some(Message::Refresh { client_id, new_share })
                } else {
                    None
                },
                None => None,
            },
            None => None,
        }
    } else if tag == 3 {
        if s.len() == 2 && s[1] != 0 {
            Some(Message::FinishRefresh { node_id: NodeId(s[1]) })
        } else {
            None
        }
    } else {
        None
    }
}

} // verus!
