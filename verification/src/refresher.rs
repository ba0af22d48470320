//! The refresh coordinator's decisions and the commands it proposes.
//!
//! A timer task drives the three-phase refresh protocol: announce the round,
//! propose one renewal delta per (client, target node) pair, close the round.
//! Everything the protocol decides and computes is here; the surrounding task
//! only sleeps, proposes the prepared bytes, and hands back results.

use crate::messages::{encode_message, message_enc, parse_message, Message, MessageView};
use crate::model::ClientId;
use crate::poly::poly_eval_spec;
use crate::share::{ShareMeta, ShareView};
use crate::store::HashStore;
use vstd::prelude::*;

verus! {

/// Whether a refresh tick may start a round: only when this node's flag is
/// down. While any node's flag is up — from a StartRefresh apply until the
/// matching FinishRefresh — every tick observes the flag and skips, so no two
/// refresh rounds can be in flight at once.
pub fn refresh_tick_decision(store: &HashStore) -> (r: bool)
    ensures
        r == !store@.refreshing,
{
    !store.is_begin_refresh()
}

/// The command that opens a refresh round, addressed from this node.
pub fn start_refresh_message(store: &HashStore) -> (r: Vec<u8>)
    ensures
        r@ == message_enc(MessageView::StartRefresh { node_id: store@.node_id }),
{
    encode_message(&Message::StartRefresh { node_id: store.node_id() })
}

/// The command that closes a refresh round, addressed from this node.
pub fn finish_refresh_message(store: &HashStore) -> (r: Vec<u8>)
    ensures
        r@ == message_enc(MessageView::FinishRefresh { node_id: store@.node_id }),
{
    encode_message(&Message::FinishRefresh { node_id: store.node_id() })
}

/// The renewal commands for one client: a single fresh renewal polynomial of
/// degree K - 1 with zero constant term, evaluated at every target node's
/// evaluation point. One polynomial serves all N deltas, so that the
/// underlying sharing polynomials move coherently and the secret stays put.
pub fn build_client_refresh_messages(client_id: ClientId, record: &ShareMeta) -> (r: Vec<Vec<u8>>)
    requires
        record@.meta.valid(),
    ensures
        r@.len() == record@.meta.shares_to_create,
        exists|g: Seq<u8>|
            {
                &&& g.len() == record@.meta.shares_required
                &&& g[0] == 0
                &&& forall|t: int|
                    0 <= t < r@.len() ==> #[trigger] r@[t]@ == message_enc(
                        MessageView::Refresh {
                            client_id,
                            new_share: ShareView {
                                x: (t + 1) as u8,
                                ys: Seq::new(record@.share.ys.len(), |i: int| poly_eval_spec(g, (t + 1) as u8)),
                            },
                        },
                    )
            },
{
    let poly = record.share.renew_poly(&record.meta);
    let ghost g = poly@;
    let n = record.meta.shares_to_create;
    let ys_len = record.share.ys_len();
    let mut r: Vec<Vec<u8>> = Vec::new();
    let mut t: u8 = 0;
    while t < n
        invariant
            t <= n,
            r@.len() == t,
            g == poly@,
            g.len() == record@.meta.shares_required,
            g[0] == 0,
            ys_len == record@.share.ys.len(),
            forall|u: int|
                0 <= u < t ==> #[trigger] r@[u]@ == message_enc(
                    MessageView::Refresh {
                        client_id,
                        new_share: ShareView {
                            x: (u + 1) as u8,
                            ys: Seq::new(record@.share.ys.len(), |i: int| poly_eval_spec(g, (u + 1) as u8)),
                        },
                    },
                ),
        decreases n - t,
    {
        let new_share = poly.get_share(t + 1, ys_len);
        proof {
            assert(new_share@.ys =~= Seq::new(
                record@.share.ys.len(),
                |i: int| poly_eval_spec(g, (t + 1) as u8),
            ));
            assert(new_share@ =~= (ShareView {
                x: (t + 1) as u8,
                ys: Seq::new(record@.share.ys.len(), |i: int| poly_eval_spec(g, (t + 1) as u8)),
            }));
        }
        let msg = encode_message(&Message::Refresh { client_id, new_share });
        r.push(msg);
        t = t + 1;
    }
    r
}

/// How many renewal commands one round proposes: every stored record fans
/// out into one command per share of its secret.
pub open spec fn refresh_fanout(es: Seq<(u64, crate::share::ShareMetaView)>) -> int
    decreases es.len(),
{
    if es.len() == 0 {
        0
    } else {
        refresh_fanout(es.drop_last()) + es.last().1.meta.shares_to_create
    }
}

/// The renewal commands of one full round, in canonical store order: for each
/// stored record, one command per target node.
pub fn build_refresh_messages(store: &HashStore) -> (r: Vec<Vec<u8>>)
    requires
        store@.wf(),
    ensures
        r@.len() == refresh_fanout(store@.entries),
        forall|t: int|
            0 <= t < r@.len() ==> ((#[trigger] parse_message(r@[t]@)) matches Some(m)
                && m is Refresh),
{
    let n = store.len();
    let mut r: Vec<Vec<u8>> = Vec::new();
    let mut i: usize = 0;
    proof {
        assert(store@.entries.subrange(0, 0) =~= Seq::<
            (u64, crate::share::ShareMetaView),
        >::empty());
    }
    while i < n
        invariant
            i <= n,
            n == store@.entries.len(),
            store@.wf(),
            r@.len() == refresh_fanout(store@.entries.subrange(0, i as int)),
            forall|t: int|
                0 <= t < r@.len() ==> ((#[trigger] parse_message(r@[t]@)) matches Some(m)
                    && m is Refresh),
        decreases n - i,
    {
        let entry = store.entry_at(i);
        let key = entry.0;
        let rec = entry.1.clone();
        proof {
            assert(crate::codec::record_wf(store@.entries[i as int].1));
        }
        let client_id = ClientId::new(
            key,
            rec.meta.shares_required,
            rec.meta.shares_to_create,
            rec.meta.sec_len,
        );
        let msgs = build_client_refresh_messages(client_id, &rec);
        let rl = rec.share.ys_len();
        let mut j: usize = 0;
        let m = msgs.len();
        while j < m
            invariant
                j <= m,
                m == msgs@.len(),
                m == rec@.meta.shares_to_create,
                rl == rec@.share.ys.len(),
                i < n,
                n == store@.entries.len(),
                rec@ == store@.entries[i as int].1,
                r@.len() == refresh_fanout(store@.entries.subrange(0, i as int)) + j,
                forall|t: int|
                    0 <= t < r@.len() ==> ((#[trigger] parse_message(r@[t]@)) matches Some(m2)
                        && m2 is Refresh),
                exists|g: Seq<u8>|
                    {
                        &&& g.len() == rec@.meta.shares_required
                        &&& g[0] == 0
                        &&& forall|t: int|
                            0 <= t < msgs@.len() ==> #[trigger] msgs@[t]@ == message_enc(
                                MessageView::Refresh {
                                    client_id,
                                    new_share: ShareView {
                                        x: (t + 1) as u8,
                                        ys: Seq::new(rec@.share.ys.len(), |i2: int| poly_eval_spec(g, (t + 1) as u8)),
                                    },
                                },
                            )
                    },
                rec@.meta.valid(),
            decreases m - j,
        {
            let one = msgs[j].clone();
            proof {
                let g = choose|g: Seq<u8>|
                    {
                        &&& g.len() == rec@.meta.shares_required
                        &&& g[0] == 0
                        &&& forall|t: int|
                            0 <= t < msgs@.len() ==> #[trigger] msgs@[t]@ == message_enc(
                                MessageView::Refresh {
                                    client_id,
                                    new_share: ShareView {
                                        x: (t + 1) as u8,
                                        ys: Seq::new(rec@.share.ys.len(), |i2: int| poly_eval_spec(g, (t + 1) as u8)),
                                    },
                                },
                            )
                    };
                let mv = MessageView::Refresh {
                    client_id,
                    new_share: ShareView {
                        x: (j + 1) as u8,
                        ys: Seq::new(rec@.share.ys.len(), |i2: int| poly_eval_spec(g, (j + 1) as u8)),
                    },
                };
                assert(msgs@[j as int]@ == message_enc(mv));
                assert(crate::messages::message_wf(mv)) by {
                    assert(j + 1 <= 255);
                    assert(((j + 1) as u8) != 0);
                    assert(rec@.share.ys.len() <= usize::MAX);
                }
                crate::messages::lemma_message_roundtrip(mv);
                assert(one@ =~= msgs@[j as int]@);
            }
            r.push(one);
            j = j + 1;
        }
        proof {
            let pre = store@.entries.subrange(0, i as int);
            let ext = store@.entries.subrange(0, i + 1);
            assert(ext.drop_last() =~= pre);
            assert(ext.last() == store@.entries[i as int]);
            assert(refresh_fanout(ext) == refresh_fanout(pre)
                + store@.entries[i as int].1.meta.shares_to_create);
        }
        i = i + 1;
    }
    proof {
        assert(store@.entries.subrange(0, n as int) =~= store@.entries);
    }
    r
}

} // verus!
