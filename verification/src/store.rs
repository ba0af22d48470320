//! The per-node share store and its replicated state machine.
//!
//! The store maps the 64-bit client identifier to the record this node holds,
//! beside the node's own identifier and the refresh flag. The entries are
//! kept strictly sorted by key, so that iteration and snapshots are canonical:
//! apply and snapshot are deterministic functions of the store's content, the
//! property the replicated log depends on.

use crate::codec::{
    decode_record, lemma_parse_record_enc, parse_record, push_record, push_u64_le, read_u64_le,
    record_enc, record_wf, u64_from_le_spec, u64_le_spec,
};
use crate::error::SecretServerError;
use crate::messages::{
    decode_message, encode_message, message_enc, parse_message, Message, MessageView,
};
use crate::model::{ClientId, NodeId};
use crate::poly::{poly_eval_spec, xor_seq};
use crate::share::{RenewableShare, ShareMeta, ShareMetaView, ShareView};
use vstd::prelude::*;

verus! {

/// The mathematical content of a [`HashStore`].
#[verifier::ext_equal]
pub struct StoreView {
    pub node_id: NodeId,
    pub refreshing: bool,
    pub entries: Seq<(u64, ShareMetaView)>,
}

/// The view of an entry list held in memory.
pub open spec fn entries_view(v: Seq<(u64, ShareMeta)>) -> Seq<(u64, ShareMetaView)> {
    v.map_values(|p: (u64, ShareMeta)| (p.0, p.1@))
}

/// Keys strictly ascend: each key appears once and iteration order is
/// canonical.
pub open spec fn entries_sorted(es: Seq<(u64, ShareMetaView)>) -> bool {
    forall|i: int, j: int| 0 <= i < j < es.len() ==> es[i].0 < es[j].0
}

/// Every stored record can be encoded and read back.
pub open spec fn entries_wf(es: Seq<(u64, ShareMetaView)>) -> bool {
    forall|i: int| 0 <= i < es.len() ==> record_wf(#[trigger] es[i].1)
}

/// The record stored under `k`, if any.
pub open spec fn entries_lookup(es: Seq<(u64, ShareMetaView)>, k: u64) -> Option<ShareMetaView>
    decreases es.len(),
{
    if es.len() == 0 {
        None
    } else if es[0].0 == k {
        Some(es[0].1)
    } else {
        entries_lookup(es.drop_first(), k)
    }
}

/// The entry list with `v` stored under `k`: overwrite if the key is present,
/// insert in key order if not.
pub open spec fn entries_insert(
    es: Seq<(u64, ShareMetaView)>,
    k: u64,
    v: ShareMetaView,
) -> Seq<(u64, ShareMetaView)>
    decreases es.len(),
{
    if es.len() == 0 {
        seq![(k, v)]
    } else if k < es[0].0 {
        seq![(k, v)] + es
    } else if k == es[0].0 {
        seq![(k, v)] + es.drop_first()
    } else {
        seq![es[0]] + entries_insert(es.drop_first(), k, v)
    }
}

impl StoreView {
    /// The store's internal invariant: a nonzero node identifier, canonical
    /// key order, and only encodable records.
    pub open spec fn wf(self) -> bool {
        &&& self.node_id.0 != 0
        &&& entries_sorted(self.entries)
        &&& entries_wf(self.entries)
    }

    /// The record stored for a client identifier.
    pub open spec fn lookup(self, k: u64) -> Option<ShareMetaView> {
        entries_lookup(self.entries, k)
    }
}

/// Looking up a key ignores a prefix free of that key.
proof fn lemma_lookup_skip(es: Seq<(u64, ShareMetaView)>, k: u64, i: int)
    requires
        0 <= i <= es.len(),
        forall|j: int| 0 <= j < i ==> es[j].0 != k,
    ensures
        entries_lookup(es, k) == entries_lookup(es.subrange(i, es.len() as int), k),
    decreases i,
{
    if i > 0 {
        assert(es.drop_first() =~= es.subrange(1, es.len() as int));
        assert(forall|j: int| 0 <= j < i - 1 ==> es.drop_first()[j].0 != k);
        lemma_lookup_skip(es.drop_first(), k, i - 1);
        assert(es.drop_first().subrange(i - 1, es.drop_first().len() as int) =~= es.subrange(
            i,
            es.len() as int,
        ));
    } else {
        assert(es.subrange(0, es.len() as int) =~= es);
    }
}

/// What `entries_insert` does, position by position: the new entry lands at
/// the first index whose key is not below `k`.
proof fn lemma_entries_insert_at(es: Seq<(u64, ShareMetaView)>, k: u64, v: ShareMetaView, idx: int)
    requires
        entries_sorted(es),
        0 <= idx <= es.len(),
        forall|j: int| 0 <= j < idx ==> es[j].0 < k,
        idx < es.len() ==> es[idx].0 >= k,
    ensures
        idx < es.len() && es[idx].0 == k ==> entries_insert(es, k, v) == es.subrange(0, idx)
            + seq![(k, v)] + es.subrange(idx + 1, es.len() as int),
        !(idx < es.len() && es[idx].0 == k) ==> entries_insert(es, k, v) == es.subrange(0, idx)
            + seq![(k, v)] + es.subrange(idx, es.len() as int),
    decreases es.len(),
{
    if es.len() == 0 {
        assert(entries_insert(es, k, v) =~= es.subrange(0, 0) + seq![(k, v)] + es.subrange(0, 0));
    } else if idx == 0 {
        if es[0].0 == k {
            assert(entries_insert(es, k, v) =~= es.subrange(0, 0) + seq![(k, v)] + es.subrange(
                1,
                es.len() as int,
            ));
        } else {
            assert(k < es[0].0);
            assert(entries_insert(es, k, v) =~= es.subrange(0, 0) + seq![(k, v)] + es.subrange(
                0,
                es.len() as int,
            ));
        }
    } else {
        assert(es[0].0 < k);
        let tail = es.drop_first();
        assert(entries_sorted(tail));
        assert(forall|j: int| 0 <= j < idx - 1 ==> tail[j].0 < k);
        lemma_entries_insert_at(tail, k, v, idx - 1);
        if idx < es.len() && es[idx].0 == k {
            assert(entries_insert(es, k, v) =~= es.subrange(0, idx) + seq![(k, v)] + es.subrange(
                idx + 1,
                es.len() as int,
            )) by {
                assert(tail.subrange(0, idx - 1) =~= es.subrange(1, idx));
                assert(tail.subrange(idx, tail.len() as int) =~= es.subrange(
                    idx + 1,
                    es.len() as int,
                ));
            }
        } else {
            assert(entries_insert(es, k, v) =~= es.subrange(0, idx) + seq![(k, v)] + es.subrange(
                idx,
                es.len() as int,
            )) by {
                assert(tail.subrange(0, idx - 1) =~= es.subrange(1, idx));
                assert(tail.subrange(idx - 1, tail.len() as int) =~= es.subrange(
                    idx,
                    es.len() as int,
                ));
            }
        }
    }
}

/// Storing a record keeps the invariant, stores exactly that record under its
/// key, and leaves every other key's record alone.
pub proof fn lemma_entries_insert_props(es: Seq<(u64, ShareMetaView)>, k: u64, v: ShareMetaView)
    requires
        entries_sorted(es),
    ensures
        entries_sorted(entries_insert(es, k, v)),
        entries_lookup(entries_insert(es, k, v), k) == Some(v),
        forall|k2: u64| k2 != k ==> entries_lookup(entries_insert(es, k, v), k2) == entries_lookup(
            es,
            k2,
        ),
        entries_wf(es) && record_wf(v) ==> entries_wf(entries_insert(es, k, v)),
    decreases es.len(),
{
    if es.len() == 0 {
        let r = seq![(k, v)];
        assert(r.drop_first() =~= Seq::<(u64, ShareMetaView)>::empty());
        assert forall|k2: u64| k2 != k implies entries_lookup(r, k2) == entries_lookup(es, k2) by {
            assert(entries_lookup(r, k2) == entries_lookup(r.drop_first(), k2));
        }
    } else if k < es[0].0 {
        let r = seq![(k, v)] + es;
        assert(r.drop_first() =~= es);
        assert forall|i: int, j: int| 0 <= i < j < r.len() implies r[i].0 < r[j].0 by {
            if i > 0 {
                assert(r[i] == es[i - 1]);
            }
            assert(r[j] == es[j - 1]);
        }
        assert forall|k2: u64| k2 != k implies entries_lookup(r, k2) == entries_lookup(es, k2) by {
            assert(entries_lookup(r, k2) == entries_lookup(r.drop_first(), k2));
        }
    } else if k == es[0].0 {
        let r = seq![(k, v)] + es.drop_first();
        assert(r.drop_first() =~= es.drop_first());
        assert forall|i: int, j: int| 0 <= i < j < r.len() implies r[i].0 < r[j].0 by {
            if i > 0 {
                assert(r[i] == es.drop_first()[i - 1]);
                assert(es.drop_first()[i - 1] == es[i]);
            }
            assert(r[j] == es[j]);
        }
        assert forall|k2: u64| k2 != k implies entries_lookup(r, k2) == entries_lookup(es, k2) by {
            assert(entries_lookup(r, k2) == entries_lookup(r.drop_first(), k2));
            assert(entries_lookup(es, k2) == entries_lookup(es.drop_first(), k2));
        }
    } else {
        let tail = es.drop_first();
        assert(entries_sorted(tail));
        lemma_entries_insert_props(tail, k, v);
        let r = seq![es[0]] + entries_insert(tail, k, v);
        assert(r.drop_first() =~= entries_insert(tail, k, v));
        assert(entries_sorted(r)) by {
            assert forall|i: int, j: int| 0 <= i < j < r.len() implies r[i].0 < r[j].0 by {
                if i > 0 {
                    assert(r[i] == entries_insert(tail, k, v)[i - 1]);
                    assert(r[j] == entries_insert(tail, k, v)[j - 1]);
                } else {
                    assert(r[j] == entries_insert(tail, k, v)[j - 1]);
                    // every key in the inserted tail is either k or a tail key,
                    // both above es[0].0
                    lemma_entries_insert_keys(tail, k, v, j - 1);
                }
            }
        }
        assert(r[0] == es[0]);
        assert(r[0].0 != k);
        assert(entries_lookup(r, k) == entries_lookup(r.drop_first(), k));
        assert(entries_lookup(r, k) == Some(v));
        assert forall|k2: u64| k2 != k implies entries_lookup(r, k2) == entries_lookup(es, k2) by {
            if k2 == es[0].0 {
                assert(entries_lookup(r, k2) == Some(r[0].1));
                assert(entries_lookup(es, k2) == Some(es[0].1));
            } else {
                assert(entries_lookup(r, k2) == entries_lookup(r.drop_first(), k2));
                assert(entries_lookup(es, k2) == entries_lookup(tail, k2));
            }
        }
        if entries_wf(es) && record_wf(v) {
            assert forall|i: int| 0 <= i < r.len() implies record_wf(#[trigger] r[i].1) by {
                if i > 0 {
                    assert(r[i] == entries_insert(tail, k, v)[i - 1]);
                }
            }
        }
    }
}

/// Every entry of an inserted list carries the new key or one of the old
/// keys.
proof fn lemma_entries_insert_keys(
    es: Seq<(u64, ShareMetaView)>,
    k: u64,
    v: ShareMetaView,
    i: int,
)
    requires
        0 <= i < entries_insert(es, k, v).len(),
    ensures
        entries_insert(es, k, v)[i].0 == k || exists|j: int|
            0 <= j < es.len() && es[j].0 == #[trigger] entries_insert(es, k, v)[i].0,
    decreases es.len(),
{
    if es.len() == 0 {
    } else if k < es[0].0 {
        if i > 0 {
            assert((seq![(k, v)] + es)[i].0 == es[i - 1].0);
        }
    } else if k == es[0].0 {
        if i > 0 {
            assert((seq![(k, v)] + es.drop_first())[i].0 == es.drop_first()[i - 1].0);
            assert(es.drop_first()[i - 1].0 == es[i].0);
        }
    } else {
        let r = seq![es[0]] + entries_insert(es.drop_first(), k, v);
        if i > 0 {
            assert(r[i] == entries_insert(es.drop_first(), k, v)[i - 1]);
            lemma_entries_insert_keys(es.drop_first(), k, v, i - 1);
            if entries_insert(es.drop_first(), k, v)[i - 1].0 != k {
                let j = choose|j: int|
                    0 <= j < es.drop_first().len() && es.drop_first()[j].0 == entries_insert(
                        es.drop_first(),
                        k,
                        v,
                    )[i - 1].0;
                assert(es[j + 1].0 == r[i].0);
            }
        }
    }
}

/// The in-memory store of one node: its identifier, the refresh flag, and
/// the client records in ascending key order.
#[derive(Debug)]
pub struct HashStore {
    node_id: NodeId,
    refreshing: bool,
    entries: Vec<(u64, ShareMeta)>,
}

impl View for HashStore {
    type V = StoreView;

    closed spec fn view(&self) -> StoreView {
        StoreView {
            node_id: self.node_id,
            refreshing: self.refreshing,
            entries: entries_view(self.entries@),
        }
    }
}

impl HashStore {
    /// Creates an empty store for the node. The identifier may never be
    /// zero: it addresses the refresh deltas meant for this node.
    pub fn new(node_id: NodeId) -> (r: Self)
        requires
            node_id.0 != 0,
        ensures
            r@.node_id == node_id,
            r@.refreshing == false,
            r@.entries.len() == 0,
            r@.wf(),
    {
        let r = HashStore { node_id, refreshing: false, entries: Vec::new() };
        proof {
            assert(r@.entries =~= Seq::<(u64, ShareMetaView)>::empty());
        }
        r
    }

    /// Retrieves this node's record for the given client, if any.
    pub fn get(&self, id: ClientId) -> (r: Result<Option<ShareMeta>, SecretServerError>)
        ensures
            match r {
                Ok(o) => match o {
                    Some(rec) => self@.lookup(id.id()) == Some(rec@),
                    None => self@.lookup(id.id()) is None,
                },
                Err(_) => false,
            },
    {
        let k = id.id();
        let n = self.entries.len();
        let mut i: usize = 0;
        while i < n
            invariant
                i <= n,
                n == self.entries@.len(),
                k == id.id(),
                forall|j: int| 0 <= j < i ==> entries_view(self.entries@)[j].0 != k,
            decreases n - i,
        {
            if self.entries[i].0 == k {
                let rec = self.entries[i].1.clone();
                proof {
                    lemma_lookup_skip(self@.entries, k, i as int);
                    let sub = self@.entries.subrange(i as int, n as int);
                    assert(sub[0] == entries_view(self.entries@)[i as int]);
                    assert(sub[0].0 == k);
                    assert(entries_lookup(sub, k) == Some(sub[0].1));
                }
                return Ok(Some(rec));
            }
            i = i + 1;
        }
        proof {
            lemma_lookup_skip(self@.entries, k, n as int);
            assert(self@.entries.subrange(n as int, n as int) =~= Seq::<
                (u64, ShareMetaView),
            >::empty());
        }
        Ok(None)
    }

    /// Stores a record for the given client, overwriting any previous one.
    pub fn insert(&mut self, id: ClientId, share: ShareMeta) -> (r: Result<
        (),
        SecretServerError,
    >)
        requires
            old(self)@.wf(),
            record_wf(share@),
        ensures
            r is Ok,
            final(self)@.node_id == old(self)@.node_id,
            final(self)@.refreshing == old(self)@.refreshing,
            final(self)@.entries == entries_insert(old(self)@.entries, id.id(), share@),
            final(self)@.wf(),
            final(self)@.lookup(id.id()) == Some(share@),
            forall|k2: u64| k2 != id.id() ==> final(self)@.lookup(k2) == old(self)@.lookup(k2),
    {
        let k = id.id();
        let ghost es0 = self@.entries;
        let n = self.entries.len();
        let mut idx: usize = 0;
        while idx < n && self.entries[idx].0 < k
            invariant
                idx <= n,
                n == self.entries@.len(),
                forall|j: int| 0 <= j < idx ==> entries_view(self.entries@)[j].0 < k,
            decreases n - idx,
        {
            idx = idx + 1;
        }
        proof {
            lemma_entries_insert_at(es0, k, share@, idx as int);
            lemma_entries_insert_props(es0, k, share@);
        }
        if idx < n && self.entries[idx].0 == k {
            self.entries[idx] = (k, share);
            proof {
                assert(entries_view(self.entries@) =~= es0.subrange(0, idx as int) + seq![
                    (k, share@),
                ] + es0.subrange(idx + 1, es0.len() as int));
            }
        } else {
            self.entries.insert(idx, (k, share));
            proof {
                assert(entries_view(self.entries@) =~= es0.subrange(0, idx as int) + seq![
                    (k, share@),
                ] + es0.subrange(idx as int, es0.len() as int));
            }
        }
        Ok(())
    }

    /// True while this node is inside a refresh window opened by another
    /// node's StartRefresh.
    pub fn is_begin_refresh(&self) -> (r: bool)
        ensures
            r == self@.refreshing,
    {
        self.refreshing
    }

    /// Returns the node ID associated with the store.
    pub fn node_id(&self) -> (r: NodeId)
        ensures
            r == self@.node_id,
    {
        self.node_id
    }

    /// The number of client records this node holds.
    pub fn len(&self) -> (r: usize)
        ensures
            r == self@.entries.len(),
    {
        self.entries.len()
    }

    /// The record at a position of the canonical key order, for iteration.
    pub fn entry_at(&self, i: usize) -> (r: &(u64, ShareMeta))
        requires
            i < self@.entries.len(),
        ensures
            r.0 == self@.entries[i as int].0,
            r.1@ == self@.entries[i as int].1,
    {
        &self.entries[i]
    }

    /// Returns a copy of the underlying storage, in canonical key order.
    pub fn storage(&self) -> (r: Vec<(u64, ShareMeta)>)
        ensures
            entries_view(r@) == self@.entries,
    {
        let n = self.entries.len();
        let mut r: Vec<(u64, ShareMeta)> = Vec::new();
        let mut i: usize = 0;
        while i < n
            invariant
                i <= n,
                n == self.entries@.len(),
                r@.len() == i,
                forall|j: int|
                    0 <= j < i ==> r@[j].0 == self.entries@[j].0 && r@[j].1@
                        == self.entries@[j].1@,
            decreases n - i,
        {
            let key = self.entries[i].0;
            let rec = self.entries[i].1.clone();
            r.push((key, rec));
            i = i + 1;
        }
        proof {
            assert(entries_view(r@) =~= entries_view(self.entries@));
        }
        r
    }
}

/// The record after a renewal delta lands on a stored record: the evaluation
/// point and the metadata stay, every byte is field-added with the delta.
pub open spec fn merged_record(old: ShareMetaView, delta: ShareView) -> ShareMetaView {
    ShareMetaView {
        share: ShareView { x: old.share.x, ys: xor_seq(old.share.ys, delta.ys) },
        meta: old.meta,
    }
}

/// One step of the replicated state machine: what a committed command does to
/// this node's store. `None` is the one failure: a renewal delta addressed to
/// this node for a client it does not know.
pub open spec fn apply_msg_spec(s: StoreView, m: MessageView) -> Option<StoreView> {
    match m {
        MessageView::StoreShare { client_id, record } => Some(
            StoreView { entries: entries_insert(s.entries, client_id.spec_id(), record), ..s },
        ),
        MessageView::StartRefresh { node_id } => Some(
            StoreView {
                refreshing: if node_id != s.node_id {
                    true
                } else {
                    s.refreshing
                },
                ..s
            },
        ),
        MessageView::Refresh { client_id, new_share } => {
            if new_share.x == s.node_id.0 {
                match entries_lookup(s.entries, client_id.spec_id()) {
                    Some(old) => Some(
                        StoreView {
                            entries: entries_insert(
                                s.entries,
                                client_id.spec_id(),
                                merged_record(old, new_share),
                            ),
                            ..s
                        },
                    ),
                    None => None,
                }
            } else {
                Some(s)
            }
        },
        MessageView::FinishRefresh { node_id } => Some(
            StoreView {
                refreshing: if node_id != s.node_id {
                    false
                } else {
                    s.refreshing
                },
                ..s
            },
        ),
    }
}

/// A record found in a well-formed store can be encoded and read back.
proof fn lemma_lookup_wf(es: Seq<(u64, ShareMetaView)>, k: u64)
    requires
        entries_wf(es),
    ensures
        match entries_lookup(es, k) {
            Some(v) => record_wf(v),
            None => true,
        },
    decreases es.len(),
{
    if es.len() > 0 && es[0].0 != k {
        assert forall|i: int| 0 <= i < es.drop_first().len() implies record_wf(
            #[trigger] es.drop_first()[i].1,
        ) by {
            assert(es.drop_first()[i] == es[i + 1]);
        }
        lemma_lookup_wf(es.drop_first(), k);
    }
}

/// Applying any command keeps the store's invariant and its identity.
pub proof fn lemma_apply_preserves_wf(s: StoreView, m: MessageView)
    requires
        s.wf(),
        crate::messages::message_wf(m),
    ensures
        match apply_msg_spec(s, m) {
            Some(s2) => s2.wf() && s2.node_id == s.node_id,
            None => true,
        },
{
    match m {
        MessageView::StoreShare { client_id, record } => {
            lemma_entries_insert_props(s.entries, client_id.spec_id(), record);
        },
        MessageView::Refresh { client_id, new_share } => {
            if new_share.x == s.node_id.0 {
                match entries_lookup(s.entries, client_id.spec_id()) {
                    Some(old) => {
                        lemma_lookup_wf(s.entries, client_id.spec_id());
                        let merged = merged_record(old, new_share);
                        assert(record_wf(merged));
                        lemma_entries_insert_props(s.entries, client_id.spec_id(), merged);
                    },
                    None => {},
                }
            }
        },
        MessageView::StartRefresh { .. } => {},
        MessageView::FinishRefresh { .. } => {},
    }
}

/// The canonical encoding of the entry list, in ascending key order: each
/// entry is its key followed by its record.
pub open spec fn entries_enc(es: Seq<(u64, ShareMetaView)>) -> Seq<u8>
    decreases es.len(),
{
    if es.len() == 0 {
        Seq::empty()
    } else {
        u64_le_spec(es[0].0) + record_enc(es[0].1) + entries_enc(es.drop_first())
    }
}

/// The canonical snapshot: the entry count, then the entries in key order.
/// The refresh flag is not snapshotted: a node recovering from a snapshot
/// starts with the flag down and re-learns the phase from later log entries.
pub open spec fn snapshot_enc(es: Seq<(u64, ShareMetaView)>) -> Seq<u8> {
    u64_le_spec(es.len() as u64) + entries_enc(es)
}

/// Reads `n` entries starting at `i`.
pub open spec fn parse_entries(s: Seq<u8>, i: int, n: nat) -> Option<
    (Seq<(u64, ShareMetaView)>, int),
>
    decreases n,
{
    if n == 0 {
        Some((Seq::empty(), i))
    } else if 0 <= i && i + 8 <= s.len() {
        let k = u64_from_le_spec(s.subrange(i, i + 8));
        match parse_record(s, i + 8) {
            Some((rec, j)) => match parse_entries(s, j, (n - 1) as nat) {
                Some((rest, end)) => Some((seq![(k, rec)] + rest, end)),
                None => None,
            },
            None => None,
        }
    } else {
        None
    }
}

/// Reads a whole snapshot; it must be consumed exactly and its keys must
/// strictly ascend.
pub open spec fn parse_snapshot(s: Seq<u8>) -> Option<Seq<(u64, ShareMetaView)>> {
    if s.len() < 8 {
        None
    } else {
        let n = u64_from_le_spec(s.subrange(0, 8));
        match parse_entries(s, 8, n as nat) {
            Some((es, end)) => if end == s.len() && entries_sorted(es) {
                Some(es)
            } else {
                None
            },
            None => None,
        }
    }
}

/// Appending one entry extends the encoding at its end.
proof fn lemma_entries_enc_snoc(es: Seq<(u64, ShareMetaView)>, e: (u64, ShareMetaView))
    ensures
        entries_enc(es.push(e)) == entries_enc(es) + u64_le_spec(e.0) + record_enc(e.1),
    decreases es.len(),
{
    if es.len() == 0 {
        assert(es.push(e).drop_first() =~= Seq::<(u64, ShareMetaView)>::empty());
        assert(es.push(e)[0] == e);
        assert(entries_enc(es.push(e).drop_first()) == entries_enc(
            Seq::<(u64, ShareMetaView)>::empty(),
        ));
        assert(entries_enc(Seq::<(u64, ShareMetaView)>::empty()) == Seq::<u8>::empty());
        assert(entries_enc(es) == Seq::<u8>::empty());
        assert(entries_enc(es.push(e)) =~= entries_enc(es) + u64_le_spec(e.0) + record_enc(e.1));
    } else {
        assert(es.push(e).drop_first() =~= es.drop_first().push(e));
        assert(es.push(e)[0] == es[0]);
        lemma_entries_enc_snoc(es.drop_first(), e);
        assert(entries_enc(es.push(e)) == u64_le_spec(es[0].0) + record_enc(es[0].1) + entries_enc(
            es.push(e).drop_first(),
        ));
        assert(entries_enc(es.push(e).drop_first()) == entries_enc(es.drop_first()) + u64_le_spec(
            e.0,
        ) + record_enc(e.1));
        assert(entries_enc(es.push(e)) =~= entries_enc(es) + u64_le_spec(e.0) + record_enc(e.1));
    }
}

/// Well-formed entries placed in a larger sequence read back as themselves.
proof fn lemma_parse_entries_enc(s: Seq<u8>, i: int, es: Seq<(u64, ShareMetaView)>)
    requires
        0 <= i,
        i + entries_enc(es).len() <= s.len(),
        s.subrange(i, i + entries_enc(es).len()) == entries_enc(es),
        entries_wf(es),
    ensures
        parse_entries(s, i, es.len()) == Some((es, i + entries_enc(es).len())),
    decreases es.len(),
{
    let enc = entries_enc(es);
    if es.len() == 0 {
        assert(parse_entries(s, i, 0) == Some((Seq::<(u64, ShareMetaView)>::empty(), i)));
        assert(es =~= Seq::<(u64, ShareMetaView)>::empty());
    } else {
        let ke = u64_le_spec(es[0].0);
        let re = record_enc(es[0].1);
        let rest = entries_enc(es.drop_first());
        assert(enc == ke + re + rest);
        assert forall|k: int| 0 <= k < 8 implies s.subrange(i, i + 8)[k] == ke[k] by {
            assert(s.subrange(i, i + enc.len())[k] == s[i + k]);
            assert((ke + re)[k] == ke[k]);
            assert((ke + re + rest)[k] == (ke + re)[k]);
            assert(s.subrange(i, i + 8)[k] == s[i + k]);
        }
        assert(s.subrange(i, i + 8) =~= ke);
        crate::codec::lemma_u64_le_roundtrip(es[0].0);
        assert(u64_from_le_spec(s.subrange(i, i + 8)) == es[0].0);
        let j = i + 8 + re.len();
        assert forall|k: int| 0 <= k < re.len() implies s.subrange(i + 8, j)[k] == re[k] by {
            assert(s.subrange(i, i + enc.len())[8 + k] == s[i + 8 + k]);
            assert((ke + re)[8 + k] == re[k]);
            assert((ke + re + rest)[8 + k] == (ke + re)[8 + k]);
            assert(s.subrange(i + 8, j)[k] == s[i + 8 + k]);
        }
        assert(s.subrange(i + 8, j) =~= re);
        assert(record_wf(es[0].1));
        lemma_parse_record_enc(s, i + 8, es[0].1);
        assert forall|k: int| 0 <= k < rest.len() implies s.subrange(j, j + rest.len())[k]
            == rest[k] by {
            let off = 8 + re.len() as int;
            assert(s.subrange(i, i + enc.len())[off + k] == s[i + off + k]);
            assert((ke + re + rest)[off + k] == rest[k]);
            assert(s.subrange(j, j + rest.len())[k] == s[j + k]);
        }
        assert(s.subrange(j, j + rest.len()) =~= rest);
        assert forall|t: int| 0 <= t < es.drop_first().len() implies record_wf(
            #[trigger] es.drop_first()[t].1,
        ) by {
            assert(es.drop_first()[t] == es[t + 1]);
        }
        lemma_parse_entries_enc(s, j, es.drop_first());
        assert(seq![(es[0].0, es[0].1)] + es.drop_first() =~= es);
    }
}

/// Round trip: the canonical snapshot of a well-formed store reads back as
/// exactly the store's entries.
pub proof fn lemma_snapshot_roundtrip(es: Seq<(u64, ShareMetaView)>)
    requires
        entries_sorted(es),
        entries_wf(es),
        es.len() <= u64::MAX,
    ensures
        parse_snapshot(snapshot_enc(es)) == Some(es),
{
    let s = snapshot_enc(es);
    let ce = u64_le_spec(es.len() as u64);
    let ee = entries_enc(es);
    assert forall|k: int| 0 <= k < 8 implies s.subrange(0, 8)[k] == ce[k] by {
        assert((ce + ee)[k] == ce[k]);
        assert(s.subrange(0, 8)[k] == s[k]);
    }
    assert(s.subrange(0, 8) =~= ce);
    crate::codec::lemma_u64_le_roundtrip(es.len() as u64);
    assert(u64_from_le_spec(s.subrange(0, 8)) == es.len() as u64);
    assert forall|k: int| 0 <= k < ee.len() implies s.subrange(8, 8 + ee.len() as int)[k] == ee[k] by {
        assert((ce + ee)[8 + k] == ee[k]);
        assert(s.subrange(8, 8 + ee.len() as int)[k] == s[8 + k]);
    }
    assert(s.subrange(8, 8 + ee.len() as int) =~= ee);
    lemma_parse_entries_enc(s, 8, es);
}

impl HashStore {
    /// Applies a committed log entry. This function is the replicated state
    /// machine: it is deterministic in the store content and the entry bytes,
    /// and on success it answers with the entry it applied, re-encoded.
    pub fn apply(&mut self, message: &[u8]) -> (r: Result<Vec<u8>, SecretServerError>)
        requires
            old(self)@.wf(),
        ensures
            final(self)@.wf(),
            final(self)@.node_id == old(self)@.node_id,
            match parse_message(message@) {
                Some(m) => match apply_msg_spec(old(self)@, m) {
                    Some(s2) => match r {
                        Ok(b) => final(self)@ == s2 && b@ == message_enc(m),
                        Err(_) => false,
                    },
                    None => r == Err::<Vec<u8>, SecretServerError>(SecretServerError::NotFound)
                        && final(self)@ == old(self)@,
                },
                None => r is Err && final(self)@ == old(self)@,
            },
    {
        let m = match decode_message(message) {
            Some(m) => m,
            None => {
                return Err(
                    SecretServerError::ConsensusError("unreadable command encoding".to_owned()),
                );
            },
        };
        let resp = encode_message(&m);
        proof {
            lemma_apply_preserves_wf(old(self)@, m@);
        }
        match m {
            Message::StoreShare { client_id, record } => {
                let _ = self.insert(client_id, record);
                proof {
                    assert(final(self)@ =~= apply_msg_spec(old(self)@, m@)->Some_0);
                }
                Ok(resp)
            },
            Message::StartRefresh { node_id } => {
                if node_id.0 != self.node_id.0 {
                    self.refreshing = true;
                }
                proof {
                    assert(final(self)@ =~= apply_msg_spec(old(self)@, m@)->Some_0);
                }
                Ok(resp)
            },
            Message::Refresh { client_id, new_share } => {
                if new_share.id() == self.node_id.0 {
                    let found = self.get(client_id)?;
                    match found {
                        Some(rec) => {
                            proof {
                                lemma_lookup_wf(old(self)@.entries, client_id.spec_id());
                            }
                            let merged = RenewableShare::renew_with_share(&new_share, &rec.share);
                            let _ = self.insert(client_id, ShareMeta::new(merged, rec.meta));
                            proof {
                                assert(final(self)@ =~= apply_msg_spec(old(self)@, m@)->Some_0);
                            }
                            Ok(resp)
                        },
                        None => Err(SecretServerError::NotFound),
                    }
                } else {
                    proof {
                        assert(final(self)@ =~= apply_msg_spec(old(self)@, m@)->Some_0);
                    }
                    Ok(resp)
                }
            },
            Message::FinishRefresh { node_id } => {
                if node_id.0 != self.node_id.0 {
                    self.refreshing = false;
                }
                proof {
                    assert(final(self)@ =~= apply_msg_spec(old(self)@, m@)->Some_0);
                }
                Ok(resp)
            },
        }
    }

    /// Returns the canonical snapshot of the store: a deterministic function
    /// of the entries alone.
    pub fn snapshot(&self) -> (r: Result<Vec<u8>, SecretServerError>)
        ensures
            match r {
                Ok(b) => b@ == snapshot_enc(self@.entries),
                Err(_) => false,
            },
    {
        let n = self.entries.len();
        let mut buf: Vec<u8> = Vec::new();
        push_u64_le(&mut buf, n as u64);
        proof {
            assert(entries_enc(self@.entries.subrange(0, 0)) =~= Seq::<u8>::empty());
            assert(buf@ =~= u64_le_spec(n as u64) + entries_enc(self@.entries.subrange(0, 0)));
        }
        let mut i: usize = 0;
        while i < n
            invariant
                i <= n,
                n == self.entries@.len(),
                buf@ == u64_le_spec(n as u64) + entries_enc(self@.entries.subrange(0, i as int)),
            decreases n - i,
        {
            let ghost pre = self@.entries.subrange(0, i as int);
            push_u64_le(&mut buf, self.entries[i].0);
            push_record(&mut buf, &self.entries[i].1);
            proof {
                lemma_entries_enc_snoc(pre, self@.entries[i as int]);
                assert(pre.push(self@.entries[i as int]) =~= self@.entries.subrange(0, i + 1));
                assert(buf@ =~= u64_le_spec(n as u64) + entries_enc(
                    self@.entries.subrange(0, i + 1),
                ));
            }
            i = i + 1;
        }
        proof {
            assert(self@.entries.subrange(0, n as int) =~= self@.entries);
        }
        Ok(buf)
    }

    /// Reinstalls the store from a snapshot. The records are replaced as a
    /// whole; the node identifier and the refresh flag are untouched. A
    /// snapshot that does not read back exactly is rejected and the store is
    /// left as it was.
    pub fn restore(&mut self, snapshot: &[u8]) -> (r: Result<(), SecretServerError>)
        requires
            old(self)@.wf(),
        ensures
            final(self)@.wf(),
            final(self)@.node_id == old(self)@.node_id,
            final(self)@.refreshing == old(self)@.refreshing,
            match parse_snapshot(snapshot@) {
                Some(es) => r is Ok && final(self)@.entries == es,
                None => r is Err && final(self)@.entries == old(self)@.entries,
            },
    {
        if snapshot.len() < 8 {
            return Err(
                SecretServerError::InvalidStateError("snapshot shorter than its header".to_owned()),
            );
        }
        let n64 = read_u64_le(snapshot, 0);
        let ghost n = n64 as nat;
        let mut entries: Vec<(u64, ShareMeta)> = Vec::new();
        let mut pos: usize = 8;
        let mut i: u64 = 0;
        proof {
            assert(entries_view(entries@) =~= Seq::<(u64, ShareMetaView)>::empty());
            assert(prepend_parsed(entries_view(entries@), parse_entries(snapshot@, 8, n))
                == parse_entries(snapshot@, 8, n));
        }
        while i < n64
            invariant
                i <= n64,
                n == n64 as nat,
                8 <= pos <= snapshot@.len(),
                n == u64_from_le_spec(snapshot@.subrange(0, 8)) as nat,
                self@ == old(self)@,
                old(self)@.wf(),
                entries@.len() == i,
                entries_sorted(entries_view(entries@)),
                entries_wf(entries_view(entries@)),
                parse_entries(snapshot@, 8, n) == prepend_parsed(
                    entries_view(entries@),
                    parse_entries(snapshot@, pos as int, (n - i as nat) as nat),
                ),
            decreases n64 - i,
        {
            let ghost es_pre = entries_view(entries@);
            let ghost rem = (n - i as nat) as nat;
            if snapshot.len() - pos < 8 {
                proof {
                    assert(parse_entries(snapshot@, pos as int, rem) is None);
                }
                return Err(
                    SecretServerError::InvalidStateError("snapshot ends inside a key".to_owned()),
                );
            }
            let k = read_u64_le(snapshot, pos);
            match decode_record(snapshot, pos + 8) {
                None => {
                    proof {
                        assert(parse_entries(snapshot@, pos as int, rem) is None);
                    }
                    return Err(
                        SecretServerError::InvalidStateError(
                            "snapshot holds an unreadable record".to_owned(),
                        ),
                    );
                },
                Some((rec, j)) => {
                    let sorted_here = if entries.len() == 0 {
                        true
                    } else {
                        entries[entries.len() - 1].0 < k
                    };
                    if !sorted_here {
                        proof {
                            let rest_r = parse_entries(snapshot@, j as int, (rem - 1) as nat);
                            assert(parse_entries(snapshot@, pos as int, rem) == match rest_r {
                                Some((rest, end)) => Some((seq![(k, rec@)] + rest, end)),
                                None => None,
                            });
                            if rest_r is Some {
                                let es = es_pre + (seq![(k, rec@)] + rest_r->Some_0.0);
                                assert(es[i - 1] == es_pre[i - 1]);
                                assert(es[i as int] == (k, rec@));
                                assert(es[i - 1].0 >= es[i as int].0);
                                assert(!entries_sorted(es));
                            }
                        }
                        return Err(
                            SecretServerError::InvalidStateError(
                                "snapshot keys out of order".to_owned(),
                            ),
                        );
                    }
                    entries.push((k, rec));
                    proof {
                        let es_now = entries_view(entries@);
                        assert(es_now =~= es_pre.push((k, rec@)));
                        assert forall|a: int, b: int| 0 <= a < b < es_now.len() implies es_now[a].0
                            < es_now[b].0 by {
                            if b < es_now.len() - 1 {
                                assert(es_now[a] == es_pre[a] && es_now[b] == es_pre[b]);
                            } else if a < es_now.len() - 1 {
                                assert(es_now[a] == es_pre[a]);
                                if a < es_pre.len() - 1 {
                                    assert(es_pre[a].0 < es_pre[es_pre.len() - 1].0);
                                }
                            }
                        }
                        assert forall|t: int| 0 <= t < es_now.len() implies record_wf(
                            #[trigger] es_now[t].1,
                        ) by {
                            if t < es_now.len() - 1 {
                                assert(es_now[t] == es_pre[t]);
                            }
                        }
                        lemma_prepend_step(
                            snapshot@,
                            n,
                            es_pre,
                            pos as int,
                            i as nat,
                            k,
                            rec@,
                            j as int,
                        );
                    }
                    pos = j;
                    i = i + 1;
                },
            }
        }
        proof {
            assert(parse_entries(snapshot@, pos as int, 0) == Some((
                Seq::<(u64, ShareMetaView)>::empty(),
                pos as int,
            )));
            assert(entries_view(entries@) + Seq::<(u64, ShareMetaView)>::empty() =~= entries_view(
                entries@,
            ));
            assert(parse_entries(snapshot@, 8, n) == Some((entries_view(entries@), pos as int)));
        }
        if pos != snapshot.len() {
            return Err(
                SecretServerError::InvalidStateError("snapshot has trailing bytes".to_owned()),
            );
        }
        self.entries = entries;
        Ok(())
    }
}

/// A whole committed log applied in order; an entry whose apply fails leaves
/// the store as it was, as the executable apply does.
pub open spec fn apply_all(s: StoreView, msgs: Seq<MessageView>) -> StoreView
    decreases msgs.len(),
{
    if msgs.len() == 0 {
        s
    } else {
        let s1 = match apply_msg_spec(s, msgs[0]) {
            Some(s2) => s2,
            None => s,
        };
        apply_all(s1, msgs.drop_first())
    }
}

/// Replication convergence: the state machine is deterministic, so two
/// replicas of the same node that start from the same state and apply the
/// same committed commands hold the same store, and their snapshots are
/// byte-identical. Replicas of different nodes diverge by design: each keeps
/// only the renewal deltas addressed to its own evaluation point.
pub proof fn lemma_replication_convergence(s1: StoreView, s2: StoreView, msgs: Seq<MessageView>)
    requires
        s1 == s2,
    ensures
        apply_all(s1, msgs) == apply_all(s2, msgs),
        snapshot_enc(apply_all(s1, msgs).entries) == snapshot_enc(apply_all(s2, msgs).entries),
{
}

/// The stability of the evaluation point: no command of the refresh protocol
/// creates, removes or re-addresses a record. A renewal delta only
/// rerandomizes the bytes under the record's unchanged `x` and metadata, and
/// the flag commands do not touch the records at all.
pub proof fn lemma_x_stability(s: StoreView, m: MessageView)
    requires
        s.wf(),
        !(m is StoreShare),
    ensures
        match apply_msg_spec(s, m) {
            Some(s2) => forall|k: u64|
                match #[trigger] entries_lookup(s.entries, k) {
                    Some(old) => match entries_lookup(s2.entries, k) {
                        Some(v2) => v2.share.x == old.share.x && v2.meta == old.meta,
                        None => false,
                    },
                    None => entries_lookup(s2.entries, k) is None,
                },
            None => true,
        },
{
    match m {
        MessageView::Refresh { client_id, new_share } => {
            if new_share.x == s.node_id.0 {
                match entries_lookup(s.entries, client_id.spec_id()) {
                    Some(old) => {
                        let merged = merged_record(old, new_share);
                        lemma_entries_insert_props(s.entries, client_id.spec_id(), merged);
                        let s2 = apply_msg_spec(s, m)->Some_0;
                        assert forall|k: u64|
                            match #[trigger] entries_lookup(s.entries, k) {
                                Some(o) => match entries_lookup(s2.entries, k) {
                                    Some(v2) => v2.share.x == o.share.x && v2.meta == o.meta,
                                    None => false,
                                },
                                None => entries_lookup(s2.entries, k) is None,
                            } by {
                            if k == client_id.spec_id() {
                                assert(entries_lookup(s2.entries, k) == Some(merged));
                            } else {
                                assert(entries_lookup(s2.entries, k) == entries_lookup(
                                    s.entries,
                                    k,
                                ));
                            }
                        }
                    },
                    None => {},
                }
            }
        },
        _ => {},
    }
}

/// Flag consistency: a StartRefresh from another node raises this node's
/// flag and the matching FinishRefresh lowers it again, while the originator
/// itself stays unflagged; a raised flag makes every refresh tick on this
/// node skip, so no second round can be initiated inside an open window.
pub proof fn lemma_flag_consistency(s: StoreView, node_id: NodeId)
    ensures
        apply_msg_spec(s, MessageView::StartRefresh { node_id }) is Some,
        ({
            let s2 = apply_msg_spec(s, MessageView::StartRefresh { node_id })->Some_0;
            &&& s2.entries == s.entries
            &&& (node_id != s.node_id ==> s2.refreshing)
            &&& (node_id == s.node_id ==> s2.refreshing == s.refreshing)
            &&& apply_msg_spec(s2, MessageView::FinishRefresh { node_id }) is Some
            &&& (node_id != s.node_id ==> !apply_msg_spec(
                s2,
                MessageView::FinishRefresh { node_id },
            )->Some_0.refreshing)
        }),
{
}

/// Secret preservation under refresh: if a stored byte is the evaluation at
/// this node's point of a sharing polynomial `f`, and the arriving delta byte
/// is the evaluation there of a renewal polynomial `g` with zero constant
/// term, then the byte after apply is the evaluation of the moved polynomial
/// `f + g` — whose value at zero, the secret byte, is exactly `f`'s. Every
/// node's share moves onto the same new polynomial, so reconstruction from
/// any K of them yields the secret it yielded before the round.
pub proof fn lemma_refresh_apply_preserves_secret(
    s: StoreView,
    client_id: ClientId,
    new_share: ShareView,
    f: Seq<u8>,
    g: Seq<u8>,
    b: int,
)
    requires
        s.wf(),
        new_share.x == s.node_id.0,
        entries_lookup(s.entries, client_id.spec_id()) is Some,
        0 <= b < entries_lookup(s.entries, client_id.spec_id())->Some_0.share.ys.len(),
        b < new_share.ys.len(),
        f.len() == g.len(),
        f.len() > 0,
        g[0] == 0,
        entries_lookup(s.entries, client_id.spec_id())->Some_0.share.ys[b] == poly_eval_spec(
            f,
            new_share.x,
        ),
        new_share.ys[b] == poly_eval_spec(g, new_share.x),
    ensures
        apply_msg_spec(s, MessageView::Refresh { client_id, new_share }) is Some,
        ({
            let s2 = apply_msg_spec(s, MessageView::Refresh { client_id, new_share })->Some_0;
            &&& entries_lookup(s2.entries, client_id.spec_id()) is Some
            &&& entries_lookup(s2.entries, client_id.spec_id())->Some_0.share.ys[b]
                == poly_eval_spec(xor_seq(f, g), new_share.x)
            &&& poly_eval_spec(xor_seq(f, g), 0) == poly_eval_spec(f, 0)
        }),
{
    let k = client_id.spec_id();
    let old = entries_lookup(s.entries, k)->Some_0;
    let merged = merged_record(old, new_share);
    lemma_entries_insert_props(s.entries, k, merged);
    assert(merged.share.ys[b] == (old.share.ys[b] ^ new_share.ys[b]));
    crate::poly::lemma_merged_byte_preserves_secret(
        f,
        g,
        new_share.x,
        old.share.ys[b],
        new_share.ys[b],
    );
}

/// Applying one renewal delta twice is not idempotent: the second application
/// undoes the first (field addition is XOR), so a nonzero delta leaves the
/// record changed after one application and restored after two. Exactly-once
/// delivery is therefore the log substrate's burden.
pub proof fn lemma_refresh_not_idempotent(s: StoreView, client_id: ClientId, new_share: ShareView)
    requires
        s.wf(),
        new_share.x == s.node_id.0,
        entries_lookup(s.entries, client_id.spec_id()) is Some,
        entries_lookup(
            s.entries,
            client_id.spec_id(),
        )->Some_0.share.ys.len() == new_share.ys.len(),
        new_share.ys.len() > 0,
        new_share.ys[0] != 0,
    ensures
        ({
            let m = MessageView::Refresh { client_id, new_share };
            let old = entries_lookup(s.entries, client_id.spec_id())->Some_0;
            &&& apply_msg_spec(s, m) is Some
            &&& {
                let s1 = apply_msg_spec(s, m)->Some_0;
                &&& entries_lookup(s1.entries, client_id.spec_id()) is Some
                &&& entries_lookup(s1.entries, client_id.spec_id())->Some_0.share.ys
                    != old.share.ys
                &&& apply_msg_spec(s1, m) is Some
                &&& {
                    let s2 = apply_msg_spec(s1, m)->Some_0;
                    &&& entries_lookup(s2.entries, client_id.spec_id()) is Some
                    &&& entries_lookup(s2.entries, client_id.spec_id())->Some_0.share.ys
                        == old.share.ys
                    &&& s2.entries != s1.entries
                }
            }
        }),
{
    let m = MessageView::Refresh { client_id, new_share };
    let k = client_id.spec_id();
    let old = entries_lookup(s.entries, k)->Some_0;
    let merged = merged_record(old, new_share);
    lemma_entries_insert_props(s.entries, k, merged);
    let s1 = apply_msg_spec(s, m)->Some_0;
    assert(entries_lookup(s1.entries, k) == Some(merged));
    let n = new_share.ys.len();
    assert(merged.share.ys.len() == n);
    assert(merged.share.ys[0] == (old.share.ys[0] ^ new_share.ys[0]));
    let a = old.share.ys[0];
    let b = new_share.ys[0];
    assert(b != 0 ==> a ^ b != a) by (bit_vector);
    assert(merged.share.ys != old.share.ys);
    let merged2 = merged_record(merged, new_share);
    lemma_entries_insert_props(s1.entries, k, merged2);
    let s2 = apply_msg_spec(s1, m)->Some_0;
    assert(entries_lookup(s2.entries, k) == Some(merged2));
    assert forall|t: int| 0 <= t < n implies merged2.share.ys[t] == old.share.ys[t] by {
        let at = old.share.ys[t];
        let bt = new_share.ys[t];
        assert((at ^ bt) ^ bt == at) by (bit_vector);
    }
    assert(merged2.share.ys =~= old.share.ys);
    assert(merged2.share =~= old.share);
    assert(entries_lookup(s2.entries, k) != entries_lookup(s1.entries, k));
}

/// The entries parsed so far, carried in front of what remains to parse.
pub open spec fn prepend_parsed(
    prefix: Seq<(u64, ShareMetaView)>,
    r: Option<(Seq<(u64, ShareMetaView)>, int)>,
) -> Option<(Seq<(u64, ShareMetaView)>, int)> {
    match r {
        Some((es, end)) => Some((prefix + es, end)),
        None => None,
    }
}

/// One parsed entry moves from the remainder to the prefix.
proof fn lemma_prepend_step(
    s: Seq<u8>,
    n: nat,
    prefix: Seq<(u64, ShareMetaView)>,
    pos: int,
    i: nat,
    k: u64,
    rec: ShareMetaView,
    j: int,
)
    requires
        i < n,
        0 <= pos,
        pos + 8 <= s.len(),
        parse_entries(s, 8, n) == prepend_parsed(prefix, parse_entries(s, pos, (n - i) as nat)),
        u64_from_le_spec(s.subrange(pos, pos + 8)) == k,
        parse_record(s, pos + 8) == Some((rec, j)),
    ensures
        parse_entries(s, 8, n) == prepend_parsed(
            prefix.push((k, rec)),
            parse_entries(s, j, (n - i - 1) as nat),
        ),
{
    let rem = (n - i) as nat;
    match parse_entries(s, j, (rem - 1) as nat) {
        Some((rest, end)) => {
            assert(parse_entries(s, pos, rem) == Some((seq![(k, rec)] + rest, end)));
            assert(prefix + (seq![(k, rec)] + rest) =~= prefix.push((k, rec)) + rest);
        },
        None => {
            assert(parse_entries(s, pos, rem) is None);
        },
    }
}

} // verus!
