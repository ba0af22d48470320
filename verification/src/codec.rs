//! The canonical wire format of the cluster.
//!
//! Consensus commands and snapshots travel as a compact fixed-endian binary
//! encoding; the replicated apply function depends only on these bytes, so
//! every node must produce and read the identical layout. Integers are
//! little-endian: client identifiers and lengths as u64, node identifiers and
//! evaluation points as one byte. Byte strings are length-prefixed by a u64.

use crate::model::ClientId;
use crate::share::{Metadata, Share, ShareMeta, ShareMetaView, ShareView};
use vstd::prelude::*;

verus! {

/// The eight bytes of `v` in little-endian order.
pub open spec fn u64_le_spec(v: u64) -> Seq<u8> {
    seq![
        ((v >> 0) & 0xff) as u8,
        ((v >> 8) & 0xff) as u8,
        ((v >> 16) & 0xff) as u8,
        ((v >> 24) & 0xff) as u8,
        ((v >> 32) & 0xff) as u8,
        ((v >> 40) & 0xff) as u8,
        ((v >> 48) & 0xff) as u8,
        ((v >> 56) & 0xff) as u8,
    ]
}

/// The u64 whose little-endian bytes are the eight bytes of `s`.
pub open spec fn u64_from_le_spec(s: Seq<u8>) -> u64
    recommends
        s.len() == 8,
{
    (s[0] as u64) | ((s[1] as u64) << 8) | ((s[2] as u64) << 16) | ((s[3] as u64) << 24) | ((
    s[4] as u64) << 32) | ((s[5] as u64) << 40) | ((s[6] as u64) << 48) | ((s[7] as u64) << 56)
}

proof fn lemma_mask_fits(x: u64)
    ensures
        x & 0xff < 256,
{
    assert(x & 0xff < 256) by (bit_vector);
}

/// Reading back the little-endian bytes of `v` yields `v`.
pub proof fn lemma_u64_le_roundtrip(v: u64)
    ensures
        u64_from_le_spec(u64_le_spec(v)) == v,
{
    lemma_mask_fits(v >> 0);
    lemma_mask_fits(v >> 8);
    lemma_mask_fits(v >> 16);
    lemma_mask_fits(v >> 24);
    lemma_mask_fits(v >> 32);
    lemma_mask_fits(v >> 40);
    lemma_mask_fits(v >> 48);
    lemma_mask_fits(v >> 56);
    assert((((v >> 0) & 0xff) | (((v >> 8) & 0xff) << 8) | (((v >> 16) & 0xff) << 16) | (((v >> 24)
        & 0xff) << 24) | (((v >> 32) & 0xff) << 32) | (((v >> 40) & 0xff) << 40) | (((v >> 48)
        & 0xff) << 48) | (((v >> 56) & 0xff) << 56)) == v) by (bit_vector);
}

/// Appends the little-endian bytes of `v`.
pub fn push_u64_le(buf: &mut Vec<u8>, v: u64)
    ensures
        final(buf)@ == old(buf)@ + u64_le_spec(v),
{
    proof {
        lemma_mask_fits(v >> 0);
        lemma_mask_fits(v >> 8);
        lemma_mask_fits(v >> 16);
        lemma_mask_fits(v >> 24);
        lemma_mask_fits(v >> 32);
        lemma_mask_fits(v >> 40);
        lemma_mask_fits(v >> 48);
        lemma_mask_fits(v >> 56);
    }
    buf.push(((v >> 0) & 0xff) as u8);
    buf.push(((v >> 8) & 0xff) as u8);
    buf.push(((v >> 16) & 0xff) as u8);
    buf.push(((v >> 24) & 0xff) as u8);
    buf.push(((v >> 32) & 0xff) as u8);
    buf.push(((v >> 40) & 0xff) as u8);
    buf.push(((v >> 48) & 0xff) as u8);
    buf.push(((v >> 56) & 0xff) as u8);
    proof {
        assert(final(buf)@ =~= old(buf)@ + u64_le_spec(v));
    }
}

/// Reads the u64 whose little-endian bytes sit at `i .. i + 8`.
pub fn read_u64_le(s: &[u8], i: usize) -> (r: u64)
    requires
        i + 8 <= s@.len(),
    ensures
        r == u64_from_le_spec(s@.subrange(i as int, i + 8)),
{
    let r = (s[i] as u64) | ((s[i + 1] as u64) << 8u64) | ((s[i + 2] as u64) << 16u64) | ((s[i
        + 3] as u64) << 24u64) | ((s[i + 4] as u64) << 32u64) | ((s[i + 5] as u64) << 40u64) | ((
    s[i + 6] as u64) << 48u64) | ((s[i + 7] as u64) << 56u64);
    proof {
        let sub = s@.subrange(i as int, i + 8);
        assert(sub[0] == s@[i as int]);
        assert(sub[1] == s@[i + 1]);
        assert(sub[2] == s@[i + 2]);
        assert(sub[3] == s@[i + 3]);
        assert(sub[4] == s@[i + 4]);
        assert(sub[5] == s@[i + 5]);
        assert(sub[6] == s@[i + 6]);
        assert(sub[7] == s@[i + 7]);
    }
    r
}

/// A share whose encoding can be read back: the evaluation point is nonzero
/// and the byte count is addressable.
pub open spec fn share_wf(s: ShareView) -> bool {
    s.x != 0 && s.ys.len() <= usize::MAX
}

/// A record whose encoding can be read back.
pub open spec fn record_wf(r: ShareMetaView) -> bool {
    share_wf(r.share) && r.meta.valid()
}

/// The encoding of a share: evaluation point, byte count, evaluations.
pub open spec fn share_enc(s: ShareView) -> Seq<u8> {
    seq![s.x] + u64_le_spec(s.ys.len() as u64) + s.ys
}

/// The encoding of a metadata record: K, N, secret length.
pub open spec fn meta_enc(m: Metadata) -> Seq<u8> {
    seq![m.shares_required, m.shares_to_create] + u64_le_spec(m.sec_len as u64)
}

/// The encoding of a client identity: identifier, K, N, secret length.
pub open spec fn client_enc(c: ClientId) -> Seq<u8> {
    u64_le_spec(c.spec_id()) + seq![c.spec_shares_required(), c.spec_shares_to_create()]
        + u64_le_spec(c.spec_sec_len() as u64)
}

/// The encoding of a stored record: the share, then its metadata.
pub open spec fn record_enc(r: ShareMetaView) -> Seq<u8> {
    share_enc(r.share) + meta_enc(r.meta)
}

/// Reads a share starting at `i`; yields the share and the position after it.
pub open spec fn parse_share(s: Seq<u8>, i: int) -> Option<(ShareView, int)> {
    if 0 <= i && i + 9 <= s.len() {
        let x = s[i];
        let n = u64_from_le_spec(s.subrange(i + 1, i + 9)) as int;
        if x != 0 && i + 9 + n <= s.len() {
            Some((ShareView { x, ys: s.subrange(i + 9, i + 9 + n) }, i + 9 + n))
        } else {
            None
        }
    } else {
        None
    }
}

/// Reads a metadata record starting at `i`, rejecting values that break the
/// metadata invariant.
pub open spec fn parse_meta(s: Seq<u8>, i: int) -> Option<(Metadata, int)> {
    if 0 <= i && i + 10 <= s.len() {
        let sr = s[i];
        let sc = s[i + 1];
        let sl = u64_from_le_spec(s.subrange(i + 2, i + 10));
        if 1 <= sr && sr <= sc && 1 <= sl && sl <= usize::MAX as u64 {
            Some((Metadata { shares_required: sr, shares_to_create: sc, sec_len: sl as usize }, i + 10))
        } else {
            None
        }
    } else {
        None
    }
}

/// Reads a client identity starting at `i`.
pub open spec fn parse_client(s: Seq<u8>, i: int) -> Option<(ClientId, int)> {
    if 0 <= i && i + 18 <= s.len() {
        let id = u64_from_le_spec(s.subrange(i, i + 8));
        let sr = s[i + 8];
        let sc = s[i + 9];
        let sl = u64_from_le_spec(s.subrange(i + 10, i + 18));
        if sl <= usize::MAX as u64 {
            Some((ClientId::spec_new(id, sr, sc, sl as usize), i + 18))
        } else {
            None
        }
    } else {
        None
    }
}

/// Reads a stored record starting at `i`: a share followed by its metadata.
pub open spec fn parse_record(s: Seq<u8>, i: int) -> Option<(ShareMetaView, int)> {
    match parse_share(s, i) {
        Some((share, j)) => match parse_meta(s, j) {
            Some((meta, k)) => Some((ShareMetaView { share, meta }, k)),
            None => None,
        },
        None => None,
    }
}

/// A byte of an encoding placed inside a larger sequence.
proof fn lemma_enc_byte(s: Seq<u8>, i: int, enc: Seq<u8>, k: int)
    requires
        0 <= i,
        0 <= k < enc.len(),
        i + enc.len() <= s.len(),
        s.subrange(i, i + enc.len()) == enc,
    ensures
        s[i + k] == enc[k],
{
    assert(s.subrange(i, i + enc.len())[k] == s[i + k]);
}

/// A well-formed share's encoding reads back as that share, wherever it sits.
pub proof fn lemma_parse_share_enc(s: Seq<u8>, i: int, sv: ShareView)
    requires
        0 <= i,
        i + share_enc(sv).len() <= s.len(),
        s.subrange(i, i + share_enc(sv).len()) == share_enc(sv),
        share_wf(sv),
    ensures
        parse_share(s, i) == Some((sv, i + share_enc(sv).len())),
{
    let enc = share_enc(sv);
    let p1 = u64_le_spec(sv.ys.len() as u64);
    let n = sv.ys.len() as int;
    assert(enc.len() == 9 + n);
    lemma_enc_byte(s, i, enc, 0);
    assert((seq![sv.x] + p1)[0] == sv.x);
    assert((seq![sv.x] + p1 + sv.ys)[0] == sv.x);
    assert(s[i] == sv.x);
    assert forall|k: int| 0 <= k < 8 implies s.subrange(i + 1, i + 9)[k] == p1[k] by {
        lemma_enc_byte(s, i, enc, k + 1);
        assert((seq![sv.x] + p1)[k + 1] == p1[k]);
        assert((seq![sv.x] + p1 + sv.ys)[k + 1] == (seq![sv.x] + p1)[k + 1]);
        assert(s.subrange(i + 1, i + 9)[k] == s[i + 1 + k]);
    }
    assert(s.subrange(i + 1, i + 9) =~= p1);
    lemma_u64_le_roundtrip(sv.ys.len() as u64);
    assert(u64_from_le_spec(s.subrange(i + 1, i + 9)) as int == n);
    assert forall|k: int| 0 <= k < n implies s.subrange(i + 9, i + 9 + n)[k] == sv.ys[k] by {
        lemma_enc_byte(s, i, enc, k + 9);
        assert((seq![sv.x] + p1 + sv.ys)[k + 9] == sv.ys[k]);
        assert(s.subrange(i + 9, i + 9 + n)[k] == s[i + 9 + k]);
    }
    assert(s.subrange(i + 9, i + 9 + n) =~= sv.ys);
}

/// A valid metadata record's encoding reads back as that record.
pub proof fn lemma_parse_meta_enc(s: Seq<u8>, i: int, m: Metadata)
    requires
        0 <= i,
        i + 10 <= s.len(),
        s.subrange(i, i + 10) == meta_enc(m),
        m.valid(),
    ensures
        parse_meta(s, i) == Some((m, i + 10)),
{
    let enc = meta_enc(m);
    let p0 = seq![m.shares_required, m.shares_to_create];
    let p1 = u64_le_spec(m.sec_len as u64);
    lemma_enc_byte(s, i, enc, 0);
    lemma_enc_byte(s, i, enc, 1);
    assert((p0 + p1)[0] == m.shares_required);
    assert((p0 + p1)[1] == m.shares_to_create);
    assert(s[i] == m.shares_required);
    assert(s[i + 1] == m.shares_to_create);
    assert forall|k: int| 0 <= k < 8 implies s.subrange(i + 2, i + 10)[k] == p1[k] by {
        lemma_enc_byte(s, i, enc, k + 2);
        assert((p0 + p1)[k + 2] == p1[k]);
        assert(s.subrange(i + 2, i + 10)[k] == s[i + 2 + k]);
    }
    assert(s.subrange(i + 2, i + 10) =~= p1);
    lemma_u64_le_roundtrip(m.sec_len as u64);
}

/// A client identity's encoding reads back as that identity.
pub proof fn lemma_parse_client_enc(s: Seq<u8>, i: int, c: ClientId)
    requires
        0 <= i,
        i + 18 <= s.len(),
        s.subrange(i, i + 18) == client_enc(c),
    ensures
        parse_client(s, i) == Some((c, i + 18)),
{
    let enc = client_enc(c);
    let p0 = u64_le_spec(c.spec_id());
    let p1 = seq![c.spec_shares_required(), c.spec_shares_to_create()];
    let p2 = u64_le_spec(c.spec_sec_len() as u64);
    assert forall|k: int| 0 <= k < 8 implies s.subrange(i, i + 8)[k] == p0[k] by {
        lemma_enc_byte(s, i, enc, k);
        assert((p0 + p1)[k] == p0[k]);
        assert((p0 + p1 + p2)[k] == (p0 + p1)[k]);
        assert(s.subrange(i, i + 8)[k] == s[i + k]);
    }
    assert(s.subrange(i, i + 8) =~= p0);
    lemma_enc_byte(s, i, enc, 8);
    lemma_enc_byte(s, i, enc, 9);
    assert((p0 + p1)[8] == c.spec_shares_required());
    assert((p0 + p1)[9] == c.spec_shares_to_create());
    assert((p0 + p1 + p2)[8] == (p0 + p1)[8]);
    assert((p0 + p1 + p2)[9] == (p0 + p1)[9]);
    assert(s[i + 8] == c.spec_shares_required());
    assert(s[i + 9] == c.spec_shares_to_create());
    assert forall|k: int| 0 <= k < 8 implies s.subrange(i + 10, i + 18)[k] == p2[k] by {
        lemma_enc_byte(s, i, enc, k + 10);
        assert((p0 + p1 + p2)[k + 10] == p2[k]);
        assert(s.subrange(i + 10, i + 18)[k] == s[i + 10 + k]);
    }
    assert(s.subrange(i + 10, i + 18) =~= p2);
    lemma_u64_le_roundtrip(c.spec_id());
    lemma_u64_le_roundtrip(c.spec_sec_len() as u64);
    crate::model::lemma_client_id_parts(c);
    crate::model::lemma_client_id_new(
        c.spec_id(),
        c.spec_shares_required(),
        c.spec_shares_to_create(),
        c.spec_sec_len(),
    );
}

/// A well-formed record's encoding reads back as that record.
pub proof fn lemma_parse_record_enc(s: Seq<u8>, i: int, r: ShareMetaView)
    requires
        0 <= i,
        i + record_enc(r).len() <= s.len(),
        s.subrange(i, i + record_enc(r).len()) == record_enc(r),
        record_wf(r),
    ensures
        parse_record(s, i) == Some((r, i + record_enc(r).len())),
{
    let enc = record_enc(r);
    let se = share_enc(r.share);
    let me = meta_enc(r.meta);
    let j = i + se.len();
    assert forall|k: int| 0 <= k < se.len() implies s.subrange(i, j)[k] == se[k] by {
        lemma_enc_byte(s, i, enc, k);
        assert((se + me)[k] == se[k]);
        assert(s.subrange(i, j)[k] == s[i + k]);
    }
    assert(s.subrange(i, j) =~= se);
    lemma_parse_share_enc(s, i, r.share);
    assert forall|k: int| 0 <= k < 10 implies s.subrange(j, j + 10)[k] == me[k] by {
        lemma_enc_byte(s, i, enc, se.len() + k);
        assert((se + me)[se.len() + k] == me[k]);
        assert(s.subrange(j, j + 10)[k] == s[j + k]);
    }
    assert(s.subrange(j, j + 10) =~= me);
    lemma_parse_meta_enc(s, j, r.meta);
}

/// Appends the encoding of a share.
pub fn push_share(buf: &mut Vec<u8>, s: &Share)
    ensures
        final(buf)@ == old(buf)@ + share_enc(s@),
{
    buf.push(s.id());
    push_u64_le(buf, s.ys_len() as u64);
    buf.extend_from_slice(s.ys_bytes());
    proof {
        assert(final(buf)@ =~= old(buf)@ + share_enc(s@));
    }
}

/// Appends the encoding of a metadata record.
pub fn push_meta(buf: &mut Vec<u8>, m: &Metadata)
    ensures
        final(buf)@ == old(buf)@ + meta_enc(*m),
{
    buf.push(m.shares_required);
    buf.push(m.shares_to_create);
    push_u64_le(buf, m.sec_len as u64);
    proof {
        assert(final(buf)@ =~= old(buf)@ + meta_enc(*m));
    }
}

/// Appends the encoding of a client identity.
pub fn push_client(buf: &mut Vec<u8>, c: &ClientId)
    ensures
        final(buf)@ == old(buf)@ + client_enc(*c),
{
    push_u64_le(buf, c.id());
    buf.push(c.shares_required());
    buf.push(c.shares_to_create());
    push_u64_le(buf, c.sec_len() as u64);
    proof {
        assert(final(buf)@ =~= old(buf)@ + client_enc(*c));
    }
}

/// Appends the encoding of a stored record.
pub fn push_record(buf: &mut Vec<u8>, r: &ShareMeta)
    ensures
        final(buf)@ == old(buf)@ + record_enc(r@),
{
    push_share(buf, &r.share);
    push_meta(buf, &r.meta);
    proof {
        assert(final(buf)@ =~= old(buf)@ + record_enc(r@));
    }
}

/// Reads a share at `pos`, exactly as the specification parser does.
pub fn decode_share(s: &[u8], pos: usize) -> (r: Option<(Share, usize)>)
    ensures
        match r {
            Some((sh, j)) => parse_share(s@, pos as int) == Some((sh@, j as int)) && sh.wf(),
            None => parse_share(s@, pos as int) is None,
        },
{
    if s.len() < 9 || pos > s.len() - 9 {
        return None;
    }
    let x = s[pos];
    let n64 = read_u64_le(s, pos + 1);
    if x == 0 {
        return None;
    }
    let rem = s.len() - (pos + 9);
    if n64 > rem as u64 {
        return None;
    }
    let n = n64 as usize;
    let ys = vstd::slice::slice_to_vec(vstd::slice::slice_subrange(s, pos + 9, pos + 9 + n));
    Some((Share::new(x, ys), pos + 9 + n))
}

/// Reads a metadata record at `pos`, exactly as the specification parser
/// does.
pub fn decode_meta(s: &[u8], pos: usize) -> (r: Option<(Metadata, usize)>)
    ensures
        match r {
            Some((m, j)) => parse_meta(s@, pos as int) == Some((m, j as int)) && m.valid(),
            None => parse_meta(s@, pos as int) is None,
        },
{
    if s.len() < 10 || pos > s.len() - 10 {
        return None;
    }
    let sr = s[pos];
    let sc = s[pos + 1];
    let sl = read_u64_le(s, pos + 2);
    if 1 <= sr && sr <= sc && 1 <= sl && sl <= usize::MAX as u64 {
        Some((Metadata::new(sr, sc, sl as usize), pos + 10))
    } else {
        None
    }
}

/// Reads a client identity at `pos`, exactly as the specification parser
/// does.
pub fn decode_client(s: &[u8], pos: usize) -> (r: Option<(ClientId, usize)>)
    ensures
        match r {
            Some((c, j)) => parse_client(s@, pos as int) == Some((c, j as int)),
            None => parse_client(s@, pos as int) is None,
        },
{
    if s.len() < 18 || pos > s.len() - 18 {
        return None;
    }
    let id = read_u64_le(s, pos);
    let sr = s[pos + 8];
    let sc = s[pos + 9];
    let sl = read_u64_le(s, pos + 10);
    if sl <= usize::MAX as u64 {
        Some((ClientId::new(id, sr, sc, sl as usize), pos + 18))
    } else {
        None
    }
}

/// Reads a stored record at `pos`, exactly as the specification parser does.
pub fn decode_record(s: &[u8], pos: usize) -> (r: Option<(ShareMeta, usize)>)
    ensures
        match r {
            Some((rec, j)) => parse_record(s@, pos as int) == Some((rec@, j as int)) && record_wf(
                rec@,
            ),
            None => parse_record(s@, pos as int) is None,
        },
{
    match decode_share(s, pos) {
        Some((share, j)) => match decode_meta(s, j) {
            Some((meta, k)) => Some((ShareMeta::new(share, meta), k)),
            None => None,
        },
        None => None,
    }
}

} // verus!
