//! Shares of a secret, their metadata, and share renewal.
//!
//! A share is a pair `(x, ys)`: `x` is the node-assigned evaluation point
//! (never zero — the value at zero is the secret itself) and `ys[i]` is the
//! evaluation at `x` of the polynomial sharing the i-th secret byte. A
//! renewal polynomial has a zero constant term; evaluating it at a share's
//! `x` and field-adding the result onto every byte of `ys` rerandomizes the
//! share without moving any sharing polynomial's y-intercept.

use crate::poly::{poly_eval_spec, xor_seq, Coeff, GaloisPolynomial};
use vstd::prelude::*;

verus! {

/// The threshold parameters attached to a stored share: K shares required to
/// reconstruct, N shares created, and the secret length in bytes.
#[derive(PartialEq, Eq, Structural, Clone, Copy, Debug)]
pub struct Metadata {
    pub shares_required: u8,
    pub shares_to_create: u8,
    pub sec_len: usize,
}

impl Metadata {
    /// The invariant of every stored metadata record: at least one share is
    /// required, no more than were created, and the secret is not empty.
    pub open spec fn valid(&self) -> bool {
        &&& 1 <= self.shares_required <= self.shares_to_create
        &&& self.sec_len >= 1
    }

    pub fn new(shares_required: u8, shares_to_create: u8, sec_len: usize) -> (r: Metadata)
        requires
            1 <= shares_required <= shares_to_create,
            sec_len >= 1,
        ensures
            r == (Metadata { shares_required, shares_to_create, sec_len }),
            r.valid(),
    {
        Metadata { shares_required, shares_to_create, sec_len }
    }
}

/// The mathematical content of a [`Share`].
#[verifier::ext_equal]
pub struct ShareView {
    pub x: u8,
    pub ys: Seq<u8>,
}

/// One of the N pieces of a split secret: the evaluations at `x` of the
/// per-byte sharing polynomials.
#[derive(PartialEq, Eq, Debug)]
pub struct Share {
    x: u8,
    ys: Vec<u8>,
}

impl View for Share {
    type V = ShareView;

    closed spec fn view(&self) -> ShareView {
        ShareView { x: self.x, ys: self.ys@ }
    }
}

impl Clone for Share {
    fn clone(&self) -> (r: Self)
        ensures
            r@ == self@,
    {
        let r = Share { x: self.x, ys: vstd::slice::slice_to_vec(self.ys.as_slice()) };
        proof {
            assert(r@.ys =~= self@.ys);
        }
        r
    }
}

impl Share {
    /// A share's evaluation point is never zero.
    pub open spec fn wf(&self) -> bool {
        self@.x != 0
    }

    pub fn new(x: u8, ys: Vec<u8>) -> (r: Self)
        requires
            x != 0,
        ensures
            r@.x == x,
            r@.ys == ys@,
            r.wf(),
    {
        Self { x, ys }
    }

    /// The evaluation point, equal to the owning node's identifier.
    pub fn id(&self) -> (r: u8)
        ensures
            r == self@.x,
    {
        self.x
    }

    /// The number of secret bytes this share covers.
    pub fn ys_len(&self) -> (r: usize)
        ensures
            r == self@.ys.len(),
    {
        self.ys.len()
    }

    /// The raw evaluations, for encoding.
    pub fn ys_bytes(&self) -> (r: &[u8])
        ensures
            r@ == self@.ys,
    {
        self.ys.as_slice()
    }

    /// Builds a fresh renewal polynomial for the secret this share belongs
    /// to: degree K - 1, zero constant term, remaining coefficients drawn
    /// from a cryptographically secure generator.
    pub fn renew_poly(&self, metadata: &Metadata) -> (r: RenewableShare)
        requires
            metadata.valid(),
        ensures
            r@.len() == metadata.shares_required,
            r@[0] == 0,
    {
        RenewableShare::new(self, metadata)
    }

    /// The share as a list of `(x, y)` points, one per secret byte.
    pub fn to_points(&self) -> (r: Vec<(u8, u8)>)
        ensures
            r@.len() == self@.ys.len(),
            forall|i: int| 0 <= i < r@.len() ==> r@[i] == (self@.x, self@.ys[i]),
    {
        let mut r: Vec<(u8, u8)> = Vec::new();
        let n = self.ys.len();
        let mut i: usize = 0;
        while i < n
            invariant
                i <= n,
                n == self@.ys.len(),
                r@.len() == i,
                forall|j: int| 0 <= j < i ==> r@[j] == (self@.x, self@.ys[j]),
            decreases n - i,
        {
            r.push((self.x, self.ys[i]));
            i = i + 1;
        }
        r
    }

    /// A share from a list of points that all lie at one evaluation point,
    /// as the classic splitting primitive produces them.
    pub fn from_points(points: &Vec<(u8, u8)>) -> (r: Self)
        requires
            points@.len() > 0,
            points@[0].0 != 0,
        ensures
            r@.x == points@[0].0,
            r@.ys.len() == points@.len(),
            forall|i: int| 0 <= i < points@.len() ==> r@.ys[i] == points@[i].1,
            r.wf(),
    {
        let x = points[0].0;
        let mut ys: Vec<u8> = Vec::new();
        let n = points.len();
        let mut i: usize = 0;
        while i < n
            invariant
                i <= n,
                n == points@.len(),
                ys@.len() == i,
                forall|j: int| 0 <= j < i ==> ys@[j] == points@[j].1,
            decreases n - i,
        {
            ys.push(points[i].1);
            i = i + 1;
        }
        Share { x, ys }
    }

    /// The share as raw bytes: the evaluation point followed by the
    /// evaluations, the layout the reconstruction primitive accepts.
    pub fn to_bytes(&self) -> (r: Vec<u8>)
        ensures
            r@.len() == self@.ys.len() + 1,
            r@[0] == self@.x,
            forall|i: int| 0 <= i < self@.ys.len() ==> r@[i + 1] == self@.ys[i],
    {
        let mut r: Vec<u8> = Vec::new();
        r.push(self.x);
        let n = self.ys.len();
        let mut i: usize = 0;
        while i < n
            invariant
                i <= n,
                n == self@.ys.len(),
                r@.len() == i + 1,
                r@[0] == self@.x,
                forall|j: int| 0 <= j < i ==> r@[j + 1] == self@.ys[j],
            decreases n - i,
        {
            r.push(self.ys[i]);
            i = i + 1;
        }
        r
    }
}

/// The mathematical content of a [`ShareMeta`].
#[verifier::ext_equal]
pub struct ShareMetaView {
    pub share: ShareView,
    pub meta: Metadata,
}

/// A stored record: one share together with its immutable metadata.
#[derive(PartialEq, Eq, Debug)]
pub struct ShareMeta {
    pub share: Share,
    pub meta: Metadata,
}

impl View for ShareMeta {
    type V = ShareMetaView;

    open spec fn view(&self) -> ShareMetaView {
        ShareMetaView { share: self.share@, meta: self.meta }
    }
}

impl Clone for ShareMeta {
    fn clone(&self) -> (r: Self)
        ensures
            r@ == self@,
    {
        ShareMeta { share: self.share.clone(), meta: self.meta }
    }
}

impl ShareMeta {
    pub fn new(share: Share, meta: Metadata) -> (r: ShareMeta)
        ensures
            r@.share == share@,
            r@.meta == meta,
    {
        ShareMeta { share, meta }
    }
}

/// Relies on `rand::thread_rng` and `rand::Rng::fill`: returns `len` bytes
/// from a cryptographically secure random number generator. Nothing can be
/// promised about the bytes themselves.
#[verifier::external_body]
fn random_bytes(len: usize) -> (r: Vec<u8>)
    ensures
        r@.len() == len,
{
    let mut buf = vec![0u8; len];
    rand::Rng::fill(&mut rand::thread_rng(), buf.as_mut_slice());
    buf
}

/// A renewal polynomial: degree K - 1 with zero constant term. Evaluating it
/// at any nonzero `x` gives a delta that rerandomizes a share at `x` without
/// moving the shared secret.
pub struct RenewableShare {
    poly: GaloisPolynomial,
}

impl View for RenewableShare {
    type V = Seq<u8>;

    closed spec fn view(&self) -> Seq<u8> {
        self.poly@
    }
}

impl RenewableShare {
    /// Samples a fresh renewal polynomial for a secret split with the given
    /// metadata: coefficient 0 is fixed to zero, coefficients 1 .. K - 1 are
    /// drawn from a cryptographically secure generator. The polynomial
    /// belongs to the whole secret, not to one share; the share only names
    /// the record being renewed.
    pub fn new(_share: &Share, metadata: &Metadata) -> (r: Self)
        requires
            metadata.valid(),
        ensures
            r@.len() == metadata.shares_required,
            r@[0] == 0,
    {
        let k = metadata.shares_required as usize;
        let coeffs = random_bytes(k - 1);
        let mut share_poly = GaloisPolynomial::new();
        share_poly.set_coeff(Coeff(0), 0);
        let mut i: usize = 1;
        while i < k
            invariant
                1 <= i <= k,
                k <= 255,
                coeffs@.len() == k - 1,
                share_poly@.len() == i,
                share_poly@[0] == 0,
            decreases k - i,
        {
            share_poly.set_coeff(Coeff(coeffs[i - 1]), i);
            i = i + 1;
        }
        RenewableShare { poly: share_poly }
    }

    /// Renews a share in place: every byte of `ys` is field-added with the
    /// polynomial's value at the share's own evaluation point. The
    /// evaluation point itself never changes.
    pub fn renew(&self, share: &mut Share)
        ensures
            final(share)@.x == old(share)@.x,
            final(share)@.ys.len() == old(share)@.ys.len(),
            forall|i: int|
                0 <= i < old(share)@.ys.len() ==> final(share)@.ys[i] == old(share)@.ys[i]
                    ^ poly_eval_spec(self@, old(share)@.x),
    {
        let delta = self.poly.get_y_value(share.x);
        let n = share.ys.len();
        let mut i: usize = 0;
        while i < n
            invariant
                i <= n,
                n == share@.ys.len(),
                share@.x == old(share)@.x,
                forall|j: int| i <= j < n ==> share@.ys[j] == old(share)@.ys[j],
                forall|j: int|
                    0 <= j < i ==> share@.ys[j] == old(share)@.ys[j] ^ poly_eval_spec(
                        self@,
                        old(share)@.x,
                    ),
                delta == poly_eval_spec(self@, old(share)@.x),
            decreases n - i,
        {
            let y = share.ys[i];
            share.ys[i] = y ^ delta;
            i = i + 1;
        }
    }

    /// The renewal delta packaged as a share addressed to the node at `x`:
    /// `ys_len` copies of the polynomial's value at `x`, one per secret byte.
    pub fn get_share(&self, x: u8, ys_len: usize) -> (r: Share)
        requires
            x != 0,
        ensures
            r@.x == x,
            r@.ys.len() == ys_len,
            forall|i: int| 0 <= i < ys_len ==> r@.ys[i] == poly_eval_spec(self@, x),
            r.wf(),
    {
        let y = self.poly.get_y_value(x);
        let mut ys: Vec<u8> = Vec::new();
        let mut i: usize = 0;
        while i < ys_len
            invariant
                i <= ys_len,
                ys@.len() == i,
                forall|j: int| 0 <= j < i ==> ys@[j] == poly_eval_spec(self@, x),
                y == poly_eval_spec(self@, x),
            decreases ys_len - i,
        {
            ys.push(y);
            i = i + 1;
        }
        Share { x, ys }
    }

    /// Merges a renewal share into a stored share: the result keeps the
    /// stored share's evaluation point and carries the pointwise field sum
    /// of the two byte sequences.
    pub fn renew_with_share(new_share: &Share, share: &Share) -> (r: Share)
        ensures
            r@.x == share@.x,
            r@.ys == xor_seq(share@.ys, new_share@.ys),
    {
        let n = if share.ys.len() <= new_share.ys.len() {
            share.ys.len()
        } else {
            new_share.ys.len()
        };
        let mut ys: Vec<u8> = Vec::new();
        let mut i: usize = 0;
        while i < n
            invariant
                i <= n,
                n == vstd::math::min(share@.ys.len() as int, new_share@.ys.len() as int),
                ys@.len() == i,
                forall|j: int| 0 <= j < i ==> ys@[j] == share@.ys[j] ^ new_share@.ys[j],
            decreases n - i,
        {
            ys.push(share.ys[i] ^ new_share.ys[i]);
            i = i + 1;
        }
        let r = Share { x: share.x, ys };
        proof {
            assert(r@.ys =~= xor_seq(share@.ys, new_share@.ys));
        }
        r
    }
}

} // verus!
