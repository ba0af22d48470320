//! Identifiers of the domain: clients and cluster nodes.

use vstd::prelude::*;

verus! {

/// The identity a client presents with every request: an opaque 64-bit
/// identifier, unique per secret, together with the threshold parameters the
/// client chose when splitting it.
#[derive(Clone, PartialEq, Eq, Structural, Hash, Debug, Copy)]
pub struct ClientId {
    id: u64,
    shares_required: u8,
    shares_to_create: u8,
    sec_len: usize,
}

impl ClientId {
    /// The value `new` constructs from these parts.
    pub closed spec fn spec_new(
        id: u64,
        shares_required: u8,
        shares_to_create: u8,
        sec_len: usize,
    ) -> ClientId {
        ClientId { id, shares_required, shares_to_create, sec_len }
    }

    /// The opaque 64-bit identifier.
    pub closed spec fn spec_id(&self) -> u64 {
        self.id
    }

    /// The reconstruction threshold K.
    pub closed spec fn spec_shares_required(&self) -> u8 {
        self.shares_required
    }

    /// The number of shares N the secret was split into.
    pub closed spec fn spec_shares_to_create(&self) -> u8 {
        self.shares_to_create
    }

    /// The secret length in bytes.
    pub closed spec fn spec_sec_len(&self) -> usize {
        self.sec_len
    }

    pub fn new(id: u64, shares_required: u8, shares_to_create: u8, sec_len: usize) -> (r: Self)
        ensures
            r == Self::spec_new(id, shares_required, shares_to_create, sec_len),
            r.spec_id() == id,
            r.spec_shares_required() == shares_required,
            r.spec_shares_to_create() == shares_to_create,
            r.spec_sec_len() == sec_len,
    {
        Self { id, shares_required, shares_to_create, sec_len }
    }

    #[verifier::when_used_as_spec(spec_id)]
    pub fn id(&self) -> (r: u64)
        ensures
            r == self.spec_id(),
    {
        self.id
    }

    #[verifier::when_used_as_spec(spec_shares_required)]
    pub fn shares_required(&self) -> (r: u8)
        ensures
            r == self.spec_shares_required(),
    {
        self.shares_required
    }

    #[verifier::when_used_as_spec(spec_shares_to_create)]
    pub fn shares_to_create(&self) -> (r: u8)
        ensures
            r == self.spec_shares_to_create(),
    {
        self.shares_to_create
    }

    #[verifier::when_used_as_spec(spec_sec_len)]
    pub fn sec_len(&self) -> (r: usize)
        ensures
            r == self.spec_sec_len(),
    {
        self.sec_len
    }
}

/// A client identity is exactly its four parts.
pub proof fn lemma_client_id_parts(c: ClientId)
    ensures
        ClientId::spec_new(
            c.spec_id(),
            c.spec_shares_required(),
            c.spec_shares_to_create(),
            c.spec_sec_len(),
        ) == c,
{
}

/// The parts a freshly built client identity carries.
pub proof fn lemma_client_id_new(id: u64, shares_required: u8, shares_to_create: u8, sec_len: usize)
    ensures
        ClientId::spec_new(id, shares_required, shares_to_create, sec_len).spec_id() == id,
        ClientId::spec_new(id, shares_required, shares_to_create, sec_len).spec_shares_required()
            == shares_required,
        ClientId::spec_new(id, shares_required, shares_to_create, sec_len).spec_shares_to_create()
            == shares_to_create,
        ClientId::spec_new(id, shares_required, shares_to_create, sec_len).spec_sec_len()
            == sec_len,
{
}

/// The 8-bit identifier of a cluster node, 1-based; it equals the `x`
/// coordinate of every share this node stores, and is never zero (a share at
/// x = 0 would expose the secret).
#[derive(Clone, PartialEq, Eq, Structural, Hash, Debug, Copy)]
pub struct NodeId(pub u8);

} // verus!
