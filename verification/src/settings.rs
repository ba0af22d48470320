//! The per-node configuration. Loading it from files or the environment is
//! the surrounding binary's concern; this type only carries the validated
//! values.

use vstd::prelude::*;

verus! {

/// Everything a node needs to know at startup.
#[derive(Debug, Clone)]
pub struct Settings {
    raft_addr: String,
    peer_addr: Option<String>,
    http_port: u16,
    node_id: u8,
    api_key: String,
    interval_refresh_secs: u64,
}

impl Settings {
    pub closed spec fn spec_raft_addr(&self) -> Seq<char> {
        self.raft_addr@
    }

    pub closed spec fn spec_peer_addr(&self) -> Option<Seq<char>> {
        match self.peer_addr {
            Some(a) => Some(a@),
            None => None,
        }
    }

    pub closed spec fn spec_http_port(&self) -> u16 {
        self.http_port
    }

    pub closed spec fn spec_node_id(&self) -> u8 {
        self.node_id
    }

    pub closed spec fn spec_api_key(&self) -> Seq<char> {
        self.api_key@
    }

    pub closed spec fn spec_interval_refresh_secs(&self) -> u64 {
        self.interval_refresh_secs
    }

    /// Creates a new instance of `Settings` from already-loaded values. The
    /// node identifier may never be zero: it doubles as the `x` coordinate of
    /// every share this node stores.
    pub fn new(
        raft_addr: String,
        peer_addr: Option<String>,
        http_port: u16,
        node_id: u8,
        api_key: String,
        interval_refresh_secs: u64,
    ) -> (r: Self)
        requires
            node_id != 0,
        ensures
            r.spec_raft_addr() == raft_addr@,
            r.spec_peer_addr() == match peer_addr {
                Some(a) => Some::<Seq<char>>(a@),
                None => None::<Seq<char>>,
            },
            r.spec_http_port() == http_port,
            r.spec_node_id() == node_id,
            r.spec_node_id() != 0,
            r.spec_api_key() == api_key@,
            r.spec_interval_refresh_secs() == interval_refresh_secs,
    {
        Self { raft_addr, peer_addr, http_port, node_id, api_key, interval_refresh_secs }
    }

    /// Returns the bind address of the log substrate.
    pub fn raft_addr(&self) -> (r: &str)
        ensures
            r@ == self.spec_raft_addr(),
    {
        self.raft_addr.as_str()
    }

    /// Returns the peer address to join, if this node does not bootstrap.
    pub fn peer_addr(&self) -> (r: Option<&str>)
        ensures
            match r {
                Some(a) => self.spec_peer_addr() == Some(a@),
                None => self.spec_peer_addr() is None,
            },
    {
        match &self.peer_addr {
            Some(a) => Some(a.as_str()),
            None => None,
        }
    }

    /// Returns the ingress port.
    pub fn http_port(&self) -> (r: u16)
        ensures
            r == self.spec_http_port(),
    {
        self.http_port
    }

    /// Returns the node ID.
    pub fn node_id(&self) -> (r: u8)
        ensures
            r == self.spec_node_id(),
    {
        self.node_id
    }

    /// Returns the shared bearer token.
    pub fn api_key(&self) -> (r: &str)
        ensures
            r@ == self.spec_api_key(),
    {
        self.api_key.as_str()
    }

    /// Returns the refresh period in seconds.
    pub fn interval_refresh_secs(&self) -> (r: u64)
        ensures
            r == self.spec_interval_refresh_secs(),
    {
        self.interval_refresh_secs
    }
}

} // verus!
