//! The error taxonomy of the server core, and its mapping onto HTTP status
//! codes.

use vstd::prelude::*;
use vstd::string::StringExecFns;

verus! {

/// Everything that can go wrong while serving a request or a refresh round.
#[derive(Debug, Clone, PartialEq, Eq)]
pub enum SecretServerError {
    /// The store is internally inconsistent and cannot be used.
    InvalidStateError(String),
    /// The consensus substrate failed: a proposal was rejected, quorum was
    /// lost, or joining the cluster failed.
    ConsensusError(String),
    /// The client identifier is not present on this node.
    NotFound,
    /// A read arrived while this node's refresh flag was set.
    RefreshInProgress,
    /// A refresh round could not be completed; never surfaced to a client.
    RefreshError,
    /// The bearer token was missing or wrong.
    Unauthorized,
}

impl SecretServerError {
    /// The HTTP status code a handler answers with when this error reaches
    /// the ingress surface. `RefreshError` stays local to the refresh task;
    /// if it ever surfaced it would be an internal error.
    pub fn status_code(&self) -> (r: u16)
        ensures
            r == match self {
                SecretServerError::InvalidStateError(_) => 500u16,
                SecretServerError::ConsensusError(_) => 500u16,
                SecretServerError::NotFound => 404u16,
                SecretServerError::RefreshInProgress => 503u16,
                SecretServerError::RefreshError => 500u16,
                SecretServerError::Unauthorized => 401u16,
            },
    {
        match self {
            SecretServerError::InvalidStateError(_) => 500,
            SecretServerError::ConsensusError(_) => 500,
            SecretServerError::NotFound => 404,
            SecretServerError::RefreshInProgress => 503,
            SecretServerError::RefreshError => 500,
            SecretServerError::Unauthorized => 401,
        }
    }

    /// A human-readable description, for logs and HTTP bodies.
    pub fn message(&self) -> String {
        match self {
            SecretServerError::InvalidStateError(s) => {
                let mut m = "Cannot get storage with share secret at this moment [".to_owned();
                m.append(s.as_str());
                m.append("]");
                m
            },
            SecretServerError::ConsensusError(s) => {
                let mut m = "Error in consensus protocol [".to_owned();
                m.append(s.as_str());
                m.append("]");
                m
            },
            SecretServerError::NotFound => "Share secret not found".to_owned(),
            SecretServerError::RefreshInProgress => "Shares are being refreshed".to_owned(),
            SecretServerError::RefreshError => "Refresh round could not complete".to_owned(),
            SecretServerError::Unauthorized => "Unauthorized".to_owned(),
        }
    }
}

} // verus!
