//! Plain data shared by the request and download logic.
use vstd::prelude::*;

verus! {

/// The parts of a download address that a request needs.
#[derive(Debug, Clone, Copy)]
pub struct UrlItems {
    /// Host name (for plain `http`, without the port).
    pub dns: &'static str,
    /// Everything after the first `/` that follows the host.
    pub path: &'static str,
    /// Port to connect to, as text.
    pub port: &'static str,
    /// Whether the connection goes through TLS.
    pub is_secure: bool,
}

/// Failure of a request, with a message for the user.
#[derive(Debug, PartialEq, Clone, Copy)]
pub enum ReqError {
    ErrorFound(&'static str),
}

} // verus!
