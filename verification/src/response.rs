//! Classification of ingestion responses.

use vstd::prelude::*;

verus! {

/// A response from the ingest API: either the body was sent, or it failed
/// with a status code and a reason.
#[derive(Debug)]
pub enum Response {
    /// The request was accepted.
    Sent,
    /// The request failed: the status code and the reason the server gave.
    Failed(u16, String),
}

impl Response {
    /// Classify a status code, keeping the server's reason for a failure.
    /// Exactly the codes from 200 up to but excluding 300 count as sent.
    pub fn from_status(status: u16, reason: String) -> (r: Response)
        ensures
            r is Sent <==> 200 <= status < 300,
            r matches Response::Failed(s, m) ==> s == status && m@ == reason@,
    {
        if 200 <= status && status < 300 {
            Response::Sent
        } else {
            Response::Failed(status, reason)
        }
    }
}

} // verus!
