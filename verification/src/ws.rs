//! Requests that a WebSocket client can make.

use vstd::prelude::*;
use vstd::string::*;

verus! {

/// The type tag of a catch-up request.
pub const CATCH_UP: &'static str = "catch_up";

/// A request of a client, as far as it is understood.
#[derive(Debug, Clone, Copy, PartialEq, Eq, Structural)]
pub enum ClientRequest {
    /// Replay the logged events from this time on, in milliseconds.
    CatchUp { since: u64 },
    /// Anything else: dropped without an answer.
    Ignored,
}

/// Classify a client message by its `type` tag and its `since_timestamp`
/// number: only a message tagged `catch_up` that carries a timestamp is a
/// request.
pub fn classify_client_message(kind: Option<&str>, since: Option<u64>) -> (request: ClientRequest)
    ensures
        request == match (kind, since) {
            (Some(k), Some(t)) => if k@ == CATCH_UP@ {
                ClientRequest::CatchUp { since: t }
            } else {
                ClientRequest::Ignored
            },
            _ => ClientRequest::Ignored,
        },
{
    match (kind, since) {
        (Some(k), Some(t)) => {
            if String::from_str(k) == String::from_str(CATCH_UP) {
                ClientRequest::CatchUp { since: t }
            } else {
                ClientRequest::Ignored
            }
        },
        _ => ClientRequest::Ignored,
    }
}

} // verus!
