//! An in-process HTTP test double's core: the mock registry and
//! request-matching engine.
//!
//! A test registers expected interactions ("mocks"); the engine matches each
//! incoming request against them, replays the most recently registered
//! matching mock's canned response, and records requests that matched
//! nothing. The transport (sockets, raw HTTP framing) lives outside this
//! crate; the engine works on already-parsed requests made of plain bytes.

use vstd::prelude::*;

pub mod bytes;
pub mod json;
pub mod laws;
pub mod matcher;
pub mod mock;
pub mod request;
pub mod response;
pub mod server;

verus! {

/// Decides whether a fresh background listener must be started: starting is
/// needed exactly when no server is listening yet, so that starting twice is
/// a no-op.
pub fn try_start(already_listening: bool) -> (start_needed: bool)
    ensures
        start_needed == !already_listening,
{
    !already_listening
}

} // verus!
