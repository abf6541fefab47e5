//! The decisions of the dispatch pipeline: which handler a request goes to,
//! what is answered when handling fails, and how a connection moves from
//! handshake to serving streams.
use vstd::prelude::*;
use vstd::utf8::encode_utf8;

use crate::error::{error_text, ServerError};
use crate::request::RequestParts;
use crate::response::{
    content_type_name, error_response, json_media_type, json_object_text, not_found,
    plain_json_field, Response, STATUS_INTERNAL_ERROR, STATUS_NOT_FOUND,
};
use crate::routing_table::RoutingTable;

verus! {

/// The handler that a request with metadata `parts` resolves to in
/// `table`, or, where no route matches, the 404 response that answers it
/// without its body being read.
pub fn route_request<'a, H>(table: &'a RoutingTable<H>, parts: &RequestParts) -> (r: Result<
    &'a H,
    Response,
>)
    ensures
        match r {
            Ok(h) => table.resolved(parts.method, encode_utf8(parts.path@)) == Some(*h),
            Err(resp) => {
                &&& table.resolved(parts.method, encode_utf8(parts.path@)) is None
                &&& resp@.status == STATUS_NOT_FOUND
                &&& resp@.headers == seq![(content_type_name(), json_media_type())]
                &&& resp@.body == plain_json_field("error_message"@, "not found"@)
            },
        },
{
    match table.resolve(parts.method, parts.path.as_str()) {
        Some(h) => Ok(h),
        None => Err(not_found()),
    }
}

/// The response that goes out for the outcome of a handler: its own
/// response, or for an error a 500 response whose JSON payload holds the
/// error's description under `error`.
pub fn finish(result: Result<Response, ServerError>) -> (r: Response)
    ensures
        result matches Ok(resp) ==> r@ == resp@,
        result is Err ==> r@.status == STATUS_INTERNAL_ERROR && r@.headers == seq![
            (content_type_name(), json_media_type()),
        ] && exists|m: Seq<char>| r@.body == json_object_text("error"@, m),
        result matches Err(e) ==> (error_text(e) matches Some(t) ==> r@.body == json_object_text(
            "error"@,
            t,
        )),
{
    match result {
        Ok(resp) => resp,
        Err(e) => {
            let message = e.message();
            let r = error_response(message.as_str());
            assert(r@.body == json_object_text("error"@, message@));
            r
        },
    }
}

/// Where a connection stands.
#[derive(Clone, Copy, Debug, PartialEq, Eq, Structural)]
pub enum ConnectionState {
    /// A socket was accepted; the secure handshake is under way.
    Accepted,
    /// The secure handshake succeeded; the session handshake is under way.
    Secured,
    /// The session is up; its streams are being accepted.
    Serving,
    /// The connection is over.
    Closed,
}

/// What happened on a connection.
#[derive(Clone, Copy, Debug, PartialEq, Eq, Structural)]
pub enum ConnectionEvent {
    /// The handshake under way succeeded.
    HandshakeDone,
    /// The handshake under way failed.
    HandshakeFailed,
    /// The session surfaced a new request stream.
    RequestArrived,
    /// The peer ended the session.
    SessionEnded,
    /// The session failed.
    SessionFailed,
}

/// What to do next on a connection.
#[derive(Clone, Copy, Debug, PartialEq, Eq, Structural)]
pub enum ConnectionAction {
    /// Run the session handshake over the secured transport.
    StartSession,
    /// Begin accepting the session's request streams.
    AcceptStreams,
    /// Hand the new stream to a task of its own, then accept the next.
    SpawnRequest,
    /// Log the failure and drop the connection.
    Drop,
    /// Log the end of the session and release the connection.
    Release,
    /// Nothing.
    Ignore,
}

/// The next state of a connection in `s` on event `e`, and what to do.
pub open spec fn transition(s: ConnectionState, e: ConnectionEvent) -> (ConnectionState, ConnectionAction) {
    match (s, e) {
        (ConnectionState::Accepted, ConnectionEvent::HandshakeDone) => (ConnectionState::Secured, ConnectionAction::StartSession),
        (ConnectionState::Secured, ConnectionEvent::HandshakeDone) => (ConnectionState::Serving, ConnectionAction::AcceptStreams),
        (ConnectionState::Accepted, ConnectionEvent::HandshakeFailed) => (ConnectionState::Closed, ConnectionAction::Drop),
        (ConnectionState::Secured, ConnectionEvent::HandshakeFailed) => (ConnectionState::Closed, ConnectionAction::Drop),
        (ConnectionState::Serving, ConnectionEvent::RequestArrived) => (ConnectionState::Serving, ConnectionAction::SpawnRequest),
        (ConnectionState::Serving, ConnectionEvent::SessionEnded) => (ConnectionState::Closed, ConnectionAction::Release),
        (ConnectionState::Serving, ConnectionEvent::SessionFailed) => (ConnectionState::Closed, ConnectionAction::Drop),
        _ => (s, ConnectionAction::Ignore),
    }
}

/// One step of a connection: from state `s` on event `e`.
pub fn step(s: ConnectionState, e: ConnectionEvent) -> (r: (ConnectionState, ConnectionAction))
    ensures
        r == transition(s, e),
{
    match (s, e) {
        (ConnectionState::Accepted, ConnectionEvent::HandshakeDone) => (ConnectionState::Secured, ConnectionAction::StartSession),
        (ConnectionState::Secured, ConnectionEvent::HandshakeDone) => (ConnectionState::Serving, ConnectionAction::AcceptStreams),
        (ConnectionState::Accepted, ConnectionEvent::HandshakeFailed) => (ConnectionState::Closed, ConnectionAction::Drop),
        (ConnectionState::Secured, ConnectionEvent::HandshakeFailed) => (ConnectionState::Closed, ConnectionAction::Drop),
        (ConnectionState::Serving, ConnectionEvent::RequestArrived) => (ConnectionState::Serving, ConnectionAction::SpawnRequest),
        (ConnectionState::Serving, ConnectionEvent::SessionEnded) => (ConnectionState::Closed, ConnectionAction::Release),
        (ConnectionState::Serving, ConnectionEvent::SessionFailed) => (ConnectionState::Closed, ConnectionAction::Drop),
        _ => (s, ConnectionAction::Ignore),
    }
}

/// The state after the events `es`, starting from `s`.
pub open spec fn run(s: ConnectionState, es: Seq<ConnectionEvent>) -> ConnectionState
    decreases es.len(),
{
    if es.len() == 0 {
        s
    } else {
        run(transition(s, es[0]).0, es.drop_first())
    }
}

/// A serving connection hands every arriving stream to a task of its own
/// and goes on serving: no request waits on another one's handling, and
/// only the end or failure of the session closes the connection.
pub proof fn law_streams_independent(es: Seq<ConnectionEvent>)
    requires
        forall|i: int| 0 <= i < es.len() ==> #[trigger] es[i] == ConnectionEvent::RequestArrived,
    ensures
        run(ConnectionState::Serving, es) == ConnectionState::Serving,
        forall|i: int|
            0 <= i < es.len() ==> #[trigger] transition(ConnectionState::Serving, es[i]).1
                == ConnectionAction::SpawnRequest,
    decreases es.len(),
{
    if es.len() > 0 {
        assert(es[0] == ConnectionEvent::RequestArrived);
        assert forall|i: int| 0 <= i < es.drop_first().len() implies #[trigger] es.drop_first()[i]
            == ConnectionEvent::RequestArrived by {
            assert(es.drop_first()[i] == es[i + 1]);
        }
        law_streams_independent(es.drop_first());
    }
}

/// A closed connection stays closed whatever happens next.
pub proof fn law_closed_is_final(es: Seq<ConnectionEvent>)
    ensures
        run(ConnectionState::Closed, es) == ConnectionState::Closed,
    decreases es.len(),
{
    if es.len() > 0 {
        law_closed_is_final(es.drop_first());
    }
}

} // verus!
