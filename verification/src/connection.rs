//! Requests on a connection, and what to do next on it.
//!
//! Every transport hands over a request as one buffer: a 4-byte
//! little-endian length followed by the command of that many bytes. The
//! transport does the waiting; this module decides, from what happened
//! last on a connection, what the transport does next.

use vstd::prelude::*;
use vstd::slice::{slice_subrange, slice_to_vec};
use crate::error::LogError;
use crate::wire::{read_u32, u32_at};

verus! {

/// Bytes of the length that every request starts with.
pub const INITIAL_BYTES_LENGTH: usize = 4;

/// The most bytes that are read of one request.
pub const MAX_REQUEST_BYTES: usize = 10 * 1024 * 1024;

/// Whether `request` is a whole frame: a length and as many bytes behind
/// it as the length says.
pub open spec fn framed(request: Seq<u8>) -> bool {
    request.len() >= 4 && u32_at(request, 0) == request.len() - 4
}

/// Takes the command's bytes out of `request`. A request that is shorter
/// than its length prefix, or whose prefix is not the number of bytes that
/// follow it, is refused.
pub fn read_frame(request: &[u8]) -> (result: Result<Vec<u8>, LogError>)
    ensures
        result is Ok <==> framed(request@),
        result matches Ok(body) ==> body@ == request@.skip(4),
        result matches Err(error) ==> error == LogError::InvalidRequest,
{
    let len = request.len();
    if len < INITIAL_BYTES_LENGTH {
        return Err(LogError::InvalidRequest);
    }
    let length = read_u32(request, 0);
    if length as usize != len - INITIAL_BYTES_LENGTH {
        return Err(LogError::InvalidRequest);
    }
    let body = slice_to_vec(slice_subrange(request, INITIAL_BYTES_LENGTH, len));
    assert(body@ =~= request@.skip(4));
    Ok(body)
}

/// What happened last on a connection.
#[derive(Debug)]
pub enum ConnectionEvent {
    /// The client has connected.
    Connected,
    /// The client has opened a stream for a request.
    StreamAccepted,
    /// The client has closed the connection.
    ClosedByClient,
    /// The connection broke.
    ConnectionLost,
    /// A request was read from the stream.
    RequestRead(Vec<u8>),
    /// Reading the request failed.
    RequestFailed,
    /// The command was decoded.
    CommandDecoded,
    /// The bytes of the request are no command.
    CommandRejected,
    /// The command was handled and answered.
    CommandHandled,
    /// Handling the command failed.
    HandlerFailed,
}

/// What the transport does next on a connection.
#[derive(Debug)]
pub enum ConnectionAction {
    /// Register the client, then wait for a stream.
    Register,
    /// Wait for the client to open a stream.
    Accept,
    /// Read the request from the stream, up to `MAX_REQUEST_BYTES`.
    Read,
    /// Decode the command from these bytes.
    Decode(Vec<u8>),
    /// Handle the decoded command and answer on the stream.
    Handle,
    /// Remove the client and end the connection without an error.
    Finish,
    /// Remove the client and end the connection with its error.
    Fail,
}

/// An event as a mathematical value.
pub enum EventView {
    Connected,
    StreamAccepted,
    ClosedByClient,
    ConnectionLost,
    RequestRead(Seq<u8>),
    RequestFailed,
    CommandDecoded,
    CommandRejected,
    CommandHandled,
    HandlerFailed,
}

/// An action as a mathematical value.
pub enum ActionView {
    Register,
    Accept,
    Read,
    Decode(Seq<u8>),
    Handle,
    Finish,
    Fail,
}

impl View for ConnectionEvent {
    type V = EventView;

    open spec fn view(&self) -> EventView {
        match self {
            ConnectionEvent::Connected => EventView::Connected,
            ConnectionEvent::StreamAccepted => EventView::StreamAccepted,
            ConnectionEvent::ClosedByClient => EventView::ClosedByClient,
            ConnectionEvent::ConnectionLost => EventView::ConnectionLost,
            ConnectionEvent::RequestRead(bytes) => EventView::RequestRead(bytes@),
            ConnectionEvent::RequestFailed => EventView::RequestFailed,
            ConnectionEvent::CommandDecoded => EventView::CommandDecoded,
            ConnectionEvent::CommandRejected => EventView::CommandRejected,
            ConnectionEvent::CommandHandled => EventView::CommandHandled,
            ConnectionEvent::HandlerFailed => EventView::HandlerFailed,
        }
    }
}

impl View for ConnectionAction {
    type V = ActionView;

    open spec fn view(&self) -> ActionView {
        match self {
            ConnectionAction::Register => ActionView::Register,
            ConnectionAction::Accept => ActionView::Accept,
            ConnectionAction::Read => ActionView::Read,
            ConnectionAction::Decode(bytes) => ActionView::Decode(bytes@),
            ConnectionAction::Handle => ActionView::Handle,
            ConnectionAction::Finish => ActionView::Finish,
            ConnectionAction::Fail => ActionView::Fail,
        }
    }
}

/// The action that follows `event`. A connection ends when the client
/// closes it or when it breaks; whatever goes wrong with one request, the
/// connection goes on with the next.
pub open spec fn action_after(event: EventView) -> ActionView {
    match event {
        EventView::Connected => ActionView::Register,
        EventView::StreamAccepted => ActionView::Read,
        EventView::ClosedByClient => ActionView::Finish,
        EventView::ConnectionLost => ActionView::Fail,
        EventView::RequestRead(bytes) => if framed(bytes) {
            ActionView::Decode(bytes.skip(4))
        } else {
            ActionView::Accept
        },
        EventView::RequestFailed => ActionView::Accept,
        EventView::CommandDecoded => ActionView::Handle,
        EventView::CommandRejected => ActionView::Accept,
        EventView::CommandHandled => ActionView::Accept,
        EventView::HandlerFailed => ActionView::Accept,
    }
}

/// Decides what the transport does next on a connection.
pub fn next_action(event: ConnectionEvent) -> (action: ConnectionAction)
    ensures
        action@ == action_after(event@),
{
    match event {
        ConnectionEvent::Connected => ConnectionAction::Register,
        ConnectionEvent::StreamAccepted => ConnectionAction::Read,
        ConnectionEvent::ClosedByClient => ConnectionAction::Finish,
        ConnectionEvent::ConnectionLost => ConnectionAction::Fail,
        ConnectionEvent::RequestRead(bytes) => match read_frame(bytes.as_slice()) {
            Ok(body) => ConnectionAction::Decode(body),
            Err(_) => ConnectionAction::Accept,
        },
        ConnectionEvent::RequestFailed => ConnectionAction::Accept,
        ConnectionEvent::CommandDecoded => ConnectionAction::Handle,
        ConnectionEvent::CommandRejected => ConnectionAction::Accept,
        ConnectionEvent::CommandHandled => ConnectionAction::Accept,
        ConnectionEvent::HandlerFailed => ConnectionAction::Accept,
    }
}

} // verus!
