//! The decisions of one ingestion request, from the decoded batch to the
//! HTTP status.
//!
//! A request moves through `AwaitingConnection`, `Writing`, and ends
//! `Succeeded` or `Failed`. The caller performs each [`Action`] and reports
//! what happened as an [`Event`]: a lease, the end of the wait for one, or the
//! result of the single backend call that carries the whole batch. There is no
//! retry; a lease is always given back before the response.

use vstd::prelude::*;

verus! {

pub const STATUS_CREATED: u16 = 201;
pub const STATUS_BAD_REQUEST: u16 = 400;
pub const STATUS_INTERNAL_ERROR: u16 = 500;
pub const STATUS_UNAVAILABLE: u16 = 503;

/// Why a request failed.
#[derive(PartialEq, Eq, Structural, Clone, Copy, Debug)]
pub enum WriteError {
    /// The body was not a JSON array of objects.
    Decode,
    /// No connection became free before the wait ended.
    PoolExhausted,
    /// The backend call failed.
    Backend,
}

/// The HTTP status that reports `e`.
pub open spec fn status_spec(e: WriteError) -> u16 {
    match e {
        WriteError::Decode => STATUS_BAD_REQUEST,
        WriteError::PoolExhausted => STATUS_UNAVAILABLE,
        WriteError::Backend => STATUS_INTERNAL_ERROR,
    }
}

/// The HTTP status of a finished request.
pub fn status_of(outcome: Result<(), WriteError>) -> (r: u16)
    ensures
        r == match outcome {
            Ok(()) => STATUS_CREATED,
            Err(e) => status_spec(e),
        },
{
    match outcome {
        Ok(()) => STATUS_CREATED,
        Err(WriteError::Decode) => STATUS_BAD_REQUEST,
        Err(WriteError::PoolExhausted) => STATUS_UNAVAILABLE,
        Err(WriteError::Backend) => STATUS_INTERNAL_ERROR,
    }
}

#[derive(PartialEq, Eq, Structural, Clone, Copy, Debug)]
pub enum RequestState {
    AwaitingConnection,
    Writing { conn: u64 },
    Succeeded,
    Failed(WriteError),
}

#[derive(PartialEq, Eq, Structural, Clone, Copy, Debug)]
pub enum Event {
    /// Connection `conn` was leased to this request.
    Leased { conn: u64 },
    /// The wait for a connection ended without one.
    AcquireTimedOut,
    /// The backend call finished; `ok` tells whether it succeeded.
    WriteFinished { ok: bool },
}

#[derive(PartialEq, Eq, Structural, Clone, Copy, Debug)]
pub enum Action {
    /// Wait for a connection from the pool.
    Acquire,
    /// Send the whole batch over connection `conn`.
    Write { conn: u64 },
    /// Give connection `conn` back, as healthy or not.
    Release { conn: u64, healthy: bool },
    /// Answer the client with this status.
    Respond { status: u16 },
    /// The event does not apply to this state; nothing to do.
    Ignore,
}

impl RequestState {
    pub open spec fn is_final(self) -> bool {
        self is Succeeded || self is Failed
    }
}

/// The first step of a request carrying `rows` records: an empty batch is
/// accepted at once, with no backend call; any other waits for a connection.
pub fn start(rows: usize) -> (r: (RequestState, Action))
    ensures
        r == start_spec(rows),
{
    if rows == 0 {
        (RequestState::Succeeded, Action::Respond { status: STATUS_CREATED })
    } else {
        (RequestState::AwaitingConnection, Action::Acquire)
    }
}

pub open spec fn start_spec(rows: usize) -> (RequestState, Action) {
    if rows == 0 {
        (RequestState::Succeeded, Action::Respond { status: STATUS_CREATED })
    } else {
        (RequestState::AwaitingConnection, Action::Acquire)
    }
}

/// The next state and action after `e` in state `s`.
pub open spec fn step_spec(s: RequestState, e: Event) -> (RequestState, Action) {
    match (s, e) {
        (RequestState::AwaitingConnection, Event::Leased { conn }) =>
            (RequestState::Writing { conn }, Action::Write { conn }),
        (RequestState::AwaitingConnection, Event::AcquireTimedOut) =>
            (RequestState::Failed(WriteError::PoolExhausted), Action::Respond { status: STATUS_UNAVAILABLE }),
        (RequestState::Writing { conn }, Event::WriteFinished { ok }) =>
            if ok {
                (RequestState::Succeeded, Action::Release { conn, healthy: true })
            } else {
                (RequestState::Failed(WriteError::Backend), Action::Release { conn, healthy: false })
            },
        _ => (s, Action::Ignore),
    }
}

/// Advances a request by one event.
pub fn step(s: RequestState, e: Event) -> (r: (RequestState, Action))
    ensures
        r == step_spec(s, e),
{
    match (s, e) {
        (RequestState::AwaitingConnection, Event::Leased { conn }) =>
            (RequestState::Writing { conn }, Action::Write { conn }),
        (RequestState::AwaitingConnection, Event::AcquireTimedOut) =>
            (RequestState::Failed(WriteError::PoolExhausted), Action::Respond { status: STATUS_UNAVAILABLE }),
        (RequestState::Writing { conn }, Event::WriteFinished { ok }) =>
            if ok {
                (RequestState::Succeeded, Action::Release { conn, healthy: true })
            } else {
                (RequestState::Failed(WriteError::Backend), Action::Release { conn, healthy: false })
            },
        _ => (s, Action::Ignore),
    }
}

/// The response that ends a request once its lease, if any, is given back.
pub fn respond(s: RequestState) -> (r: Action)
    ensures
        r == match s {
            RequestState::Succeeded => Action::Respond { status: STATUS_CREATED },
            RequestState::Failed(e) => Action::Respond { status: status_spec(e) },
            _ => Action::Ignore,
        },
{
    match s {
        RequestState::Succeeded => Action::Respond { status: STATUS_CREATED },
        RequestState::Failed(e) => Action::Respond { status: status_of(Err(e)) },
        _ => Action::Ignore,
    }
}

} // verus!
