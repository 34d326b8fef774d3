use log_ingest::coordinator::{respond, start, status_of, step, Action, Event, RequestState, WriteError};
use log_ingest::pool::{Acquire, LeasePool};
use log_ingest::record::{Field, LogRecord};
use log_ingest::translate::{translate_batch, RowKeyPolicy, TranslateConfig};

fn lease_id(a: Acquire) -> u64 {
    match a {
        Acquire::Reuse(id) | Acquire::Establish(id) => id,
        Acquire::Wait => panic!("no connection"),
    }
}

#[test]
fn single_record_is_written_and_created() {
    let fields = vec![
        Field { name: b"msg".to_vec(), value: b"\"hello\"".to_vec() },
        Field { name: b"level".to_vec(), value: b"\"info\"".to_vec() },
    ];
    let batch = vec![LogRecord::from_fields(&fields)];
    let cfg = TranslateConfig { column_family: b"data".to_vec(), policy: RowKeyPolicy::StoreAssigned, write_to_wal: true };
    let rows = translate_batch(&cfg, &batch);
    assert_eq!(rows.len(), 1);
    let ms = rows[0].mutations.as_ref().unwrap();
    assert_eq!(ms.len(), 2);
    assert!(ms.iter().any(|m| m.column == Some(b"data:msg".to_vec()) && m.value == Some(b"\"hello\"".to_vec())));
    assert!(ms.iter().any(|m| m.column == Some(b"data:level".to_vec()) && m.value == Some(b"\"info\"".to_vec())));

    let mut pool = LeasePool::new(2);
    let (s, a) = start(rows.len());
    assert_eq!(a, Action::Acquire);
    let conn = lease_id(pool.acquire());
    let (s, a) = step(s, Event::Leased { conn });
    assert_eq!(a, Action::Write { conn });
    let (s, a) = step(s, Event::WriteFinished { ok: true });
    assert_eq!(a, Action::Release { conn, healthy: true });
    assert!(pool.release(conn, true));
    assert_eq!(s, RequestState::Succeeded);
    assert_eq!(respond(s), Action::Respond { status: 201 });
}

#[test]
fn empty_batch_is_created_without_backend_call() {
    let (s, a) = start(0);
    assert_eq!(s, RequestState::Succeeded);
    assert_eq!(a, Action::Respond { status: 201 });
}

#[test]
fn backend_fault_fails_and_drops_connection() {
    let mut pool = LeasePool::new(1);
    let (s, _) = start(1);
    let conn = lease_id(pool.acquire());
    let (s, _) = step(s, Event::Leased { conn });
    let (s, a) = step(s, Event::WriteFinished { ok: false });
    assert_eq!(a, Action::Release { conn, healthy: false });
    assert!(pool.release(conn, false));
    assert_eq!(s, RequestState::Failed(WriteError::Backend));
    assert_eq!(respond(s), Action::Respond { status: 500 });
    match pool.acquire() {
        Acquire::Establish(next) => assert_ne!(next, conn),
        _ => panic!("the broken connection must not come back"),
    }
}

#[test]
fn single_connection_serializes_writes() {
    let mut pool = LeasePool::new(1);
    let (first, _) = start(1);
    let (second, _) = start(1);
    let c1 = lease_id(pool.acquire());
    let (first, a) = step(first, Event::Leased { conn: c1 });
    assert_eq!(a, Action::Write { conn: c1 });
    assert!(matches!(pool.acquire(), Acquire::Wait));
    let (first, a) = step(first, Event::WriteFinished { ok: true });
    assert_eq!(a, Action::Release { conn: c1, healthy: true });
    assert_eq!(first, RequestState::Succeeded);
    assert!(pool.release(c1, true));
    let c2 = lease_id(pool.acquire());
    assert_eq!(c2, c1);
    let (_, a) = step(second, Event::Leased { conn: c2 });
    assert_eq!(a, Action::Write { conn: c2 });
}

#[test]
fn wait_that_times_out_reports_exhaustion() {
    let mut pool = LeasePool::new(1);
    let _held = lease_id(pool.acquire());
    let (s, _) = start(3);
    assert!(matches!(pool.acquire(), Acquire::Wait));
    let (s, a) = step(s, Event::AcquireTimedOut);
    assert_eq!(s, RequestState::Failed(WriteError::PoolExhausted));
    assert_eq!(a, Action::Respond { status: 503 });
}

#[test]
fn events_out_of_turn_are_ignored() {
    let (s, a) = step(RequestState::AwaitingConnection, Event::WriteFinished { ok: true });
    assert_eq!(s, RequestState::AwaitingConnection);
    assert_eq!(a, Action::Ignore);
    let (s, a) = step(RequestState::Writing { conn: 4 }, Event::AcquireTimedOut);
    assert_eq!(s, RequestState::Writing { conn: 4 });
    assert_eq!(a, Action::Ignore);
    let (s, a) = step(RequestState::Succeeded, Event::Leased { conn: 1 });
    assert_eq!(s, RequestState::Succeeded);
    assert_eq!(a, Action::Ignore);
    assert_eq!(respond(RequestState::AwaitingConnection), Action::Ignore);
}

#[test]
fn statuses_of_outcomes() {
    assert_eq!(status_of(Ok(())), 201);
    assert_eq!(status_of(Err(WriteError::Decode)), 400);
    assert_eq!(status_of(Err(WriteError::PoolExhausted)), 503);
    assert_eq!(status_of(Err(WriteError::Backend)), 500);
}
