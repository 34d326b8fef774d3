use log_ingest::pool::{Acquire, LeasePool};

#[test]
fn connections_are_established_up_to_the_size() {
    let mut p = LeasePool::new(2);
    assert_eq!(p.size(), 2);
    assert!(matches!(p.acquire(), Acquire::Establish(0)));
    assert!(matches!(p.acquire(), Acquire::Establish(1)));
    assert!(matches!(p.acquire(), Acquire::Wait));
    assert_eq!(p.leased_count(), 2);
}

#[test]
fn acquire_beyond_size_waits_until_release() {
    let mut p = LeasePool::new(2);
    let a = p.acquire();
    let _b = p.acquire();
    for _ in 0..3 {
        assert!(matches!(p.acquire(), Acquire::Wait));
    }
    let id = match a {
        Acquire::Establish(id) => id,
        _ => panic!("expected a new connection"),
    };
    assert!(p.release(id, true));
    assert!(matches!(p.acquire(), Acquire::Reuse(x) if x == id));
}

#[test]
fn healthy_connection_is_reused() {
    let mut p = LeasePool::new(3);
    assert!(matches!(p.acquire(), Acquire::Establish(0)));
    assert!(p.release(0, true));
    assert_eq!(p.leased_count(), 0);
    assert!(matches!(p.acquire(), Acquire::Reuse(0)));
}

#[test]
fn broken_connection_is_replaced_by_a_new_one() {
    let mut p = LeasePool::new(1);
    assert!(matches!(p.acquire(), Acquire::Establish(0)));
    assert!(p.release(0, false));
    assert!(matches!(p.acquire(), Acquire::Establish(1)));
}

#[test]
fn releasing_what_is_not_leased_changes_nothing() {
    let mut p = LeasePool::new(1);
    assert!(!p.release(5, true));
    assert!(matches!(p.acquire(), Acquire::Establish(0)));
    assert!(!p.release(1, false));
    assert_eq!(p.leased_count(), 1);
    assert!(p.release(0, true));
    assert!(!p.release(0, true));
}

#[test]
fn empty_pool_always_waits() {
    let mut p = LeasePool::new(0);
    assert!(matches!(p.acquire(), Acquire::Wait));
}

#[test]
fn two_leases_never_share_a_connection() {
    let mut p = LeasePool::new(4);
    let mut held = Vec::new();
    for round in 0..20u64 {
        match p.acquire() {
            Acquire::Reuse(id) | Acquire::Establish(id) => {
                assert!(!held.contains(&id));
                held.push(id);
            }
            Acquire::Wait => {
                assert_eq!(held.len(), 4);
                let id = held.remove(0);
                assert!(p.release(id, round % 3 != 0));
            }
        }
    }
}
