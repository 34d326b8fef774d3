//! Bookkeeping of a bounded set of backend connections, each handed out to at
//! most one write at a time.
//!
//! The pool knows connections by number. A number is given once, when a
//! connection is established, and never again: a connection that failed is
//! dropped, and the one that takes its place gets a new number. Connections
//! are established lazily, when no idle one is left and the pool is below its
//! size.

use vstd::prelude::*;
use crate::coordinator::{step_spec, Action, Event, RequestState, WriteError, STATUS_UNAVAILABLE};

verus! {

/// What `acquire` tells the caller to do.
pub enum Acquire {
    /// Use the idle connection with this number.
    Reuse(u64),
    /// Establish a new connection, which gets this number.
    Establish(u64),
    /// Every connection is leased: wait for a release.
    Wait,
}

impl Acquire {
    pub open spec fn lease(self) -> Option<u64> {
        match self {
            Acquire::Reuse(id) => Some(id),
            Acquire::Establish(id) => Some(id),
            Acquire::Wait => None,
        }
    }
}

/// The state of a pool: its size, the idle and the leased connections, and
/// the number the next connection will get.
pub struct PoolView {
    pub size: nat,
    pub idle: Seq<u64>,
    pub leased: Seq<u64>,
    pub next_id: nat,
}

impl PoolView {
    pub open spec fn live(self) -> nat {
        self.idle.len() + self.leased.len()
    }

    /// Each live connection is idle or leased, never both, and counted once;
    /// there are no more of them than the size; all numbers were given out.
    pub open spec fn wf(self) -> bool {
        &&& self.idle.no_duplicates()
        &&& self.leased.no_duplicates()
        &&& forall|i: int, j: int| 0 <= i < self.idle.len() && 0 <= j < self.leased.len() ==> #[trigger] self.idle[i] != #[trigger] self.leased[j]
        &&& forall|i: int| 0 <= i < self.idle.len() ==> #[trigger] self.idle[i] < self.next_id
        &&& forall|i: int| 0 <= i < self.leased.len() ==> #[trigger] self.leased[i] < self.next_id
        &&& self.live() <= self.size
        &&& self.next_id <= u64::MAX
    }

    /// The outcome of `acquire` from state `self`, and the state after it.
    pub open spec fn acquired(self, out: Acquire, post: PoolView) -> bool {
        if self.idle.len() > 0 {
            let id = self.idle.last();
            &&& out == Acquire::Reuse(id)
            &&& post == PoolView { idle: self.idle.drop_last(), leased: self.leased.push(id), ..self }
        } else if self.live() < self.size && self.next_id < u64::MAX {
            let id = self.next_id as u64;
            &&& out == Acquire::Establish(id)
            &&& post == PoolView { leased: self.leased.push(id), next_id: self.next_id + 1, ..self }
        } else {
            &&& out == Acquire::Wait
            &&& post == self
        }
    }

    /// The state after connection `id` was given back; a healthy one becomes
    /// idle, any other is dropped. Giving back what is not leased changes
    /// nothing.
    pub open spec fn released(self, id: u64, healthy: bool, post: PoolView) -> bool {
        if self.leased.contains(id) {
            let rest = self.leased.remove(self.leased.index_of(id));
            if healthy {
                post == PoolView { idle: self.idle.push(id), leased: rest, ..self }
            } else {
                post == PoolView { leased: rest, ..self }
            }
        } else {
            post == self
        }
    }
}

/// A pool of at most `size` live connections.
pub struct LeasePool {
    size: u64,
    idle: Vec<u64>,
    leased: Vec<u64>,
    next_id: u64,
}

impl View for LeasePool {
    type V = PoolView;

    closed spec fn view(&self) -> PoolView {
        PoolView { size: self.size as nat, idle: self.idle@, leased: self.leased@, next_id: self.next_id as nat }
    }
}

impl LeasePool {
    /// An empty pool of the given size.
    pub fn new(size: u64) -> (r: LeasePool)
        ensures
            r@.wf(),
            r@ == (PoolView { size: size as nat, idle: Seq::empty(), leased: Seq::empty(), next_id: 0 }),
    {
        let r = LeasePool { size, idle: Vec::new(), leased: Vec::new(), next_id: 0 };
        assert(r@.idle =~= Seq::<u64>::empty());
        assert(r@.leased =~= Seq::<u64>::empty());
        r
    }

    pub fn size(&self) -> (r: u64)
        ensures
            r as nat == self@.size,
    {
        self.size
    }

    /// Number of connections that are leased now.
    pub fn leased_count(&self) -> (r: usize)
        ensures
            r == self@.leased.len(),
    {
        self.leased.len()
    }

    /// Leases a connection: the most recently released idle one, else a new
    /// one while the pool is below its size; otherwise the caller must wait.
    pub fn acquire(&mut self) -> (r: Acquire)
        requires
            old(self)@.wf(),
        ensures
            final(self)@.wf(),
            old(self)@.acquired(r, final(self)@),
    {
        if let Some(id) = self.idle.pop() {
            self.leased.push(id);
            proof {
                let p = old(self)@;
                assert(self@.idle =~= p.idle.drop_last());
                assert(self@ == PoolView { idle: p.idle.drop_last(), leased: p.leased.push(id), ..p });
                assert forall|i: int| 0 <= i < self@.leased.len() - 1 implies self@.leased[i] != id by {
                    assert(p.idle[p.idle.len() - 1] == id);
                }
                assert forall|i: int, j: int| 0 <= i < self@.idle.len() && 0 <= j < self@.leased.len() implies #[trigger] self@.idle[i] != #[trigger] self@.leased[j] by {
                    assert(self@.idle[i] == p.idle[i]);
                    if j < p.leased.len() {
                        assert(self@.leased[j] == p.leased[j]);
                    }
                }
            }
            Acquire::Reuse(id)
        } else if (self.leased.len() as u64) < self.size && self.next_id < u64::MAX {
            let id = self.next_id;
            self.leased.push(id);
            self.next_id = self.next_id + 1;
            proof {
                let p = old(self)@;
                assert forall|i: int| 0 <= i < p.leased.len() implies self@.leased[i] != id by {
                    assert(p.leased[i] < p.next_id);
                }
            }
            Acquire::Establish(id)
        } else {
            Acquire::Wait
        }
    }

    /// Gives connection `id` back: kept idle if `healthy`, dropped otherwise.
    /// Returns whether `id` was leased.
    pub fn release(&mut self, id: u64, healthy: bool) -> (r: bool)
        requires
            old(self)@.wf(),
        ensures
            final(self)@.wf(),
            r == old(self)@.leased.contains(id),
            old(self)@.released(id, healthy, final(self)@),
    {
        let mut i: usize = 0;
        while i < self.leased.len()
            invariant
                i <= self.leased.len(),
                forall|j: int| 0 <= j < i ==> self.leased@[j] != id,
            ensures
                i <= self.leased.len(),
                forall|j: int| 0 <= j < i ==> self.leased@[j] != id,
                i < self.leased.len() ==> self.leased@[i as int] == id,
            decreases self.leased.len() - i,
        {
            if self.leased[i] == id {
                break;
            }
            i = i + 1;
        }
        if i == self.leased.len() {
            return false;
        }
        proof {
            let p = old(self)@;
            assert(p.leased[i as int] == id);
            assert(p.leased.contains(id));
            let k = p.leased.index_of(id);
            assert(p.leased[k] == id);
        }
        self.leased.remove(i);
        if healthy {
            self.idle.push(id);
        }
        true
    }
}

/// Connection `id` was dropped: it is neither idle nor leased, and its number
/// is behind the next one to be given.
pub open spec fn retired(p: PoolView, id: u64) -> bool {
    &&& !p.idle.contains(id)
    &&& !p.leased.contains(id)
    &&& id < p.next_id
}

/// Every step keeps the pool well formed, so no two leases ever name the same
/// connection, and a lease handed out was not held by anyone.
pub proof fn lemma_leases_exclusive(p: PoolView, out: Acquire, post: PoolView)
    requires
        p.wf(),
        p.acquired(out, post),
    ensures
        post.wf(),
        post.leased.no_duplicates(),
        out.lease() is Some ==> !p.leased.contains(out.lease()->0) && post.leased == p.leased.push(out.lease()->0),
{
    if p.idle.len() > 0 {
        let id = p.idle.last();
        assert(p.idle[p.idle.len() - 1] == id);
        assert forall|i: int| 0 <= i < p.leased.len() implies p.leased[i] != id by {
            assert(p.idle[p.idle.len() - 1] != p.leased[i]);
        }
        assert forall|i: int, j: int| 0 <= i < post.idle.len() && 0 <= j < post.leased.len() implies #[trigger] post.idle[i] != #[trigger] post.leased[j] by {
            assert(post.idle[i] == p.idle[i]);
            if j < p.leased.len() {
                assert(post.leased[j] == p.leased[j]);
            }
        }
        assert forall|i: int| 0 <= i < post.leased.len() implies #[trigger] post.leased[i] < post.next_id by {
            if i < p.leased.len() {
                assert(post.leased[i] == p.leased[i]);
            }
        }
    } else if p.live() < p.size && p.next_id < u64::MAX {
        let id = p.next_id as u64;
        assert forall|i: int| 0 <= i < p.leased.len() implies p.leased[i] != id by {
            assert(p.leased[i] < p.next_id);
        }
        assert forall|i: int| 0 <= i < post.leased.len() implies #[trigger] post.leased[i] < post.next_id by {
            if i < p.leased.len() {
                assert(post.leased[i] == p.leased[i]);
            }
        }
    }
}

/// Giving a connection back keeps the pool well formed.
pub proof fn lemma_release_keeps_pool(p: PoolView, id: u64, healthy: bool, post: PoolView)
    requires
        p.wf(),
        p.released(id, healthy, post),
    ensures
        post.wf(),
{
    if p.leased.contains(id) {
        let k = p.leased.index_of(id);
        assert(p.leased[k] == id);
        let rest = p.leased.remove(k);
        assert forall|i: int| 0 <= i < rest.len() implies #[trigger] rest[i] != id && p.leased.contains(rest[i]) by {
            if i < k {
                assert(rest[i] == p.leased[i]);
            } else {
                assert(rest[i] == p.leased[i + 1]);
            }
        }
        assert(rest.no_duplicates()) by {
            assert forall|i: int, j: int| 0 <= i < rest.len() && 0 <= j < rest.len() && i != j implies rest[i] != rest[j] by {
                let a = if i < k { i } else { i + 1 };
                let b = if j < k { j } else { j + 1 };
                assert(rest[i] == p.leased[a]);
                assert(rest[j] == p.leased[b]);
            }
        }
        assert forall|i: int, j: int| 0 <= i < post.idle.len() && 0 <= j < post.leased.len() implies #[trigger] post.idle[i] != #[trigger] post.leased[j] by {
            let b = if j < k { j } else { j + 1 };
            assert(post.leased[j] == p.leased[b]);
            if i < p.idle.len() {
                assert(post.idle[i] == p.idle[i]);
            }
        }
        assert forall|j: int| 0 <= j < post.leased.len() implies #[trigger] post.leased[j] < post.next_id by {
            let b = if j < k { j } else { j + 1 };
            assert(post.leased[j] == p.leased[b]);
        }
        if healthy {
            assert forall|i: int| 0 <= i < p.idle.len() implies p.idle[i] != id by {
                assert(p.idle[i] != p.leased[k]);
            }
            assert forall|i: int| 0 <= i < post.idle.len() implies #[trigger] post.idle[i] < post.next_id by {
                if i < p.idle.len() {
                    assert(post.idle[i] == p.idle[i]);
                }
            }
        }
    }
}

/// When every connection is leased, `acquire` changes nothing and tells the
/// caller to wait; a request whose wait then ends fails as `PoolExhausted`
/// with status 503, instead of waiting on.
pub proof fn lemma_full_pool_waits_then_exhausts(p: PoolView, out: Acquire, post: PoolView)
    requires
        p.wf(),
        p.leased.len() >= p.size,
        p.acquired(out, post),
    ensures
        out == Acquire::Wait,
        post == p,
        step_spec(RequestState::AwaitingConnection, Event::AcquireTimedOut)
            == (RequestState::Failed(WriteError::PoolExhausted), Action::Respond { status: STATUS_UNAVAILABLE }),
{
}

/// A connection given back as broken is never leased again: it stays
/// retired through every later acquire and release.
pub proof fn lemma_broken_connection_retired(p: PoolView, id: u64, post: PoolView)
    requires
        p.wf(),
        p.leased.contains(id),
        p.released(id, false, post),
    ensures
        retired(post, id),
{
    let k = p.leased.index_of(id);
    assert(p.leased[k] == id);
    let rest = p.leased.remove(k);
    assert forall|i: int| 0 <= i < p.idle.len() implies p.idle[i] != id by {
        assert(p.idle[i] != p.leased[k]);
    }
    assert forall|i: int| 0 <= i < rest.len() implies rest[i] != id by {
        if i < k {
            assert(rest[i] == p.leased[i]);
        } else {
            assert(rest[i] == p.leased[i + 1]);
        }
    }
    assert(p.leased[k] < p.next_id);
}

/// A retired connection is not handed out by `acquire`, and stays retired.
pub proof fn lemma_retired_not_acquired(p: PoolView, id: u64, out: Acquire, post: PoolView)
    requires
        p.wf(),
        retired(p, id),
        p.acquired(out, post),
    ensures
        out.lease() != Some(id),
        retired(post, id),
{
    if p.idle.len() > 0 {
        assert(p.idle[p.idle.len() - 1] != id);
        assert forall|i: int| 0 <= i < post.idle.len() implies post.idle[i] != id by {
            assert(post.idle[i] == p.idle[i]);
        }
        assert forall|i: int| 0 <= i < post.leased.len() implies post.leased[i] != id by {
            if i < p.leased.len() {
                assert(post.leased[i] == p.leased[i]);
            }
        }
    } else if p.live() < p.size && p.next_id < u64::MAX {
        assert forall|i: int| 0 <= i < post.leased.len() implies post.leased[i] != id by {
            if i < p.leased.len() {
                assert(post.leased[i] == p.leased[i]);
            }
        }
    }
}

/// Giving back any connection keeps a retired one retired.
pub proof fn lemma_retired_stays_retired(p: PoolView, id: u64, other: u64, healthy: bool, post: PoolView)
    requires
        p.wf(),
        retired(p, id),
        p.released(other, healthy, post),
    ensures
        retired(post, id),
{
    if p.leased.contains(other) {
        let k = p.leased.index_of(other);
        assert(p.leased[k] == other);
        let rest = p.leased.remove(k);
        assert forall|i: int| 0 <= i < rest.len() implies rest[i] != id by {
            if i < k {
                assert(rest[i] == p.leased[i]);
            } else {
                assert(rest[i] == p.leased[i + 1]);
            }
        }
        assert forall|i: int| 0 <= i < post.idle.len() implies post.idle[i] != id by {
            if i < p.idle.len() {
                assert(post.idle[i] == p.idle[i]);
            }
        }
    }
}

/// With a pool of one connection, a second acquire waits while the first
/// lease is held, and succeeds with the same connection once it is given back
/// healthy: writes through the pool follow one another.
pub proof fn lemma_single_connection_serializes(
    fresh: PoolView,
    out1: Acquire,
    held: PoolView,
    out2: Acquire,
    second: PoolView,
    given_back: PoolView,
    out3: Acquire,
    third: PoolView,
)
    requires
        fresh.wf(),
        fresh.size == 1,
        fresh.leased.len() == 0,
        fresh.next_id < u64::MAX,
        fresh.acquired(out1, held),
        held.acquired(out2, second),
        held.released(out1.lease()->0, true, given_back),
        given_back.acquired(out3, third),
    ensures
        out1.lease() is Some,
        out2 == Acquire::Wait,
        out3 == Acquire::Reuse(out1.lease()->0),
{
    lemma_leases_exclusive(fresh, out1, held);
    let id = out1.lease()->0;
    assert(held.leased[held.leased.len() - 1] == id);
    assert(held.leased.contains(id));
    let k = held.leased.index_of(id);
    assert(held.leased[k] == id);
    assert(held.leased.len() == 1);
    assert(given_back.idle == held.idle.push(id));
    assert(held.idle.len() == 0);
    assert(given_back.idle.last() == id);
}

} // verus!
