//! Admission control over backend connections: a bounded pool of idle
//! connections and a count of the ones checked out.
use std::collections::VecDeque;
use vstd::prelude::*;

verus! {

/// The counts that the pool's behaviour depends on.
pub struct PoolState {
    pub idle: nat,
    pub active: nat,
}

/// What a session asks of the pool.
pub enum PoolOp {
    Checkout,
    /// A healthy connection goes back to the idle queue.
    Release,
    /// A connection whose framing is uncertain, or that failed to open, is
    /// dropped and frees its slot.
    Discard,
}

/// One operation on a pool of the given capacity. Giving back a connection
/// is only possible while one is checked out.
pub open spec fn step(capacity: nat, s: PoolState, op: PoolOp) -> PoolState {
    match op {
        PoolOp::Checkout => if s.active < capacity {
            PoolState { idle: if s.idle > 0 { (s.idle - 1) as nat } else { 0 }, active: s.active + 1 }
        } else {
            s
        },
        PoolOp::Release => PoolState { idle: s.idle + 1, active: (s.active - 1) as nat },
        PoolOp::Discard => PoolState { idle: s.idle, active: (s.active - 1) as nat },
    }
}

/// The operations of `ops` are each possible when they come: nothing is
/// given back that was not checked out.
pub open spec fn admissible(capacity: nat, ops: Seq<PoolOp>) -> bool
    decreases ops.len(),
{
    if ops.len() == 0 {
        true
    } else {
        admissible(capacity, ops.drop_last()) && (ops.last() is Checkout || after_ops(
            capacity,
            ops.drop_last(),
        ).active > 0)
    }
}

/// The state of a fresh pool after `ops`.
pub open spec fn after_ops(capacity: nat, ops: Seq<PoolOp>) -> PoolState
    decreases ops.len(),
{
    if ops.len() == 0 {
        PoolState { idle: 0, active: 0 }
    } else {
        step(capacity, after_ops(capacity, ops.drop_last()), ops.last())
    }
}

/// The checkouts of `ops` that the pool granted.
pub open spec fn granted(capacity: nat, ops: Seq<PoolOp>) -> nat
    decreases ops.len(),
{
    if ops.len() == 0 {
        0
    } else {
        granted(capacity, ops.drop_last()) + if ops.last() is Checkout && after_ops(
            capacity,
            ops.drop_last(),
        ).active < capacity {
            1nat
        } else {
            0nat
        }
    }
}

/// The connections that `ops` gave back, released or discarded.
pub open spec fn returned(ops: Seq<PoolOp>) -> nat
    decreases ops.len(),
{
    if ops.len() == 0 {
        0
    } else {
        returned(ops.drop_last()) + if ops.last() is Checkout {
            0nat
        } else {
            1nat
        }
    }
}

/// The outcome of asking for a connection.
pub enum Checkout<C> {
    /// An idle connection, taken from the front of the queue.
    Reused(C),
    /// A slot is reserved: the caller opens a new connection to the backend,
    /// and discards the slot if that fails.
    OpenNew,
    /// Every slot is taken: the caller waits for a connection to come back.
    Wait,
}

/// A bounded pool of backend connections of type `C`.
pub struct ConnectionPool<C> {
    backend_addr: String,
    capacity: usize,
    idle: VecDeque<C>,
    active: usize,
    /// Every operation performed on this pool so far, in order.
    history: Ghost<Seq<PoolOp>>,
}

impl<C> ConnectionPool<C> {
    pub closed spec fn capacity(&self) -> nat {
        self.capacity as nat
    }

    /// The idle connections, front of the queue first.
    pub closed spec fn idle(&self) -> Seq<C> {
        self.idle@
    }

    /// The number of connections checked out.
    pub closed spec fn active(&self) -> nat {
        self.active as nat
    }

    pub closed spec fn backend(&self) -> Seq<char> {
        self.backend_addr@
    }

    /// The operations performed on this pool so far.
    pub closed spec fn history(&self) -> Seq<PoolOp> {
        self.history@
    }

    pub open spec fn state(&self) -> PoolState {
        PoolState { idle: self.idle().len(), active: self.active() }
    }

    /// Every connection that exists is idle or checked out, there are never
    /// more of them than the capacity, and the counts are those of a fresh
    /// pool after the possible sequence of operations performed on it.
    pub closed spec fn wf(&self) -> bool {
        &&& self.idle@.len() + self.active <= self.capacity
        &&& admissible(self.capacity as nat, self.history@)
        &&& after_ops(self.capacity as nat, self.history@) == self.state()
    }

    pub fn new(backend_addr: String, max_connections: usize) -> (r: Self)
        ensures
            r.wf(),
            r.capacity() == max_connections,
            r.idle() == Seq::<C>::empty(),
            r.active() == 0,
            r.backend() == backend_addr@,
            r.history() == Seq::<PoolOp>::empty(),
    {
        ConnectionPool {
            backend_addr,
            capacity: max_connections,
            idle: VecDeque::new(),
            active: 0,
            history: Ghost(Seq::empty()),
        }
    }

    /// The number of connections checked out and not yet given back: the
    /// checkouts granted so far less the connections given back.
    pub fn active_connections(&self) -> (r: usize)
        requires
            self.wf(),
        ensures
            r == self.active(),
            r == granted(self.capacity(), self.history()) - returned(self.history()),
            r <= self.capacity(),
    {
        proof {
            active_count_is_outstanding(self.capacity as nat, self.history@);
        }
        self.active
    }

    pub fn capacity_limit(&self) -> (r: usize)
        ensures
            r == self.capacity(),
    {
        self.capacity
    }

    pub fn idle_connections(&self) -> (r: usize)
        ensures
            r == self.idle().len(),
    {
        self.idle.len()
    }

    /// The address new connections are opened to.
    pub fn backend_addr(&self) -> (r: &String)
        ensures
            r@ == self.backend(),
    {
        &self.backend_addr
    }

    /// Takes a slot if one is free: with the oldest idle connection when
    /// there is one, else as a reservation for a new connection.
    pub fn get_connection(&mut self) -> (r: Checkout<C>)
        requires
            old(self).wf(),
        ensures
            final(self).wf(),
            final(self).capacity() == old(self).capacity(),
            final(self).backend() == old(self).backend(),
            final(self).state() == step(old(self).capacity(), old(self).state(), PoolOp::Checkout),
            final(self).history() == old(self).history().push(PoolOp::Checkout),
            r is Wait <==> old(self).active() >= old(self).capacity(),
            r is Wait ==> final(self).idle() == old(self).idle(),
            r is OpenNew ==> old(self).idle().len() == 0 && final(self).idle() == old(self).idle(),
            r matches Checkout::Reused(c) ==> old(self).idle().len() > 0 && c == old(self).idle()[0]
                && final(self).idle() == old(self).idle().drop_first(),
    {
        self.record(PoolOp::Checkout);
        if self.active >= self.capacity {
            return Checkout::Wait;
        }
        self.active = self.active + 1;
        match self.idle.pop_front() {
            Some(c) => {
                assert(self.idle@ =~= old(self).idle@.drop_first());
                Checkout::Reused(c)
            },
            None => Checkout::OpenNew,
        }
    }

    /// Puts a healthy connection back at the end of the idle queue.
    pub fn return_connection(&mut self, connection: C)
        requires
            old(self).wf(),
            old(self).active() > 0,
        ensures
            final(self).wf(),
            final(self).capacity() == old(self).capacity(),
            final(self).backend() == old(self).backend(),
            final(self).state() == step(old(self).capacity(), old(self).state(), PoolOp::Release),
            final(self).history() == old(self).history().push(PoolOp::Release),
            final(self).idle() == old(self).idle().push(connection),
    {
        self.record(PoolOp::Release);
        self.idle.push_back(connection);
        self.active = self.active - 1;
    }

    /// Frees the slot of a connection that is dropped rather than reused, or
    /// that could not be opened.
    pub fn discard_connection(&mut self)
        requires
            old(self).wf(),
            old(self).active() > 0,
        ensures
            final(self).wf(),
            final(self).capacity() == old(self).capacity(),
            final(self).backend() == old(self).backend(),
            final(self).state() == step(old(self).capacity(), old(self).state(), PoolOp::Discard),
            final(self).history() == old(self).history().push(PoolOp::Discard),
            final(self).idle() == old(self).idle(),
    {
        self.record(PoolOp::Discard);
        self.active = self.active - 1;
    }

    /// For every pool built by calls: the connections checked out are exactly
    /// the checkouts granted less the connections given back, and so no more
    /// checkouts are ever granted than the capacity plus the connections
    /// given back.
    pub proof fn outstanding_checkouts(&self)
        requires
            self.wf(),
        ensures
            self.active() == granted(self.capacity(), self.history()) - returned(self.history()),
            granted(self.capacity(), self.history()) <= self.capacity() + returned(self.history()),
            self.idle().len() + self.active() <= self.capacity(),
    {
        active_count_is_outstanding(self.capacity as nat, self.history@);
    }

    /// Adds `op` to the history; the counts are updated by the caller.
    fn record(&mut self, op: PoolOp)
        requires
            old(self).wf(),
            op is Checkout || old(self).active() > 0,
        ensures
            final(self).history() == old(self).history().push(op),
            admissible(final(self).capacity(), final(self).history()),
            after_ops(final(self).capacity(), final(self).history()) == step(
                old(self).capacity(),
                old(self).state(),
                op,
            ),
            final(self).idle() == old(self).idle(),
            final(self).active() == old(self).active(),
            final(self).capacity() == old(self).capacity(),
            final(self).backend() == old(self).backend(),
    {
        let ghost h = self.history@;
        self.history = Ghost(h.push(op));
        assert(self.history@.drop_last() =~= h);
    }
}

/// The counts along any possible sequence of operations: no more
/// connections exist than the capacity allows, and the count of connections
/// checked out is exactly the checkouts granted less the connections given
/// back.
pub proof fn active_count_is_outstanding(capacity: nat, ops: Seq<PoolOp>)
    requires
        admissible(capacity, ops),
    ensures
        after_ops(capacity, ops).idle + after_ops(capacity, ops).active <= capacity,
        after_ops(capacity, ops).active == granted(capacity, ops) - returned(ops),
    decreases ops.len(),
{
    if ops.len() > 0 {
        active_count_is_outstanding(capacity, ops.drop_last());
    }
}

/// `n` checkouts on a fresh pool, none given back.
pub open spec fn checkouts(n: nat) -> Seq<PoolOp> {
    Seq::new(n, |i: int| PoolOp::Checkout)
}

/// Admission control: of `n` checkouts on a fresh pool with nothing given
/// back, exactly `min(n, capacity)` are granted and every later one waits;
/// after any possible sequence of operations that ends in giving a
/// connection back, the next checkout is granted.
pub proof fn admission_is_bounded(capacity: nat, n: nat, ops: Seq<PoolOp>)
    requires
        admissible(capacity, ops),
        ops.len() > 0,
        !(ops.last() is Checkout),
    ensures
        granted(capacity, checkouts(n)) == if n < capacity { n } else { capacity },
        after_ops(capacity, checkouts(n)).active == if n < capacity { n } else { capacity },
        after_ops(capacity, ops).active < capacity,
    decreases n,
{
    if n > 0 {
        admission_is_bounded(capacity, (n - 1) as nat, ops);
        assert(checkouts(n).drop_last() =~= checkouts((n - 1) as nat));
    } else {
        assert(checkouts(n) =~= Seq::<PoolOp>::empty());
    }
    active_count_is_outstanding(capacity, ops.drop_last());
}

} // verus!
