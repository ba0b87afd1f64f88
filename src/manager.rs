//! The acceptor's decisions and the process-wide shutdown signal: accept
//! clients until shutdown, then wait for the checked-out connections to come
//! back before exiting.
use vstd::prelude::*;

verus! {

/// A flag that is set at most once and, once set, stays set for every
/// observer, early or late.
pub struct ShutdownSignal {
    set: bool,
}

impl ShutdownSignal {
    pub closed spec fn is_set_spec(&self) -> bool {
        self.set
    }

    pub fn new() -> (r: Self)
        ensures
            !r.is_set_spec(),
    {
        ShutdownSignal { set: false }
    }

    /// Sets the flag; setting it again changes nothing.
    pub fn trigger(&mut self)
        ensures
            final(self).is_set_spec(),
    {
        self.set = true;
    }

    pub fn is_set(&self) -> (r: bool)
        ensures
            r == self.is_set_spec(),
    {
        self.set
    }
}

/// What the acceptor observed.
#[derive(PartialEq, Eq, Structural, Clone, Copy, Debug)]
pub enum AcceptorEvent {
    /// A client socket was accepted from the listener.
    ClientArrived,
    /// The shutdown trigger fired.
    ShutdownFired,
    /// The pool reports this many checked-out connections.
    ActiveCount(usize),
}

/// What the acceptor does next.
#[derive(PartialEq, Eq, Structural, Clone, Copy, Debug)]
pub enum AcceptorAction {
    /// Start a session for the client, without waiting for it.
    SpawnSession,
    /// Close the client's socket at once: shutdown has begun.
    RefuseClient,
    /// Keep accepting clients.
    KeepAccepting,
    /// Stop accepting, wait a bounded time, then report the active count.
    WaitForDrain,
    /// Every checked-out connection is back: terminate.
    Exit,
}

/// The acceptor's answer to one event, given whether shutdown was seen
/// before it.
pub open spec fn decide(shutdown: bool, event: AcceptorEvent) -> AcceptorAction {
    match event {
        AcceptorEvent::ClientArrived => if shutdown {
            AcceptorAction::RefuseClient
        } else {
            AcceptorAction::SpawnSession
        },
        AcceptorEvent::ShutdownFired => AcceptorAction::WaitForDrain,
        AcceptorEvent::ActiveCount(n) => if !shutdown {
            AcceptorAction::KeepAccepting
        } else if n == 0 {
            AcceptorAction::Exit
        } else {
            AcceptorAction::WaitForDrain
        },
    }
}

/// Shutdown was seen once `events` have been taken.
pub open spec fn shutdown_after(events: Seq<AcceptorEvent>) -> bool {
    exists|i: int| 0 <= i < events.len() && events[i] == AcceptorEvent::ShutdownFired
}

/// The action taken on the `j`-th of `events`.
pub open spec fn action_at(events: Seq<AcceptorEvent>, j: int) -> AcceptorAction {
    decide(shutdown_after(events.subrange(0, j)), events[j])
}

/// Manages client connections: the addresses, the pool's capacity, and the
/// shutdown signal that ends accepting.
pub struct ConnectionManager {
    listen_addr: String,
    backend_addr: String,
    max_connections: usize,
    shutdown: ShutdownSignal,
}

impl ConnectionManager {
    pub closed spec fn listen(&self) -> Seq<char> {
        self.listen_addr@
    }

    pub closed spec fn backend(&self) -> Seq<char> {
        self.backend_addr@
    }

    pub closed spec fn capacity(&self) -> nat {
        self.max_connections as nat
    }

    pub closed spec fn shutting_down(&self) -> bool {
        self.shutdown.is_set_spec()
    }

    pub fn new(listen_addr: String, backend_addr: String, max_connections: usize) -> (r: Self)
        ensures
            r.listen() == listen_addr@,
            r.backend() == backend_addr@,
            r.capacity() == max_connections,
            !r.shutting_down(),
    {
        ConnectionManager { listen_addr, backend_addr, max_connections, shutdown: ShutdownSignal::new() }
    }

    pub fn listen_addr(&self) -> (r: &String)
        ensures
            r@ == self.listen(),
    {
        &self.listen_addr
    }

    pub fn backend_addr(&self) -> (r: &String)
        ensures
            r@ == self.backend(),
    {
        &self.backend_addr
    }

    pub fn max_connections(&self) -> (r: usize)
        ensures
            r == self.capacity(),
    {
        self.max_connections
    }

    pub fn is_shutting_down(&self) -> (r: bool)
        ensures
            r == self.shutting_down(),
    {
        self.shutdown.is_set()
    }

    /// Takes one observation of the accept loop and says what to do next.
    pub fn on_event(&mut self, event: AcceptorEvent) -> (r: AcceptorAction)
        ensures
            r == decide(old(self).shutting_down(), event),
            final(self).shutting_down() == (old(self).shutting_down() || event
                == AcceptorEvent::ShutdownFired),
            final(self).listen() == old(self).listen(),
            final(self).backend() == old(self).backend(),
            final(self).capacity() == old(self).capacity(),
    {
        match event {
            AcceptorEvent::ClientArrived => {
                if self.shutdown.is_set() {
                    AcceptorAction::RefuseClient
                } else {
                    AcceptorAction::SpawnSession
                }
            },
            AcceptorEvent::ShutdownFired => {
                self.shutdown.trigger();
                AcceptorAction::WaitForDrain
            },
            AcceptorEvent::ActiveCount(n) => {
                if !self.shutdown.is_set() {
                    AcceptorAction::KeepAccepting
                } else if n == 0 {
                    AcceptorAction::Exit
                } else {
                    AcceptorAction::WaitForDrain
                }
            },
        }
    }
}

/// Graceful shutdown: along any sequence of events, no session is started
/// once the shutdown trigger has fired, and the acceptor exits only after
/// the trigger fired and the pool reported no checked-out connection.
pub proof fn shutdown_is_graceful(events: Seq<AcceptorEvent>, i: int, j: int)
    requires
        0 <= i < j < events.len(),
        events[i] == AcceptorEvent::ShutdownFired,
    ensures
        action_at(events, j) != AcceptorAction::SpawnSession,
        forall|k: int|
            0 <= k < events.len() && #[trigger] action_at(events, k) == AcceptorAction::Exit ==> shutdown_after(
                events.subrange(0, k),
            ) && events[k] == AcceptorEvent::ActiveCount(0),
{
    assert(events.subrange(0, j)[i] == events[i]);
}

} // verus!
