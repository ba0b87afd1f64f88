//! The decisions of one client session: which bytes go to the backend, which
//! go back to the client, and when the session ends and what becomes of its
//! backend connection. The caller performs the I/O and reports what happened.
use crate::classify::{class_of, monitor_command, CommandClass};
use crate::codec::{decode, encode, parse_frame, Decoded, Parse};
use vstd::prelude::*;

verus! {

#[derive(PartialEq, Eq, Structural, Clone, Copy, Debug)]
pub enum Phase {
    /// Waiting for a whole request from the client.
    Relaying,
    /// A request went to the backend; waiting for its whole response.
    AwaitingResponse,
    /// Both sides are closed.
    Closed,
}

/// What the caller observed.
pub enum SessionEvent {
    /// Bytes read from the client.
    ClientData(Vec<u8>),
    /// The client closed its side (a read of zero bytes).
    ClientClosed,
    /// Bytes read from the backend.
    BackendData(Vec<u8>),
    /// The backend closed its side.
    BackendClosed,
    /// A read or a write on either socket failed.
    IoError,
    /// The shutdown signal is set.
    Shutdown,
    /// The last reply was written to the client in full.
    ReplySent,
}

/// What the caller does next.
pub enum SessionAction {
    /// Read more bytes from the client.
    ReadClient,
    /// Write these bytes to the backend in full and flush, then read its
    /// response. `class` is advisory and changes nothing.
    Forward(Vec<u8>, CommandClass),
    /// Read more bytes from the backend.
    ReadBackend,
    /// Write these bytes to the client in full and flush, then report
    /// `ReplySent`; or, if `close` holds, close the session and release the
    /// backend connection.
    Reply(Vec<u8>, bool),
    /// Close both sides. The backend connection goes back to the pool if
    /// `release` holds, and is dropped otherwise.
    Close(bool),
}

/// `a` writes exactly `bytes` to the backend, flagged `class`.
pub open spec fn forwards(a: SessionAction, bytes: Seq<u8>, class: CommandClass) -> bool {
    match a {
        SessionAction::Forward(b, c) => b@ == bytes && c == class,
        _ => false,
    }
}

/// `a` writes exactly `bytes` to the client, and closes afterwards if `close`.
pub open spec fn replies(a: SessionAction, bytes: Seq<u8>, close: bool) -> bool {
    match a {
        SessionAction::Reply(b, c) => b@ == bytes && c == close,
        _ => false,
    }
}

/// What a session does with the client bytes `buf` that it holds while it
/// waits for a request: forward the first whole frame exactly as it came,
/// keep waiting while the frame is incomplete, or abandon the exchange on a
/// malformed one: both sides are closed and the backend connection dropped.
pub open spec fn request_step(buf: Seq<u8>, phase: Phase, rest: Seq<u8>, r: SessionAction) -> bool {
    match parse_frame(buf, 0) {
        Parse::Done(f, n) => phase == Phase::AwaitingResponse && rest == buf.subrange(n, buf.len() as int)
            && forwards(r, buf.subrange(0, n), class_of(f)),
        Parse::Partial => phase == Phase::Relaying && rest == buf && r is ReadClient,
        Parse::Bad => phase == Phase::Closed && rest == buf && r == SessionAction::Close(false),
    }
}

/// What a session does with the backend bytes `buf` that it holds while it
/// waits for a response: relay the first whole frame exactly as it came and
/// close after it if shutdown was seen, keep waiting while it is incomplete,
/// or close on a malformed one and drop the connection, whose stream position
/// is then unknown.
pub open spec fn response_step(
    buf: Seq<u8>,
    shutdown: bool,
    phase: Phase,
    rest: Seq<u8>,
    r: SessionAction,
) -> bool {
    match parse_frame(buf, 0) {
        Parse::Done(f, n) => phase == (if shutdown {
            Phase::Closed
        } else {
            Phase::Relaying
        }) && rest == buf.subrange(n, buf.len() as int) && replies(r, buf.subrange(0, n), shutdown),
        Parse::Partial => phase == Phase::AwaitingResponse && rest == buf && r is ReadBackend,
        Parse::Bad => phase == Phase::Closed && rest == buf && r == SessionAction::Close(false),
    }
}

/// One client session.
pub struct Session {
    phase: Phase,
    request: Vec<u8>,
    response: Vec<u8>,
    shutdown: bool,
}

fn tail(b: &Vec<u8>, n: usize) -> (r: Vec<u8>)
    requires
        n <= b.len(),
    ensures
        r@ == b@.subrange(n as int, b.len() as int),
{
    let mut out: Vec<u8> = Vec::new();
    let mut k: usize = n;
    while k < b.len()
        invariant
            n <= k <= b.len(),
            out@ == b@.subrange(n as int, k as int),
        decreases b.len() - k,
    {
        out.push(b[k]);
        k += 1;
        assert(out@ =~= b@.subrange(n as int, k as int));
    }
    out
}

impl Session {
    pub closed spec fn phase(&self) -> Phase {
        self.phase
    }

    /// Client bytes received and not yet forwarded.
    pub closed spec fn request(&self) -> Seq<u8> {
        self.request@
    }

    /// Backend bytes received and not yet relayed.
    pub closed spec fn response(&self) -> Seq<u8> {
        self.response@
    }

    /// The shutdown signal was observed.
    pub closed spec fn shutdown_seen(&self) -> bool {
        self.shutdown
    }

    /// A session whose backend connection has been checked out.
    pub fn new() -> (r: Self)
        ensures
            r.phase() == Phase::Relaying,
            r.request() == Seq::<u8>::empty(),
            r.response() == Seq::<u8>::empty(),
            !r.shutdown_seen(),
    {
        Session { phase: Phase::Relaying, request: Vec::new(), response: Vec::new(), shutdown: false }
    }

    pub fn current_phase(&self) -> (r: Phase)
        ensures
            r == self.phase(),
    {
        self.phase
    }

    /// Forwards the first whole request in the buffer, if there is one.
    fn next_request(&mut self) -> (r: SessionAction)
        requires
            old(self).phase() == Phase::Relaying,
        ensures
            final(self).shutdown_seen() == old(self).shutdown_seen(),
            final(self).response() == old(self).response(),
            request_step(old(self).request(), final(self).phase(), final(self).request(), r),
    {
        match decode(self.request.as_slice()) {
            Decoded::Complete(frame, n) => {
                let class = monitor_command(&frame);
                let bytes = encode(&frame);
                self.request = tail(&self.request, n);
                self.phase = Phase::AwaitingResponse;
                SessionAction::Forward(bytes, class)
            },
            Decoded::Incomplete => SessionAction::ReadClient,
            Decoded::Invalid => {
                self.phase = Phase::Closed;
                SessionAction::Close(false)
            },
        }
    }

    /// Relays the first whole response in the buffer, if there is one.
    fn next_response(&mut self) -> (r: SessionAction)
        requires
            old(self).phase() == Phase::AwaitingResponse,
        ensures
            final(self).shutdown_seen() == old(self).shutdown_seen(),
            final(self).request() == old(self).request(),
            response_step(
                old(self).response(),
                old(self).shutdown_seen(),
                final(self).phase(),
                final(self).response(),
                r,
            ),
    {
        match decode(self.response.as_slice()) {
            Decoded::Complete(frame, n) => {
                let bytes = encode(&frame);
                self.response = tail(&self.response, n);
                self.phase = if self.shutdown { Phase::Closed } else { Phase::Relaying };
                SessionAction::Reply(bytes, self.shutdown)
            },
            Decoded::Incomplete => SessionAction::ReadBackend,
            Decoded::Invalid => {
                self.phase = Phase::Closed;
                SessionAction::Close(false)
            },
        }
    }

    fn close(&mut self, release: bool) -> (r: SessionAction)
        ensures
            final(self).phase() == Phase::Closed,
            final(self).request() == old(self).request(),
            final(self).response() == old(self).response(),
            final(self).shutdown_seen() == old(self).shutdown_seen(),
            r == SessionAction::Close(release),
    {
        self.phase = Phase::Closed;
        SessionAction::Close(release)
    }

    /// Takes one observation and says what to do next. The backend
    /// connection goes back to the pool only when the session ends cleanly
    /// with no request in flight (the client closed, or shutdown); a
    /// malformed frame, an I/O failure, or an end while a request is in
    /// flight drops it. Shutdown while a request is in flight lets that
    /// request's response through first.
    pub fn on_event(&mut self, event: SessionEvent) -> (r: SessionAction)
        requires
            old(self).phase() != Phase::Closed,
        ensures
            old(self).phase() == Phase::Relaying ==> match event {
                SessionEvent::ClientData(d) => final(self).shutdown_seen() == old(self).shutdown_seen()
                    && final(self).response() == old(self).response() && request_step(
                    old(self).request() + d@,
                    final(self).phase(),
                    final(self).request(),
                    r,
                ),
                SessionEvent::ReplySent => final(self).shutdown_seen() == old(self).shutdown_seen()
                    && final(self).response() == old(self).response() && request_step(
                    old(self).request(),
                    final(self).phase(),
                    final(self).request(),
                    r,
                ),
                SessionEvent::BackendData(_) => final(self).phase() == Phase::Closed && r
                    == SessionAction::Close(false),
                SessionEvent::BackendClosed => final(self).phase() == Phase::Closed && r
                    == SessionAction::Close(false),
                SessionEvent::Shutdown => final(self).phase() == Phase::Closed && final(self).shutdown_seen()
                    && r == SessionAction::Close(true),
                SessionEvent::ClientClosed => final(self).phase() == Phase::Closed && r
                    == SessionAction::Close(true),
                SessionEvent::IoError => final(self).phase() == Phase::Closed && r
                    == SessionAction::Close(false),
            },
            old(self).phase() == Phase::AwaitingResponse ==> match event {
                SessionEvent::BackendData(d) => final(self).shutdown_seen() == old(self).shutdown_seen()
                    && final(self).request() == old(self).request() && response_step(
                    old(self).response() + d@,
                    old(self).shutdown_seen(),
                    final(self).phase(),
                    final(self).response(),
                    r,
                ),
                SessionEvent::ClientData(d) => final(self).phase() == Phase::AwaitingResponse
                    && final(self).request() == old(self).request() + d@ && final(self).response()
                    == old(self).response() && final(self).shutdown_seen() == old(self).shutdown_seen()
                    && r is ReadBackend,
                SessionEvent::Shutdown => final(self).phase() == Phase::AwaitingResponse
                    && final(self).shutdown_seen() && final(self).request() == old(self).request()
                    && final(self).response() == old(self).response() && r is ReadBackend,
                SessionEvent::ReplySent => final(self).phase() == Phase::AwaitingResponse
                    && final(self).request() == old(self).request() && final(self).response() == old(self).response()
                    && final(self).shutdown_seen() == old(self).shutdown_seen() && r is ReadBackend,
                _ => final(self).phase() == Phase::Closed && r == SessionAction::Close(false),
            },
    {
        match event {
            SessionEvent::ClientData(mut d) => {
                if self.phase == Phase::Relaying {
                    self.request.append(&mut d);
                    self.next_request()
                } else {
                    self.request.append(&mut d);
                    SessionAction::ReadBackend
                }
            },
            SessionEvent::ReplySent => {
                if self.phase == Phase::Relaying {
                    self.next_request()
                } else {
                    SessionAction::ReadBackend
                }
            },
            SessionEvent::BackendData(mut d) => {
                if self.phase == Phase::AwaitingResponse {
                    self.response.append(&mut d);
                    self.next_response()
                } else {
                    self.close(false)
                }
            },
            SessionEvent::Shutdown => {
                self.shutdown = true;
                if self.phase == Phase::AwaitingResponse {
                    SessionAction::ReadBackend
                } else {
                    self.close(true)
                }
            },
            SessionEvent::BackendClosed | SessionEvent::IoError => self.close(false),
            SessionEvent::ClientClosed => {
                let aligned = self.phase == Phase::Relaying;
                self.close(aligned)
            },
        }
    }
}

} // verus!
