use rusteze::classify::CommandClass;
use rusteze::manager::{AcceptorAction, AcceptorEvent, ConnectionManager, ShutdownSignal};
use rusteze::pool::{Checkout, ConnectionPool};
use rusteze::session::{Phase, Session, SessionAction, SessionEvent};

fn forwarded(a: SessionAction) -> (Vec<u8>, CommandClass) {
    match a {
        SessionAction::Forward(bytes, class) => (bytes, class),
        _ => panic!("expected a forward"),
    }
}

fn replied(a: SessionAction) -> (Vec<u8>, bool) {
    match a {
        SessionAction::Reply(bytes, close) => (bytes, close),
        _ => panic!("expected a reply"),
    }
}

fn closed(a: SessionAction) -> bool {
    match a {
        SessionAction::Close(release) => release,
        _ => panic!("expected a close"),
    }
}

#[test]
fn ping_is_forwarded_and_pong_relayed() {
    let mut s = Session::new();
    let ping = b"*1\r\n$4\r\nPING\r\n".to_vec();
    let (bytes, class) = forwarded(s.on_event(SessionEvent::ClientData(ping.clone())));
    assert_eq!(bytes, ping);
    assert_eq!(class, CommandClass::Ordinary);
    assert_eq!(s.current_phase(), Phase::AwaitingResponse);
    let (reply, close) = replied(s.on_event(SessionEvent::BackendData(b"+PONG\r\n".to_vec())));
    assert_eq!(reply, b"+PONG\r\n".to_vec());
    assert!(!close);
    assert_eq!(s.current_phase(), Phase::Relaying);
    assert!(matches!(s.on_event(SessionEvent::ReplySent), SessionAction::ReadClient));
}

#[test]
fn flushall_is_flagged_and_forwarded_unchanged() {
    let mut s = Session::new();
    let req = b"*1\r\n$8\r\nflushall\r\n".to_vec();
    let (bytes, class) = forwarded(s.on_event(SessionEvent::ClientData(req.clone())));
    assert_eq!(class, CommandClass::Destructive);
    assert_eq!(bytes, req);
    let (reply, _) = replied(s.on_event(SessionEvent::BackendData(b"+OK\r\n".to_vec())));
    assert_eq!(reply, b"+OK\r\n".to_vec());
}

#[test]
fn request_in_two_writes_is_forwarded_once() {
    let mut s = Session::new();
    let whole = b"*2\r\n$3\r\nGET\r\n$5\r\nhello\r\n".to_vec();
    let first = whole[..17].to_vec();
    let second = whole[17..].to_vec();
    assert!(matches!(s.on_event(SessionEvent::ClientData(first)), SessionAction::ReadClient));
    assert_eq!(s.current_phase(), Phase::Relaying);
    let (bytes, _) = forwarded(s.on_event(SessionEvent::ClientData(second)));
    assert_eq!(bytes, whole);
    // the second read forwards nothing more
    assert!(matches!(s.on_event(SessionEvent::ClientData(Vec::new())), SessionAction::ReadBackend));
}

#[test]
fn response_in_two_reads_is_relayed_once() {
    let mut s = Session::new();
    forwarded(s.on_event(SessionEvent::ClientData(b"*2\r\n$3\r\nGET\r\n$1\r\nk\r\n".to_vec())));
    assert!(matches!(s.on_event(SessionEvent::BackendData(b"$5\r\nwor".to_vec())), SessionAction::ReadBackend));
    let (reply, _) = replied(s.on_event(SessionEvent::BackendData(b"ld\r\n".to_vec())));
    assert_eq!(reply, b"$5\r\nworld\r\n".to_vec());
}

#[test]
fn pipelined_requests_go_one_at_a_time() {
    let mut s = Session::new();
    let two = b"*1\r\n$4\r\nPING\r\n*1\r\n$4\r\nPING\r\n".to_vec();
    let (bytes, _) = forwarded(s.on_event(SessionEvent::ClientData(two)));
    assert_eq!(bytes, b"*1\r\n$4\r\nPING\r\n".to_vec());
    replied(s.on_event(SessionEvent::BackendData(b"+PONG\r\n".to_vec())));
    let (again, _) = forwarded(s.on_event(SessionEvent::ReplySent));
    assert_eq!(again, b"*1\r\n$4\r\nPING\r\n".to_vec());
}

#[test]
fn malformed_request_closes_and_drops() {
    let mut s = Session::new();
    assert!(!closed(s.on_event(SessionEvent::ClientData(b"?x\r\n".to_vec()))));
    assert_eq!(s.current_phase(), Phase::Closed);
}

#[test]
fn malformed_response_closes_and_drops() {
    let mut s = Session::new();
    forwarded(s.on_event(SessionEvent::ClientData(b"*1\r\n$4\r\nPING\r\n".to_vec())));
    assert!(!closed(s.on_event(SessionEvent::BackendData(b"!bad\r\n".to_vec()))));
}

#[test]
fn io_error_between_requests_drops() {
    let mut s = Session::new();
    assert!(!closed(s.on_event(SessionEvent::IoError)));
}

#[test]
fn client_close_between_requests_releases() {
    let mut s = Session::new();
    assert!(closed(s.on_event(SessionEvent::ClientClosed)));
}

#[test]
fn client_close_mid_request_drops() {
    let mut s = Session::new();
    forwarded(s.on_event(SessionEvent::ClientData(b"*1\r\n$4\r\nPING\r\n".to_vec())));
    assert!(!closed(s.on_event(SessionEvent::ClientClosed)));
}

#[test]
fn backend_close_and_io_error_drop() {
    let mut s = Session::new();
    forwarded(s.on_event(SessionEvent::ClientData(b"*1\r\n$4\r\nPING\r\n".to_vec())));
    assert!(!closed(s.on_event(SessionEvent::BackendClosed)));
    let mut t = Session::new();
    forwarded(t.on_event(SessionEvent::ClientData(b"*1\r\n$4\r\nPING\r\n".to_vec())));
    assert!(!closed(t.on_event(SessionEvent::IoError)));
}

#[test]
fn shutdown_finishes_the_request_in_flight() {
    let mut s = Session::new();
    forwarded(s.on_event(SessionEvent::ClientData(b"*1\r\n$4\r\nPING\r\n".to_vec())));
    assert!(matches!(s.on_event(SessionEvent::Shutdown), SessionAction::ReadBackend));
    let (reply, close) = replied(s.on_event(SessionEvent::BackendData(b"+PONG\r\n".to_vec())));
    assert_eq!(reply, b"+PONG\r\n".to_vec());
    assert!(close);
    assert_eq!(s.current_phase(), Phase::Closed);
}

#[test]
fn shutdown_while_idle_closes_and_releases() {
    let mut s = Session::new();
    assert!(closed(s.on_event(SessionEvent::Shutdown)));
}

#[test]
fn exhausted_pool_waits_until_release() {
    let mut pool: ConnectionPool<u32> = ConnectionPool::new("127.0.0.1:6379".to_string(), 1);
    assert!(matches!(pool.get_connection(), Checkout::OpenNew));
    assert_eq!(pool.active_connections(), 1);
    assert!(matches!(pool.get_connection(), Checkout::Wait));
    assert_eq!(pool.active_connections(), 1);
    pool.return_connection(7);
    assert_eq!(pool.active_connections(), 0);
    assert!(matches!(pool.get_connection(), Checkout::Reused(7)));
    assert_eq!(pool.active_connections(), 1);
}

#[test]
fn checkouts_beyond_capacity_wait() {
    let mut pool: ConnectionPool<u32> = ConnectionPool::new("backend:6379".to_string(), 3);
    let mut granted = 0;
    for _ in 0..5 {
        if !matches!(pool.get_connection(), Checkout::Wait) {
            granted += 1;
        }
    }
    assert_eq!(granted, 3);
    assert_eq!(pool.active_connections(), 3);
    assert_eq!(pool.capacity_limit(), 3);
    assert_eq!(pool.backend_addr(), "backend:6379");
}

#[test]
fn active_count_follows_checkouts_and_returns() {
    let mut pool: ConnectionPool<u32> = ConnectionPool::new("b".to_string(), 4);
    let mut outstanding = 0usize;
    for round in 0..20u32 {
        match pool.get_connection() {
            Checkout::Wait => {}
            _ => outstanding += 1,
        }
        if round % 3 == 0 && outstanding > 0 {
            pool.return_connection(round);
            outstanding -= 1;
        }
        if round % 5 == 0 && outstanding > 0 {
            pool.discard_connection();
            outstanding -= 1;
        }
        assert_eq!(pool.active_connections(), outstanding);
        assert!(pool.active_connections() + pool.idle_connections() <= 4);
    }
}

#[test]
fn idle_connections_are_reused_in_order() {
    let mut pool: ConnectionPool<u32> = ConnectionPool::new("b".to_string(), 2);
    pool.get_connection();
    pool.get_connection();
    pool.return_connection(1);
    pool.return_connection(2);
    assert_eq!(pool.idle_connections(), 2);
    assert!(matches!(pool.get_connection(), Checkout::Reused(1)));
    assert!(matches!(pool.get_connection(), Checkout::Reused(2)));
}

#[test]
fn zero_capacity_pool_always_waits() {
    let mut pool: ConnectionPool<u32> = ConnectionPool::new("b".to_string(), 0);
    assert!(matches!(pool.get_connection(), Checkout::Wait));
}

#[test]
fn acceptor_stops_accepting_and_drains() {
    let mut m = ConnectionManager::new("0.0.0.0:7000".to_string(), "127.0.0.1:6379".to_string(), 10);
    assert_eq!(m.listen_addr(), "0.0.0.0:7000");
    assert_eq!(m.backend_addr(), "127.0.0.1:6379");
    assert_eq!(m.max_connections(), 10);
    assert_eq!(m.on_event(AcceptorEvent::ClientArrived), AcceptorAction::SpawnSession);
    assert_eq!(m.on_event(AcceptorEvent::ActiveCount(0)), AcceptorAction::KeepAccepting);
    assert_eq!(m.on_event(AcceptorEvent::ShutdownFired), AcceptorAction::WaitForDrain);
    assert!(m.is_shutting_down());
    assert_eq!(m.on_event(AcceptorEvent::ClientArrived), AcceptorAction::RefuseClient);
    assert_eq!(m.on_event(AcceptorEvent::ActiveCount(2)), AcceptorAction::WaitForDrain);
    assert_eq!(m.on_event(AcceptorEvent::ShutdownFired), AcceptorAction::WaitForDrain);
    assert_eq!(m.on_event(AcceptorEvent::ActiveCount(0)), AcceptorAction::Exit);
}

#[test]
fn shutdown_signal_is_level_triggered() {
    let mut s = ShutdownSignal::new();
    assert!(!s.is_set());
    s.trigger();
    assert!(s.is_set());
    s.trigger();
    assert!(s.is_set());
}
