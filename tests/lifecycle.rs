use rpc_server::connection::{ConnAction, ConnEvent, ConnState, Connection, ConnectionTable};
use rpc_server::dispatch::{settle, HandlerError};
use rpc_server::server::{Server, ServerConfig};
use rpc_server::shutdown::{CoordOp, Coordinator, Phase};
use rpc_server::dispatch::Dispatcher;

#[test]
fn failed_handler_keeps_connection_alive() {
    let mut c = Connection::new();
    assert_eq!(c.step(ConnEvent::Accepted), ConnAction::Read);
    assert_eq!(c.step(ConnEvent::RequestRead), ConnAction::Dispatch);
    let (_, resp) = settle(Err(HandlerError { message: "boom".to_string() }));
    assert_eq!(resp.status, 500);
    assert_eq!(c.step(ConnEvent::ResponseReady), ConnAction::Write);
    assert_eq!(c.step(ConnEvent::Written), ConnAction::Read);
    assert_eq!(c.state, ConnState::Reading);
    assert_eq!(c.served, 1);
    // the next request on the same connection is served
    assert_eq!(c.step(ConnEvent::RequestRead), ConnAction::Dispatch);
    assert_eq!(c.step(ConnEvent::ResponseReady), ConnAction::Write);
    assert_eq!(c.step(ConnEvent::Written), ConnAction::Read);
    assert_eq!((c.read, c.served), (2, 2));
}

#[test]
fn connection_failures_close() {
    let mut c = Connection::new();
    c.step(ConnEvent::Accepted);
    assert_eq!(c.step(ConnEvent::ReadFailed), ConnAction::Close);
    assert!(c.is_closed());
    assert_eq!(c.step(ConnEvent::RequestRead), ConnAction::Ignore);
    assert_eq!(c.read, 0);

    let mut c = Connection::new();
    c.step(ConnEvent::Accepted);
    c.step(ConnEvent::RequestRead);
    assert_eq!(c.step(ConnEvent::TimedOut), ConnAction::Close);
    assert_eq!((c.read, c.served), (1, 0));

    let mut c = Connection::new();
    c.step(ConnEvent::Accepted);
    c.step(ConnEvent::RequestRead);
    c.step(ConnEvent::ResponseReady);
    assert_eq!(c.step(ConnEvent::WriteFailed), ConnAction::Close);
    assert_eq!(c.served, 0);

    let mut c = Connection::new();
    assert_eq!(c.step(ConnEvent::Written), ConnAction::Ignore);
    assert_eq!(c.state, ConnState::Accepting);
    assert_eq!(c.step(ConnEvent::ForceClose), ConnAction::Close);
    assert!(c.is_closed());
}

#[test]
fn concurrent_connections_each_answered_once() {
    let n: usize = 6;
    let mut table = ConnectionTable::new();
    for _ in 0..n {
        table.open();
    }
    let script = [
        ConnEvent::Accepted,
        ConnEvent::RequestRead,
        ConnEvent::ResponseReady,
        ConnEvent::Written,
        ConnEvent::PeerClosed,
    ];
    // connection k runs its script interleaved with the others, staggered
    let mut pos = vec![0usize; n];
    let mut written = vec![0usize; n];
    let mut round = 0usize;
    while pos.iter().any(|&p| p < script.len()) {
        for k in (0..n).rev() {
            if (round + k) % 2 == 0 && pos[k] < script.len() {
                let a = table.apply(k, script[pos[k]]);
                if script[pos[k]] == ConnEvent::Written {
                    assert_eq!(a, ConnAction::Read);
                    written[k] += 1;
                }
                pos[k] += 1;
            }
        }
        round += 1;
    }
    assert_eq!(table.len(), n);
    for k in 0..n {
        assert_eq!(table.state(k), ConnState::Closed);
        assert_eq!(written[k], 1);
    }
}

#[test]
fn shutdown_drains_then_forces() {
    let mut co = Coordinator::new();
    assert_eq!(co.phase(), Phase::Running);
    assert!(co.try_accept());
    assert!(co.try_accept());
    assert!(co.try_accept());
    co.signal();
    assert_eq!(co.phase(), Phase::Draining);
    assert!(!co.try_accept());
    assert_eq!(co.in_flight(), 3);
    co.connection_closed();
    assert_eq!(co.in_flight(), 2);
    assert_eq!(co.phase(), Phase::Draining);
    assert_eq!(co.deadline_passed(), 2);
    assert_eq!(co.phase(), Phase::Stopped);
    assert_eq!(co.in_flight(), 0);
    assert!(!co.try_accept());
    co.signal();
    assert_eq!(co.phase(), Phase::Stopped);
}

#[test]
fn shutdown_stops_when_last_closes() {
    let mut co = Coordinator::new();
    assert_eq!(co.apply(CoordOp::Accept), (true, 0));
    assert_eq!(co.apply(CoordOp::Signal), (false, 0));
    assert_eq!(co.apply(CoordOp::Accept), (false, 0));
    assert_eq!(co.apply(CoordOp::Close), (false, 0));
    assert_eq!(co.phase(), Phase::Stopped);
    assert_eq!(co.apply(CoordOp::Deadline), (false, 0));
    assert_eq!(co.apply(CoordOp::Close), (false, 0));
    assert_eq!(co.in_flight(), 0);

    let mut idle = Coordinator::new();
    idle.signal();
    assert_eq!(idle.phase(), Phase::Stopped);
    assert_eq!(idle.deadline_passed(), 0);
}

#[test]
fn start_binds_every_interface_on_the_port() {
    let config = ServerConfig { port: 4069, addr: "0.0.0.0".to_string() };
    let server = Server::new(&config, Dispatcher::new());
    assert_eq!(server.port(), 4069);
    assert_eq!(server.dispatcher().len(), 0);
    let plan = server.start(config);
    assert_eq!(plan.address.ip, [0, 0, 0, 0]);
    assert_eq!(plan.address.port, 4069);
    assert_eq!(plan.coordinator.phase(), Phase::Running);
    assert_eq!(plan.coordinator.in_flight(), 0);
}
