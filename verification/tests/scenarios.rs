use netool::client::{
    expect_speed_test_ready, is_verified, ping_result, PingResult, PortTest, PortTestResult,
    ProbeOutcome, ReadOutcome, SpeedTest,
};
use netool::codec::{decode_response, encode_command, Decoded};
use netool::protocol::{Command, Response, CHUNK_SIZE};
use netool::registry::{OpenStep, PortRegistry};
use netool::server::{
    handle_close_ports, handshake_bytes, pump_chunk, pump_continues, speed_test_ready,
    ServerAction, Session, SessionStep,
};

/// A server in memory: a registry, and listeners that exist as numbers.
struct Server {
    registry: PortRegistry<u32>,
    next_handle: u32,
    cancelled: Vec<u32>,
    taken: Vec<u16>,
    ephemeral: u16,
}

fn server() -> Server {
    Server {
        registry: PortRegistry::new(),
        next_handle: 1,
        cancelled: Vec::new(),
        taken: Vec::new(),
        ephemeral: 40000,
    }
}

fn serve(server: &mut Server, session: &mut Session, request: &[u8]) -> Vec<u8> {
    let action = match session.receive(request) {
        SessionStep::Serve(action) => action,
        _ => panic!("the request was not served"),
    };
    let response = match action {
        ServerAction::Reply(response) => response,
        ServerAction::StartSpeedTest { .. } => speed_test_ready(server.ephemeral),
        ServerAction::OpenPorts(mut job) => {
            loop {
                match job.advance(&server.registry) {
                    OpenStep::Done => break,
                    OpenStep::Bind(port) => {
                        if server.taken.contains(&port) {
                            job.bind_failed();
                        } else {
                            let handle = server.next_handle;
                            server.next_handle += 1;
                            assert_eq!(job.bound(&mut server.registry, handle), None);
                        }
                    }
                }
            }
            job.finish()
        }
        ServerAction::ClosePorts { ports } => {
            let (response, handles) = handle_close_ports(&mut server.registry, &ports);
            server.cancelled.extend(handles);
            response
        }
    };
    session.reply(&response)
}

fn exchange(server: &mut Server, session: &mut Session, command: &Command) -> Response {
    let answer = serve(server, session, &encode_command(command));
    match decode_response(&answer) {
        Ok(Decoded::Message { message, consumed }) => {
            assert_eq!(consumed, answer.len());
            message
        }
        other => panic!("no response came back: {:?}", other),
    }
}

fn probe(server: &Server, port: u16) -> ProbeOutcome {
    if server.registry.is_open(port) {
        ProbeOutcome::Read(handshake_bytes())
    } else {
        ProbeOutcome::Unreachable
    }
}

#[test]
fn ping_gets_pong_in_one_round_trip() {
    let mut server = server();
    let mut session = Session::new();
    let response = exchange(&mut server, &mut session, &Command::Ping);
    assert_eq!(response, Response::Pong);
    assert_eq!(ping_result(response, 3), Ok(PingResult { duration_ms: 3 }));
}

#[test]
fn open_ports_then_connect_receives_ok() {
    let mut server = server();
    let mut session = Session::new();
    let response =
        exchange(&mut server, &mut session, &Command::OpenPorts { ports: vec![9001, 9002] });
    assert_eq!(response, Response::PortsOpened { ports: vec![9001, 9002] });
    assert_eq!(probe(&server, 9001), ProbeOutcome::Read(b"OK".to_vec()));
    assert!(is_verified(&probe(&server, 9001)));
}

#[test]
fn close_ports_then_connect_is_refused() {
    let mut server = server();
    let mut session = Session::new();
    exchange(&mut server, &mut session, &Command::OpenPorts { ports: vec![9001, 9002] });
    let response =
        exchange(&mut server, &mut session, &Command::ClosePorts { ports: vec![9001, 9002] });
    assert_eq!(response, Response::PortsClosed { ports: vec![9001, 9002] });
    assert_eq!(server.cancelled, vec![1, 2]);
    assert_eq!(probe(&server, 9001), ProbeOutcome::Unreachable);
    assert!(!is_verified(&probe(&server, 9001)));
}

#[test]
fn speed_test_collects_a_chunk_within_its_window() {
    let mut server = server();
    let mut session = Session::new();
    let (mut test, request) = SpeedTest::start(2);
    let response = exchange(&mut server, &mut session, &request);
    assert_eq!(expect_speed_test_ready(response), Ok(40000));
    let mut elapsed_secs: u64 = 0;
    let mut chunks: u64 = 0;
    while pump_continues(elapsed_secs, 2) && test.wants_read(elapsed_secs) {
        test.record(ReadOutcome::Bytes(pump_chunk().len()));
        chunks += 1;
        if chunks % 4 == 0 {
            elapsed_secs += 1;
        }
    }
    test.record(ReadOutcome::Bytes(0));
    let result = test.finish(2_000_000);
    assert_eq!(chunks, 8);
    assert!(result.total_bytes >= CHUNK_SIZE as u64);
    assert_eq!(result.total_bytes, 8 * 65536);
    assert_eq!(result.mbps_millis(), Some(2_097));
}

#[test]
fn opening_an_open_port_again_starts_no_second_listener() {
    let mut server = server();
    let mut session = Session::new();
    exchange(&mut server, &mut session, &Command::OpenPorts { ports: vec![9001] });
    assert_eq!(server.next_handle, 2);
    let response =
        exchange(&mut server, &mut session, &Command::OpenPorts { ports: vec![9001, 9001] });
    assert_eq!(response, Response::PortsOpened { ports: vec![9001, 9001] });
    assert_eq!(server.next_handle, 2);
    assert_eq!(server.registry.len(), 1);
}

#[test]
fn closing_a_port_that_is_not_open_reports_nothing() {
    let mut server = server();
    let mut session = Session::new();
    let response = exchange(&mut server, &mut session, &Command::ClosePorts { ports: vec![7] });
    assert_eq!(response, Response::PortsClosed { ports: vec![] });
    assert!(server.cancelled.is_empty());
}

#[test]
fn ports_that_cannot_be_bound_are_left_out() {
    let mut server = server();
    server.taken = vec![22];
    let mut session = Session::new();
    let response =
        exchange(&mut server, &mut session, &Command::OpenPorts { ports: vec![22, 9001] });
    assert_eq!(response, Response::PortsOpened { ports: vec![9001] });
    assert!(!server.registry.is_open(22));
}

#[test]
fn port_test_runs_from_request_to_cleanup() {
    let mut server = server();
    server.taken = vec![81];
    let mut session = Session::new();
    let request = netool::client::port_test_request("80-82").unwrap();
    let response = exchange(&mut server, &mut session, &request);
    let mut test = PortTest::start(response).unwrap();
    while let Some(port) = test.next_port() {
        let outcome = if port == 82 {
            ProbeOutcome::Read(b"O".to_vec())
        } else {
            probe(&server, port)
        };
        test.record(&outcome);
    }
    let (close, result) = test.finish();
    assert_eq!(
        result,
        PortTestResult { total_ports: 2, open_ports: vec![80], success_count: 1, fail_count: 1 }
    );
    let response = exchange(&mut server, &mut session, &close);
    assert_eq!(response, Response::PortsClosed { ports: vec![80, 82] });
    assert_eq!(server.registry.len(), 0);
}
