//! The server's side of a control session: what each request calls for, and
//! the rules of the data it sends on the ports it opens.

use crate::codec::{
    decode_command, decoded_command, encode_response, frame, response_payload, Decoded,
    MalformedFrame,
};
use crate::protocol::{
    handshake, Command, CommandView, Response, ResponseView, CHUNK_SIZE,
};
use crate::registry::{closed_list, OpenPortsJob, PortRegistry};
use vstd::prelude::*;

verus! {

/// The byte that fills the chunks of a speed test.
pub const FILL_BYTE: u8 = 1;

/// What a request calls for. Only a ping is answered at once; the others need
/// the caller to act first.
pub enum ServerAction {
    /// Send this answer.
    Reply(Response),
    /// Bind a listener on a port of the system's choosing, answer with
    /// `speed_test_ready`, and stream to the first connection for this many
    /// seconds.
    StartSpeedTest { duration_secs: u64 },
    /// Hold the registry and drive this job to its end, then send what it
    /// finishes with.
    OpenPorts(OpenPortsJob),
    /// Hold the registry and hand these ports to `handle_close_ports`.
    ClosePorts { ports: Vec<u16> },
}

/// Whether `action` is what `command` calls for: the answer `Pong` to a
/// ping, a speed test of the duration asked for, a fresh job for the ports to
/// open, or the ports to close.
pub open spec fn carries_out(action: ServerAction, command: CommandView) -> bool {
    match command {
        CommandView::Ping => action matches ServerAction::Reply(response) && response@
            == ResponseView::Pong,
        CommandView::StartSpeedTest { duration_secs } => action
            == (ServerAction::StartSpeedTest { duration_secs }),
        CommandView::OpenPorts { ports } => {
            &&& action matches ServerAction::OpenPorts(job)
            &&& job.well_formed()
            &&& job.requested() == ports
            &&& job.position() == 0
            &&& job.opened() == Seq::<u16>::empty()
        },
        CommandView::ClosePorts { ports } => action matches ServerAction::ClosePorts {
            ports: to_close,
        } && to_close@ == ports,
    }
}

/// Decides what a request calls for.
pub fn dispatch(command: Command) -> (action: ServerAction)
    ensures
        carries_out(action, command@),
{
    match command {
        Command::Ping => ServerAction::Reply(Response::Pong),
        Command::StartSpeedTest { duration_secs } => ServerAction::StartSpeedTest {
            duration_secs,
        },
        Command::OpenPorts { ports } => ServerAction::OpenPorts(OpenPortsJob::new(ports)),
        Command::ClosePorts { ports } => ServerAction::ClosePorts { ports },
    }
}

/// Where a control session stands. Requests and answers alternate strictly:
/// a request is read only while none is being served, and each request gets
/// exactly one answer before the next is read.
#[derive(Debug, Clone, Copy, PartialEq, Eq, Structural)]
pub enum SessionState {
    /// The next request may be read.
    AwaitingRequest,
    /// A request is being served and its answer is owed.
    AwaitingReply,
    /// The session is over.
    Ended,
}

/// What the bytes read for a request amount to.
pub enum SessionStep {
    /// A request: carry this out, then answer with `reply`.
    Serve(ServerAction),
    /// The client closed the connection between two requests.
    Closed,
    /// The bytes are no request; the session ends in error.
    Failed(MalformedFrame),
}

/// One control session of the server.
pub struct Session {
    state: SessionState,
}

impl Session {
    /// Where the session stands.
    pub closed spec fn state(&self) -> SessionState {
        self.state
    }

    /// A session that awaits its first request.
    pub fn new() -> (session: Self)
        ensures
            session.state() == SessionState::AwaitingRequest,
    {
        Session { state: SessionState::AwaitingRequest }
    }

    /// Where the session stands.
    pub fn current(&self) -> (state: SessionState)
        ensures
            state == self.state(),
    {
        self.state
    }

    /// Takes the bytes read for the next request: all that arrived of one
    /// frame before the read ended. A whole frame with a command is served;
    /// no bytes at all end the session cleanly; anything else ends it in
    /// error.
    pub fn receive(&mut self, stream: &[u8]) -> (step: SessionStep)
        requires
            old(self).state() == SessionState::AwaitingRequest,
        ensures
            match decoded_command(stream@) {
                Ok(Some((command, _))) => {
                    &&& step matches SessionStep::Serve(action)
                    &&& carries_out(action, command)
                    &&& final(self).state() == SessionState::AwaitingReply
                },
                Ok(None) => step is Closed && final(self).state() == SessionState::Ended,
                Err(e) => step == SessionStep::Failed(e) && final(self).state()
                    == SessionState::Ended,
            },
    {
        match decode_command(stream) {
            Ok(Decoded::Message { message, consumed: _ }) => {
                self.state = SessionState::AwaitingReply;
                SessionStep::Serve(dispatch(message))
            },
            Ok(Decoded::Closed) => {
                self.state = SessionState::Ended;
                SessionStep::Closed
            },
            Err(e) => {
                self.state = SessionState::Ended;
                SessionStep::Failed(e)
            },
        }
    }

    /// The frame of the answer to the request being served, after which the
    /// next request may be read.
    pub fn reply(&mut self, response: &Response) -> (bytes: Vec<u8>)
        requires
            old(self).state() == SessionState::AwaitingReply,
        ensures
            bytes@ == frame(response_payload(response@)),
            final(self).state() == SessionState::AwaitingRequest,
    {
        self.state = SessionState::AwaitingRequest;
        encode_response(response)
    }

    /// Ends the session: a write failed, or a request could not be served.
    pub fn abandon(&mut self)
        ensures
            final(self).state() == SessionState::Ended,
    {
        self.state = SessionState::Ended;
    }
}

/// Handles a request to close `ports`: each one that is registered leaves the
/// registry and is reported; the others are skipped. The handles of the
/// closed ports come back, in the order reported, for the caller to cancel.
pub fn handle_close_ports<H>(registry: &mut PortRegistry<H>, ports: &Vec<u16>) -> (r: (
    Response,
    Vec<H>,
))
    ensures
        r.0@ == (ResponseView::PortsClosed {
            ports: closed_list(old(registry)@.dom(), ports@),
        }),
        r.1@.len() == closed_list(old(registry)@.dom(), ports@).len(),
        forall|i: int|
            0 <= i < r.1@.len() ==> r.1@[i] == old(registry)@[closed_list(
                old(registry)@.dom(),
                ports@,
            )[i]],
        final(registry)@ == old(registry)@.remove_keys(ports@.to_set()),
{
    let closed = registry.close_ports(ports);
    (Response::PortsClosed { ports: closed.ports }, closed.handles)
}

/// The answer to a speed test request, once the listener is bound to `port`.
pub fn speed_test_ready(port: u16) -> (response: Response)
    ensures
        response@ == (ResponseView::SpeedTestReady { port }),
{
    Response::SpeedTestReady { port }
}

/// Whether the stream of a speed test writes one more chunk, `elapsed_secs`
/// whole seconds after its first: as long as the window is open.
pub fn pump_continues(elapsed_secs: u64, duration_secs: u64) -> (more: bool)
    ensures
        more == (elapsed_secs < duration_secs),
{
    elapsed_secs < duration_secs
}

/// One chunk of a speed test: 64 KiB of fill.
pub fn pump_chunk() -> (chunk: Vec<u8>)
    ensures
        chunk@.len() == CHUNK_SIZE,
        forall|i: int| 0 <= i < chunk@.len() ==> chunk@[i] == FILL_BYTE,
{
    vec![FILL_BYTE; CHUNK_SIZE]
}

/// What a listener on an opened port writes to each connection it accepts.
pub fn handshake_bytes() -> (bytes: Vec<u8>)
    ensures
        bytes@ == handshake(),
{
    let mut bytes: Vec<u8> = Vec::new();
    bytes.push(0x4F);
    bytes.push(0x4B);
    proof {
        assert(bytes@ =~= handshake());
    }
    bytes
}

} // verus!
