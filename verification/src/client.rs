//! The client's side of the ping, the speed test and the port test: which
//! request to send, what to make of the answer, and how the measurements add
//! up. The caller owns the connections and the clock.

use crate::ports::{expand_ports, parse_ports, PortSpecError};
use crate::protocol::{handshake, Command, CommandView, Response, ResponseView};
use vstd::prelude::*;
use vstd::string::*;
use vstd::utf8::*;

verus! {

/// Seconds that pass between two progress reports of the port test, at the
/// least.
pub const PROGRESS_INTERVAL_SECS: u64 = 5;

pub const COLON: u8 = 0x3A;

/// Why a client operation ended without a result.
#[derive(Debug, Clone, PartialEq, Eq)]
pub enum ClientError {
    /// The port specification was refused; nothing was sent.
    PortSpec(PortSpecError),
    /// The server's answer is not the one that the request calls for.
    UnexpectedResponse(Response),
}

/// The outcome of a ping.
#[derive(Debug, Clone, PartialEq, Eq)]
pub struct PingResult {
    /// The round trip, in milliseconds.
    pub duration_ms: u128,
}

/// The answer to a ping must be `Pong`; the round trip that the caller
/// measured is then the result.
pub fn ping_result(response: Response, elapsed_ms: u128) -> (r: Result<PingResult, ClientError>)
    ensures
        response@ is Pong ==> r == Ok::<PingResult, ClientError>(
            PingResult { duration_ms: elapsed_ms },
        ),
        !(response@ is Pong) ==> r == Err::<PingResult, ClientError>(
            ClientError::UnexpectedResponse(response),
        ),
{
    match response {
        Response::Pong => Ok(PingResult { duration_ms: elapsed_ms }),
        other => Err(ClientError::UnexpectedResponse(other)),
    }
}

/// The answer to a speed test request must be `SpeedTestReady`; its port is
/// where the data connection goes.
pub fn expect_speed_test_ready(response: Response) -> (r: Result<u16, ClientError>)
    ensures
        response@ matches ResponseView::SpeedTestReady { port } ==> r == Ok::<u16, ClientError>(
            port,
        ),
        !(response@ is SpeedTestReady) ==> r == Err::<u16, ClientError>(
            ClientError::UnexpectedResponse(response),
        ),
{
    match response {
        Response::SpeedTestReady { port } => Ok(port),
        other => Err(ClientError::UnexpectedResponse(other)),
    }
}

/// The position of the last `needle` in `s`, or -1 if there is none.
pub open spec fn last_index_of(s: Seq<u8>, needle: u8) -> int
    decreases s.len(),
{
    if s.len() == 0 {
        -1
    } else if s.last() == needle {
        s.len() - 1
    } else {
        last_index_of(s.drop_last(), needle)
    }
}

/// The host of a data connection, as UTF-8, for a control address given as
/// UTF-8: what stands before the last `:` of the address, or `127.0.0.1`
/// where the address has no `:`.
pub open spec fn data_host_bytes(target: Seq<u8>) -> Seq<u8> {
    let colon = last_index_of(target, COLON);
    if colon < 0 {
        "127.0.0.1".spec_bytes()
    } else {
        target.take(colon)
    }
}

proof fn lemma_last_index_of(s: Seq<u8>, needle: u8, at: int, end: int)
    requires
        -1 <= at < end <= s.len(),
        forall|j: int| at < j < end ==> s[j] != needle,
        at >= 0 ==> s[at] == needle,
    ensures
        last_index_of(s.take(end), needle) == at,
    decreases end,
{
    let t = s.take(end);
    if end == 0 {
    } else if at == end - 1 {
    } else {
        assert(t.drop_last() =~= s.take(end - 1));
        lemma_last_index_of(s, needle, at, end - 1);
    }
}

/// The host to which the data connection of a test goes, taken from the
/// address of the control connection.
pub fn data_host(target_addr: &str) -> (host: String)
    ensures
        encode_utf8(host@) == data_host_bytes(target_addr.spec_bytes()),
{
    let bytes = target_addr.as_bytes();
    let mut at: usize = bytes.len();
    while at > 0 && bytes[at - 1] != COLON
        invariant
            at <= bytes@.len(),
            forall|j: int| at <= j < bytes@.len() ==> bytes@[j] != COLON,
        decreases at,
    {
        at -= 1;
    }
    proof {
        lemma_last_index_of(bytes@, COLON, at - 1, bytes@.len() as int);
        assert(bytes@.take(bytes@.len() as int) =~= bytes@);
    }
    if at == 0 {
        "127.0.0.1".to_owned()
    } else {
        proof {
            encode_utf8_valid_utf8(target_addr@);
            is_char_boundary_iff_not_is_continuation_byte(bytes@, at - 1);
        }
        let (head, _) = target_addr.split_at(at - 1);
        head.to_owned()
    }
}

/// What one read on the data connection of a speed test gave.
#[derive(Debug, Clone, Copy, PartialEq, Eq, Structural)]
pub enum ReadOutcome {
    /// This many bytes arrived; none means that the server closed the
    /// connection.
    Bytes(usize),
    /// The read failed.
    Failed,
}

/// The measurement of a speed test: the window asked for, the bytes received
/// so far, and whether the transfer has ended.
pub struct SpeedTest {
    duration_secs: u64,
    total_bytes: u64,
    ended: bool,
}

/// The outcome of a speed test, in whole numbers.
#[derive(Debug, Clone, Copy, PartialEq, Eq, Structural)]
pub struct SpeedTestResult {
    /// The bytes received.
    pub total_bytes: u64,
    /// The time that the client measured for the transfer, in microseconds.
    pub elapsed_micros: u64,
}

/// The throughput in thousandths of a megabit per second, rounded down:
/// `total_bytes * 8 / (1_000_000 * seconds)` with the seconds given in
/// microseconds, times a thousand.
pub open spec fn throughput_millis(total_bytes: nat, elapsed_micros: nat) -> nat
    recommends
        elapsed_micros > 0,
{
    total_bytes * 8000 / elapsed_micros
}

/// The throughput is the true rate rounded down: it never overstates the
/// rate, and understates it by less than one thousandth of a megabit per
/// second.
pub proof fn lemma_throughput_bounds(total_bytes: nat, elapsed_micros: nat)
    requires
        elapsed_micros > 0,
    ensures
        throughput_millis(total_bytes, elapsed_micros) * elapsed_micros <= total_bytes * 8000,
        total_bytes * 8000 < (throughput_millis(total_bytes, elapsed_micros) + 1) * elapsed_micros,
{
    let bits = (total_bytes * 8000) as int;
    let d = elapsed_micros as int;
    vstd::arithmetic::div_mod::lemma_fundamental_div_mod(bits, d);
    vstd::arithmetic::div_mod::lemma_mod_bound(bits, d);
    assert(d * (bits / d) == (bits / d) * d) by (nonlinear_arith);
    assert(((bits / d) + 1) * d == (bits / d) * d + d) by (nonlinear_arith);
}

/// More bytes in the same time never give a lower throughput: a transfer
/// that received at least `floor` bytes reports at least the throughput of
/// `floor` bytes.
pub proof fn lemma_throughput_monotonic(floor: nat, total_bytes: nat, elapsed_micros: nat)
    requires
        floor <= total_bytes,
        elapsed_micros > 0,
    ensures
        throughput_millis(floor, elapsed_micros) <= throughput_millis(total_bytes, elapsed_micros),
{
    vstd::arithmetic::div_mod::lemma_div_is_ordered(
        (floor * 8000) as int,
        (total_bytes * 8000) as int,
        elapsed_micros as int,
    );
}

impl SpeedTestResult {
    /// The throughput in thousandths of a megabit per second, rounded down;
    /// none for a transfer that took no measurable time.
    pub fn mbps_millis(&self) -> (r: Option<u128>)
        ensures
            self.elapsed_micros == 0 ==> r is None,
            self.elapsed_micros > 0 ==> r == Some(
                throughput_millis(self.total_bytes as nat, self.elapsed_micros as nat) as u128,
            ),
            self.elapsed_micros > 0 ==> throughput_millis(
                self.total_bytes as nat,
                self.elapsed_micros as nat,
            ) <= u128::MAX,
    {
        if self.elapsed_micros == 0 {
            None
        } else {
            let bits_millis: u128 = (self.total_bytes as u128) * 8000;
            Some(bits_millis / (self.elapsed_micros as u128))
        }
    }
}

impl SpeedTest {
    /// The window asked for, in seconds.
    pub closed spec fn duration_secs(&self) -> u64 {
        self.duration_secs
    }

    /// The bytes received so far.
    pub closed spec fn total_bytes(&self) -> u64 {
        self.total_bytes
    }

    /// Whether the transfer has ended, by a close or by a failed read.
    pub closed spec fn ended(&self) -> bool {
        self.ended
    }

    /// Starts a speed test of `duration_secs` seconds: the measurement, and
    /// the request to send.
    pub fn start(duration_secs: u64) -> (r: (SpeedTest, Command))
        ensures
            r.0.duration_secs() == duration_secs,
            r.0.total_bytes() == 0,
            !r.0.ended(),
            r.1@ == (CommandView::StartSpeedTest { duration_secs }),
    {
        (
            SpeedTest { duration_secs, total_bytes: 0, ended: false },
            Command::StartSpeedTest { duration_secs },
        )
    }

    /// Whether to read once more, `elapsed_secs` whole seconds after the
    /// first read began: as long as the transfer has not ended and the window
    /// is still open.
    pub fn wants_read(&self, elapsed_secs: u64) -> (more: bool)
        ensures
            more == (!self.ended() && elapsed_secs < self.duration_secs()),
    {
        !self.ended && elapsed_secs < self.duration_secs
    }

    /// Takes in what a read gave. Bytes are counted, however late they come;
    /// an empty read or a failed one ends the transfer.
    pub fn record(&mut self, outcome: ReadOutcome)
        requires
            outcome matches ReadOutcome::Bytes(n) ==> old(self).total_bytes() + n <= u64::MAX,
        ensures
            final(self).duration_secs() == old(self).duration_secs(),
            final(self).total_bytes() == match outcome {
                ReadOutcome::Bytes(n) => old(self).total_bytes() + n,
                ReadOutcome::Failed => old(self).total_bytes() as int,
            },
            final(self).ended() == (old(self).ended() || outcome == ReadOutcome::Failed || outcome
                == ReadOutcome::Bytes(0)),
    {
        match outcome {
            ReadOutcome::Bytes(n) => {
                if n == 0 {
                    self.ended = true;
                } else {
                    self.total_bytes = self.total_bytes + n as u64;
                }
            },
            ReadOutcome::Failed => {
                self.ended = true;
            },
        }
    }

    /// The outcome, once the caller has stopped reading after
    /// `elapsed_micros` microseconds by its own clock.
    pub fn finish(self, elapsed_micros: u64) -> (result: SpeedTestResult)
        ensures
            result == (SpeedTestResult { total_bytes: self.total_bytes(), elapsed_micros }),
    {
        SpeedTestResult { total_bytes: self.total_bytes, elapsed_micros }
    }
}

/// What a probe of one opened port gave.
#[derive(Debug, Clone, PartialEq, Eq)]
pub enum ProbeOutcome {
    /// The connection could not be made.
    Unreachable,
    /// The connection was made, and these bytes arrived before the read of
    /// two bytes ended.
    Read(Vec<u8>),
}

/// Whether a probe counts as a success: the connection was made and exactly
/// the handshake arrived.
pub open spec fn probe_verified(outcome: ProbeOutcome) -> bool {
    match outcome {
        ProbeOutcome::Unreachable => false,
        ProbeOutcome::Read(bytes) => bytes@ == handshake(),
    }
}

/// A probe that reads fewer than two bytes, or two bytes other than `OK`, or
/// that could not connect, is no success: a success is exactly the two bytes
/// `O` and `K`.
pub proof fn lemma_probe_verified(outcome: ProbeOutcome)
    ensures
        probe_verified(outcome) <==> (outcome matches ProbeOutcome::Read(bytes) && bytes@.len()
            == 2 && bytes@[0] == 0x4F && bytes@[1] == 0x4B),
{
    match outcome {
        ProbeOutcome::Unreachable => {},
        ProbeOutcome::Read(bytes) => {
            if bytes@.len() == 2 && bytes@[0] == 0x4F && bytes@[1] == 0x4B {
                assert(bytes@ =~= handshake());
            }
        },
    }
}

/// Decides whether a probe counts as a success.
pub fn is_verified(outcome: &ProbeOutcome) -> (ok: bool)
    ensures
        ok == probe_verified(*outcome),
{
    match outcome {
        ProbeOutcome::Unreachable => false,
        ProbeOutcome::Read(bytes) => {
            let ok = bytes.len() == 2 && bytes[0] == 0x4F && bytes[1] == 0x4B;
            proof {
                if ok {
                    assert(bytes@ =~= handshake());
                }
            }
            ok
        },
    }
}

/// Whether a progress report is due, `secs_since_last` whole seconds after
/// the last one.
pub fn progress_due(secs_since_last: u64) -> (due: bool)
    ensures
        due == (secs_since_last >= PROGRESS_INTERVAL_SECS),
{
    secs_since_last >= PROGRESS_INTERVAL_SECS
}

/// The outcome of a port test.
#[derive(Debug, Clone, PartialEq, Eq)]
pub struct PortTestResult {
    /// How many ports the server reported as opened.
    pub total_ports: usize,
    /// The ports whose probe succeeded, in the order probed.
    pub open_ports: Vec<u16>,
    /// How many probes succeeded.
    pub success_count: usize,
    /// How many probes failed.
    pub fail_count: usize,
}

/// The first request of a port test: open every port that the specification
/// names, in one request. A specification that is refused sends nothing.
pub fn port_test_request(range: &str) -> (r: Result<Command, ClientError>)
    ensures
        match r {
            Ok(command) => expand_ports(range.spec_bytes()) matches Ok(ports) && command@ == (
            CommandView::OpenPorts { ports }),
            Err(e) => expand_ports(range.spec_bytes()) matches Err(cause) && e
                == ClientError::PortSpec(cause),
        },
{
    match parse_ports(range) {
        Ok(ports) => Ok(Command::OpenPorts { ports }),
        Err(cause) => Err(ClientError::PortSpec(cause)),
    }
}

/// A port test in progress: the ports that the server opened, how many of
/// them have been probed, and how the probes went.
pub struct PortTest {
    opened: Vec<u16>,
    next: usize,
    verified: Vec<u16>,
    failed: usize,
}

impl PortTest {
    /// Every probe so far was counted once, as a success or as a failure.
    pub closed spec fn well_formed(&self) -> bool {
        &&& self.next <= self.opened@.len()
        &&& self.verified@.len() + self.failed == self.next
    }

    /// The ports that the server reported as opened, in its order.
    pub closed spec fn ports(&self) -> Seq<u16> {
        self.opened@
    }

    /// How many ports have been probed.
    pub closed spec fn probed(&self) -> int {
        self.next as int
    }

    /// The ports whose probe succeeded, in the order probed.
    pub closed spec fn verified(&self) -> Seq<u16> {
        self.verified@
    }

    /// How many probes failed.
    pub closed spec fn failures(&self) -> int {
        self.failed as int
    }

    /// Successes and failures add up to the probes made, and no more ports
    /// were probed than the server opened.
    pub proof fn lemma_counts(&self)
        requires
            self.well_formed(),
        ensures
            self.verified().len() + self.failures() == self.probed(),
            0 <= self.probed() <= self.ports().len(),
            0 <= self.failures(),
    {
    }

    /// Takes the server's answer to the request to open ports, which must be
    /// `PortsOpened`: its ports are the ones to probe.
    pub fn start(response: Response) -> (r: Result<PortTest, ClientError>)
        ensures
            match r {
                Ok(test) => {
                    &&& response@ == (ResponseView::PortsOpened { ports: test.ports() })
                    &&& test.well_formed()
                    &&& test.probed() == 0
                    &&& test.verified() == Seq::<u16>::empty()
                    &&& test.failures() == 0
                },
                Err(e) => !(response@ is PortsOpened) && e == ClientError::UnexpectedResponse(
                    response,
                ),
            },
    {
        match response {
            Response::PortsOpened { ports } => Ok(
                PortTest { opened: ports, next: 0, verified: Vec::new(), failed: 0 },
            ),
            other => Err(ClientError::UnexpectedResponse(other)),
        }
    }

    /// How many ports the server reported as opened.
    pub fn total_ports(&self) -> (n: usize)
        ensures
            n == self.ports().len(),
    {
        self.opened.len()
    }

    /// How many ports have been probed.
    pub fn probed_ports(&self) -> (n: usize)
        ensures
            n == self.probed(),
    {
        self.next
    }

    /// The next port to probe, if any is left.
    pub fn next_port(&self) -> (port: Option<u16>)
        requires
            self.well_formed(),
        ensures
            port == if self.probed() < self.ports().len() {
                Some(self.ports()[self.probed()])
            } else {
                None
            },
    {
        if self.next < self.opened.len() {
            Some(self.opened[self.next])
        } else {
            None
        }
    }

    /// Counts the probe of the next port: a success if the handshake arrived
    /// whole and exact, a failure in every other case. With no port left to
    /// probe, nothing is counted.
    pub fn record(&mut self, outcome: &ProbeOutcome)
        requires
            old(self).well_formed(),
        ensures
            final(self).well_formed(),
            final(self).ports() == old(self).ports(),
            old(self).probed() >= old(self).ports().len() ==> {
                &&& final(self).probed() == old(self).probed()
                &&& final(self).verified() == old(self).verified()
                &&& final(self).failures() == old(self).failures()
            },
            old(self).probed() < old(self).ports().len() ==> {
                &&& final(self).probed() == old(self).probed() + 1
                &&& probe_verified(*outcome) ==> final(self).verified() == old(self).verified().push(old(self).ports()[old(self).probed()]) && final(self).failures()
                    == old(self).failures()
                &&& !probe_verified(*outcome) ==> final(self).verified() == old(self).verified()
                    && final(self).failures() == old(self).failures() + 1
            },
    {
        if self.next < self.opened.len() {
            if is_verified(outcome) {
                self.verified.push(self.opened[self.next]);
            } else {
                self.failed = self.failed + 1;
            }
            self.next = self.next + 1;
        }
    }

    /// Ends the test: the request that closes every port that the server
    /// opened, however its probe went, and the outcome.
    pub fn finish(self) -> (r: (Command, PortTestResult))
        requires
            self.well_formed(),
        ensures
            r.0@ == (CommandView::ClosePorts { ports: self.ports() }),
            r.1.total_ports == self.ports().len(),
            r.1.open_ports@ == self.verified(),
            r.1.success_count == self.verified().len(),
            r.1.fail_count == self.failures(),
    {
        let total_ports: usize = self.opened.len();
        let success_count: usize = self.verified.len();
        (
            Command::ClosePorts { ports: self.opened },
            PortTestResult {
                total_ports,
                open_ports: self.verified,
                success_count,
                fail_count: self.failed,
            },
        )
    }
}

} // verus!
