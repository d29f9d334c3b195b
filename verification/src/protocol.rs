//! The messages of the control connection, and the constants of the data
//! connections.

use vstd::prelude::*;

verus! {

/// The size of each chunk that the server writes in a speed test, and of the
/// buffer that the client reads into: 64 KiB.
pub const CHUNK_SIZE: usize = 65536;

/// The two bytes that a listener on an opened port writes to each connection
/// it accepts: `OK`.
pub open spec fn handshake() -> Seq<u8> {
    seq![0x4Fu8, 0x4Bu8]
}

/// A request, sent by the client.
#[derive(Debug, PartialEq, Eq)]
pub enum Command {
    Ping,
    StartSpeedTest { duration_secs: u64 },
    OpenPorts { ports: Vec<u16> },
    ClosePorts { ports: Vec<u16> },
}

/// An answer, sent by the server.
#[derive(Debug, PartialEq, Eq)]
pub enum Response {
    Pong,
    SpeedTestReady { port: u16 },
    PortsOpened { ports: Vec<u16> },
    PortsClosed { ports: Vec<u16> },
    Error { message: String },
}

/// The mathematical value of a [`Command`].
pub enum CommandView {
    Ping,
    StartSpeedTest { duration_secs: u64 },
    OpenPorts { ports: Seq<u16> },
    ClosePorts { ports: Seq<u16> },
}

/// The mathematical value of a [`Response`].
pub enum ResponseView {
    Pong,
    SpeedTestReady { port: u16 },
    PortsOpened { ports: Seq<u16> },
    PortsClosed { ports: Seq<u16> },
    Error { message: Seq<char> },
}

impl View for Command {
    type V = CommandView;

    open spec fn view(&self) -> CommandView {
        match *self {
            Command::Ping => CommandView::Ping,
            Command::StartSpeedTest { duration_secs } => CommandView::StartSpeedTest {
                duration_secs,
            },
            Command::OpenPorts { ports } => CommandView::OpenPorts { ports: ports@ },
            Command::ClosePorts { ports } => CommandView::ClosePorts { ports: ports@ },
        }
    }
}

impl View for Response {
    type V = ResponseView;

    open spec fn view(&self) -> ResponseView {
        match *self {
            Response::Pong => ResponseView::Pong,
            Response::SpeedTestReady { port } => ResponseView::SpeedTestReady { port },
            Response::PortsOpened { ports } => ResponseView::PortsOpened { ports: ports@ },
            Response::PortsClosed { ports } => ResponseView::PortsClosed { ports: ports@ },
            Response::Error { message } => ResponseView::Error { message: message@ },
        }
    }
}

impl Clone for Command {
    fn clone(&self) -> (copy: Self)
        ensures
            copy@ == self@,
    {
        match self {
            Command::Ping => Command::Ping,
            Command::StartSpeedTest { duration_secs } => Command::StartSpeedTest {
                duration_secs: *duration_secs,
            },
            Command::OpenPorts { ports } => Command::OpenPorts { ports: clone_ports(ports) },
            Command::ClosePorts { ports } => Command::ClosePorts { ports: clone_ports(ports) },
        }
    }
}

impl Clone for Response {
    fn clone(&self) -> (copy: Self)
        ensures
            copy@ == self@,
    {
        match self {
            Response::Pong => Response::Pong,
            Response::SpeedTestReady { port } => Response::SpeedTestReady { port: *port },
            Response::PortsOpened { ports } => Response::PortsOpened { ports: clone_ports(ports) },
            Response::PortsClosed { ports } => Response::PortsClosed { ports: clone_ports(ports) },
            Response::Error { message } => Response::Error { message: message.clone() },
        }
    }
}

fn clone_ports(ports: &Vec<u16>) -> (copy: Vec<u16>)
    ensures
        copy@ == ports@,
{
    let copy = ports.clone();
    proof {
        assert(copy@ =~= ports@);
    }
    copy
}

} // verus!
