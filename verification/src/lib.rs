//! A network-diagnostic control plane: the control protocol between a client
//! and a server, the server's registry of opened ports, and the client-side
//! rules of the latency, throughput and port-reachability tests.
//!
//! Everything here is plain computation on plain values. Sockets, clocks and
//! tasks belong to the program around this library, which feeds it what it
//! read and carries out what it decides.

#![allow(unused_imports)]

pub mod client;
pub mod codec;
pub mod decimal;
pub mod ports;
pub mod protocol;
pub mod registry;
pub mod server;
pub mod text;
