//! The wire codec: a message as the bytes of one frame, and back.
//!
//! A frame is a four-byte big-endian length and that many bytes of payload.
//! The payload is the message as compact JSON in the usual externally tagged
//! form: `"Ping"` for a message without fields, and
//! `{"OpenPorts":{"ports":[80,81]}}` for one with a field. Each message has
//! exactly one payload, and only that payload is read back as the message.

use crate::decimal::{decimal, decimal_digits, parse_decimal, NumberError};
use crate::protocol::{Command, CommandView, Response, ResponseView};
use crate::text::{
    append, escaped, joined_ports, lemma_decimal_digits, lemma_decimal_of_digits,
    lemma_expand_joined, lemma_unescaped_escaped, parse_port_array, parse_string,
    port_array_text, push_decimal, push_port_array, push_string, region_is, string_text,
};
use vstd::prelude::*;
use vstd::slice::*;
use vstd::string::*;
use vstd::utf8::*;

verus! {

/// The error of decoding: the stream ended inside a frame, or the payload is
/// not the payload of any message.
#[derive(Debug, Clone, Copy, PartialEq, Eq, Structural)]
pub struct MalformedFrame;

/// The payload of a message without fields: its name between quotes.
pub open spec fn bare(variant: &str) -> Seq<u8> {
    "\"".spec_bytes() + variant.spec_bytes() + "\"".spec_bytes()
}

/// What stands before the value in the payload of a message with one field.
pub open spec fn tagged_head(variant: &str, field: &str) -> Seq<u8> {
    "{\"".spec_bytes() + variant.spec_bytes() + "\":{\"".spec_bytes() + field.spec_bytes()
        + "\":".spec_bytes()
}

/// What stands behind the value.
pub open spec fn tagged_tail() -> Seq<u8> {
    "}}".spec_bytes()
}

/// The payload of a message with one field: `{"variant":{"field":value}}`.
pub open spec fn tagged(variant: &str, field: &str, value: Seq<u8>) -> Seq<u8> {
    tagged_head(variant, field) + value + tagged_tail()
}

/// The payload of a command.
pub open spec fn command_payload(command: CommandView) -> Seq<u8> {
    match command {
        CommandView::Ping => bare("Ping"),
        CommandView::StartSpeedTest { duration_secs } => tagged(
            "StartSpeedTest",
            "duration_secs",
            decimal_digits(duration_secs as nat),
        ),
        CommandView::OpenPorts { ports } => tagged("OpenPorts", "ports", port_array_text(ports)),
        CommandView::ClosePorts { ports } => tagged("ClosePorts", "ports", port_array_text(ports)),
    }
}

/// The payload of a response.
pub open spec fn response_payload(response: ResponseView) -> Seq<u8> {
    match response {
        ResponseView::Pong => bare("Pong"),
        ResponseView::SpeedTestReady { port } => tagged(
            "SpeedTestReady",
            "port",
            decimal_digits(port as nat),
        ),
        ResponseView::PortsOpened { ports } => tagged(
            "PortsOpened",
            "ports",
            port_array_text(ports),
        ),
        ResponseView::PortsClosed { ports } => tagged(
            "PortsClosed",
            "ports",
            port_array_text(ports),
        ),
        ResponseView::Error { message } => tagged("Error", "message", string_text(message)),
    }
}

fn push_bare(out: &mut Vec<u8>, variant: &str)
    ensures
        final(out)@ == old(out)@ + bare(variant),
{
    append(out, "\"".as_bytes());
    append(out, variant.as_bytes());
    append(out, "\"".as_bytes());
    proof {
        assert(out@ =~= old(out)@ + bare(variant));
    }
}

fn push_tagged_head(out: &mut Vec<u8>, variant: &str, field: &str)
    ensures
        final(out)@ == old(out)@ + tagged_head(variant, field),
{
    append(out, "{\"".as_bytes());
    append(out, variant.as_bytes());
    append(out, "\":{\"".as_bytes());
    append(out, field.as_bytes());
    append(out, "\":".as_bytes());
    proof {
        assert(out@ =~= old(out)@ + tagged_head(variant, field));
    }
}

fn push_tagged_tail(out: &mut Vec<u8>)
    ensures
        final(out)@ == old(out)@ + tagged_tail(),
{
    append(out, "}}".as_bytes());
}

/// Appends the payload of a command.
pub fn push_command_payload(out: &mut Vec<u8>, command: &Command)
    ensures
        final(out)@ == old(out)@ + command_payload(command@),
{
    match command {
        Command::Ping => {
            push_bare(out, "Ping");
        },
        Command::StartSpeedTest { duration_secs } => {
            push_tagged_head(out, "StartSpeedTest", "duration_secs");
            push_decimal(out, *duration_secs);
            push_tagged_tail(out);
            proof {
                assert(out@ =~= old(out)@ + tagged("StartSpeedTest", "duration_secs", decimal_digits(*duration_secs as nat)));
            }
        },
        Command::OpenPorts { ports } => {
            push_tagged_head(out, "OpenPorts", "ports");
            push_port_array(out, ports);
            push_tagged_tail(out);
            proof {
                assert(out@ =~= old(out)@ + tagged("OpenPorts", "ports", port_array_text(ports@)));
            }
        },
        Command::ClosePorts { ports } => {
            push_tagged_head(out, "ClosePorts", "ports");
            push_port_array(out, ports);
            push_tagged_tail(out);
            proof {
                assert(out@ =~= old(out)@ + tagged("ClosePorts", "ports", port_array_text(ports@)));
            }
        },
    }
    proof {
        assert(out@ =~= old(out)@ + command_payload(command@));
    }
}

/// Appends the payload of a response.
pub fn push_response_payload(out: &mut Vec<u8>, response: &Response)
    ensures
        final(out)@ == old(out)@ + response_payload(response@),
{
    match response {
        Response::Pong => {
            push_bare(out, "Pong");
        },
        Response::SpeedTestReady { port } => {
            push_tagged_head(out, "SpeedTestReady", "port");
            push_decimal(out, *port as u64);
            push_tagged_tail(out);
            proof {
                assert(out@ =~= old(out)@ + tagged("SpeedTestReady", "port", decimal_digits(*port as nat)));
            }
        },
        Response::PortsOpened { ports } => {
            push_tagged_head(out, "PortsOpened", "ports");
            push_port_array(out, ports);
            push_tagged_tail(out);
            proof {
                assert(out@ =~= old(out)@ + tagged("PortsOpened", "ports", port_array_text(ports@)));
            }
        },
        Response::PortsClosed { ports } => {
            push_tagged_head(out, "PortsClosed", "ports");
            push_port_array(out, ports);
            push_tagged_tail(out);
            proof {
                assert(out@ =~= old(out)@ + tagged("PortsClosed", "ports", port_array_text(ports@)));
            }
        },
        Response::Error { message } => {
            push_tagged_head(out, "Error", "message");
            push_string(out, message.as_str());
            push_tagged_tail(out);
            proof {
                assert(out@ =~= old(out)@ + tagged("Error", "message", string_text(message@)));
            }
        },
    }
    proof {
        assert(out@ =~= old(out)@ + response_payload(response@));
    }
}

/// Where the value stands in `body`, if `body` is a payload with one field
/// under these names.
fn value_region(body: &[u8], variant: &str, field: &str) -> (r: Option<(usize, usize)>)
    ensures
        match r {
            Some((start, end)) => {
                &&& start <= end <= body@.len()
                &&& body@ == tagged(variant, field, body@.subrange(start as int, end as int))
                &&& forall|value: Seq<u8>| #[trigger]
                    tagged(variant, field, value) == body@ ==> value == body@.subrange(
                        start as int,
                        end as int,
                    )
            },
            None => forall|value: Seq<u8>| #[trigger] tagged(variant, field, value) != body@,
        },
{
    let mut head: Vec<u8> = Vec::new();
    push_tagged_head(&mut head, variant, field);
    let tail = "}}".as_bytes();
    proof {
        assert(head@ =~= tagged_head(variant, field));
        assert(tail@ == tagged_tail());
        assert forall|value: Seq<u8>| #[trigger]
            tagged(variant, field, value) == body@ implies body@.len() == head@.len() + value.len()
            + tail@.len() && body@.subrange(0, head@.len() as int) == head@ && body@.subrange(
            body@.len() - tail@.len(),
            body@.len() as int,
        ) == tail@ && value == body@.subrange(head@.len() as int, body@.len() - tail@.len()) by {
            let whole = tagged(variant, field, value);
            assert(whole.subrange(0, head@.len() as int) =~= head@);
            assert(whole.subrange(whole.len() - tail@.len(), whole.len() as int) =~= tail@);
            assert(whole.subrange(head@.len() as int, whole.len() - tail@.len()) =~= value);
        }
    }
    let n: usize = body.len();
    if n < head.len() || n - head.len() < tail.len() {
        return None;
    }
    let start: usize = head.len();
    let end: usize = n - tail.len();
    if region_is(body, 0, start, head.as_slice()) && region_is(body, end, n, tail) {
        proof {
            assert(body@ =~= tagged(variant, field, body@.subrange(start as int, end as int)));
        }
        Some((start, end))
    } else {
        None
    }
}

/// Reads `body` as a payload whose one field is a number of at most `max`.
fn decode_number(body: &[u8], variant: &str, field: &str, max: u64) -> (r: Option<u64>)
    ensures
        match r {
            Some(n) => n <= max && body@ == tagged(variant, field, decimal_digits(n as nat)),
            None => forall|n: nat|
                n <= max ==> tagged(variant, field, #[trigger] decimal_digits(n)) != body@,
        },
{
    let (start, end) = match value_region(body, variant, field) {
        Some(region) => region,
        None => {
            return None;
        },
    };
    let ghost region = body@.subrange(start as int, end as int);
    proof {
        assert forall|n: nat|
            n <= max && tagged(variant, field, #[trigger] decimal_digits(n))
                == body@ implies decimal(region, max as nat) == Ok::<
            nat,
            NumberError,
        >(n) by {
            lemma_decimal_of_digits(n, max as nat);
        }
    }
    let candidate: u64 = match parse_decimal(body, start, end, max) {
        Ok(n) => n,
        Err(_) => {
            return None;
        },
    };
    let mut text: Vec<u8> = Vec::new();
    push_decimal(&mut text, candidate);
    proof {
        assert(text@ =~= decimal_digits(candidate as nat));
    }
    if region_is(body, start, end, text.as_slice()) {
        Some(candidate)
    } else {
        None
    }
}

/// Reads `body` as a payload whose one field, `ports`, is an array of ports.
fn decode_ports(body: &[u8], variant: &str) -> (r: Option<Vec<u16>>)
    ensures
        match r {
            Some(ports) => body@ == tagged(variant, "ports", port_array_text(ports@)),
            None => forall|ports: Seq<u16>|
                tagged(variant, "ports", #[trigger] port_array_text(ports)) != body@,
        },
{
    match value_region(body, variant, "ports") {
        Some((start, end)) => parse_port_array(body, start, end),
        None => None,
    }
}

/// Reads `body` as a payload whose one field is a string.
fn decode_text(body: &[u8], variant: &str, field: &str) -> (r: Option<String>)
    ensures
        match r {
            Some(s) => body@ == tagged(variant, field, string_text(s@)),
            None => forall|chars: Seq<char>|
                tagged(variant, field, #[trigger] string_text(chars)) != body@,
        },
{
    match value_region(body, variant, field) {
        Some((start, end)) => parse_string(body, start, end),
        None => None,
    }
}

fn is_bare(body: &[u8], variant: &str) -> (same: bool)
    ensures
        same == (body@ == bare(variant)),
{
    let mut text: Vec<u8> = Vec::new();
    push_bare(&mut text, variant);
    proof {
        assert(text@ =~= bare(variant));
        assert(body@.subrange(0, body@.len() as int) =~= body@);
    }
    region_is(body, 0, body.len(), text.as_slice())
}

/// Reads a payload as a command: the one command that has this payload, or
/// the error if no command has it.
pub fn decode_command_payload(body: &[u8]) -> (r: Result<Command, MalformedFrame>)
    ensures
        match r {
            Ok(command) => command_payload(command@) == body@ && command_of_payload(body@)
                == Some(command@),
            Err(_) => command_of_payload(body@) is None && forall|command: CommandView| #[trigger]
                command_payload(command) != body@,
        },
{
    let r = read_command_payload(body);
    proof {
        if r is Ok {
            lemma_command_of_payload(r->Ok_0@);
        }
    }
    r
}

fn read_command_payload(body: &[u8]) -> (r: Result<Command, MalformedFrame>)
    ensures
        match r {
            Ok(command) => command_payload(command@) == body@,
            Err(_) => forall|command: CommandView| #[trigger] command_payload(command) != body@,
        },
{
    if is_bare(body, "Ping") {
        return Ok(Command::Ping);
    }
    match decode_number(body, "StartSpeedTest", "duration_secs", u64::MAX) {
        Some(duration_secs) => {
            return Ok(Command::StartSpeedTest { duration_secs });
        },
        None => {},
    }
    match decode_ports(body, "OpenPorts") {
        Some(ports) => {
            return Ok(Command::OpenPorts { ports });
        },
        None => {},
    }
    match decode_ports(body, "ClosePorts") {
        Some(ports) => {
            return Ok(Command::ClosePorts { ports });
        },
        None => {},
    }
    proof {
        assert forall|command: CommandView| #[trigger] command_payload(command) != body@ by {
            match command {
                CommandView::Ping => {},
                CommandView::StartSpeedTest { duration_secs } => {
                    assert(duration_secs as nat <= u64::MAX);
                },
                CommandView::OpenPorts { ports } => {},
                CommandView::ClosePorts { ports } => {},
            }
        }
    }
    Err(MalformedFrame)
}

/// Reads a payload as a response: the one response that has this payload, or
/// the error if no response has it.
pub fn decode_response_payload(body: &[u8]) -> (r: Result<Response, MalformedFrame>)
    ensures
        match r {
            Ok(response) => response_payload(response@) == body@ && response_of_payload(body@)
                == Some(response@),
            Err(_) => response_of_payload(body@) is None && forall|response: ResponseView| #[trigger]
                response_payload(response) != body@,
        },
{
    let r = read_response_payload(body);
    proof {
        if r is Ok {
            lemma_response_of_payload(r->Ok_0@);
        }
    }
    r
}

fn read_response_payload(body: &[u8]) -> (r: Result<Response, MalformedFrame>)
    ensures
        match r {
            Ok(response) => response_payload(response@) == body@,
            Err(_) => forall|response: ResponseView| #[trigger]
                response_payload(response) != body@,
        },
{
    if is_bare(body, "Pong") {
        return Ok(Response::Pong);
    }
    match decode_number(body, "SpeedTestReady", "port", 65535) {
        Some(port) => {
            return Ok(Response::SpeedTestReady { port: port as u16 });
        },
        None => {},
    }
    match decode_ports(body, "PortsOpened") {
        Some(ports) => {
            return Ok(Response::PortsOpened { ports });
        },
        None => {},
    }
    match decode_ports(body, "PortsClosed") {
        Some(ports) => {
            return Ok(Response::PortsClosed { ports });
        },
        None => {},
    }
    match decode_text(body, "Error", "message") {
        Some(message) => {
            return Ok(Response::Error { message });
        },
        None => {},
    }
    proof {
        assert forall|response: ResponseView| #[trigger] response_payload(response) != body@ by {
            match response {
                ResponseView::Pong => {},
                ResponseView::SpeedTestReady { port } => {
                    assert(port as nat <= 65535);
                },
                ResponseView::PortsOpened { ports } => {},
                ResponseView::PortsClosed { ports } => {},
                ResponseView::Error { message } => {},
            }
        }
    }
    Err(MalformedFrame)
}

/// The four bytes of a length, most significant first.
pub open spec fn be32(n: nat) -> Seq<u8> {
    seq![
        (n / 0x1000000 % 0x100) as u8,
        (n / 0x10000 % 0x100) as u8,
        (n / 0x100 % 0x100) as u8,
        (n % 0x100) as u8,
    ]
}

/// The length that four bytes write, most significant first.
pub open spec fn be32_value(header: Seq<u8>) -> nat {
    (header[0] * 0x1000000 + header[1] * 0x10000 + header[2] * 0x100 + header[3]) as nat
}

/// The frame of a payload: its length in four bytes, then the payload. A
/// length that does not fit in four bytes is cut down to its low 32 bits.
pub open spec fn frame(payload: Seq<u8>) -> Seq<u8> {
    be32(payload.len() % 0x1_0000_0000) + payload
}

/// The payload of the first frame of a stream, where `stream` is all that
/// arrives before the stream ends. An empty stream is a clean close and has
/// no frame; a stream that ends inside its first frame is malformed.
pub open spec fn first_frame(stream: Seq<u8>) -> Result<Option<Seq<u8>>, MalformedFrame> {
    if stream.len() == 0 {
        Ok(None)
    } else if stream.len() < 4 {
        Err(MalformedFrame)
    } else if stream.len() < 4 + be32_value(stream.take(4)) {
        Err(MalformedFrame)
    } else {
        Ok(Some(stream.subrange(4, 4 + be32_value(stream.take(4)) as int)))
    }
}

/// The command that has the payload `body`, if any has.
pub open spec fn command_of_payload(body: Seq<u8>) -> Option<CommandView> {
    if exists|command: CommandView| #[trigger] command_payload(command) == body {
        Some(choose|command: CommandView| #[trigger] command_payload(command) == body)
    } else {
        None
    }
}

/// The response that has the payload `body`, if any has.
pub open spec fn response_of_payload(body: Seq<u8>) -> Option<ResponseView> {
    if exists|response: ResponseView| #[trigger] response_payload(response) == body {
        Some(choose|response: ResponseView| #[trigger] response_payload(response) == body)
    } else {
        None
    }
}

/// What decoding a stream of commands gives first: nothing on a clean close,
/// else the command of the first frame and the number of bytes that the frame
/// takes.
pub open spec fn decoded_command(stream: Seq<u8>) -> Result<
    Option<(CommandView, nat)>,
    MalformedFrame,
> {
    match first_frame(stream) {
        Err(e) => Err(e),
        Ok(None) => Ok(None),
        Ok(Some(body)) => match command_of_payload(body) {
            Some(command) => Ok(Some((command, 4 + body.len()))),
            None => Err(MalformedFrame),
        },
    }
}

/// What decoding a stream of responses gives first.
pub open spec fn decoded_response(stream: Seq<u8>) -> Result<
    Option<(ResponseView, nat)>,
    MalformedFrame,
> {
    match first_frame(stream) {
        Err(e) => Err(e),
        Ok(None) => Ok(None),
        Ok(Some(body)) => match response_of_payload(body) {
            Some(response) => Ok(Some((response, 4 + body.len()))),
            None => Err(MalformedFrame),
        },
    }
}

/// The bytes of the names and of the punctuation of a payload.
proof fn lemma_literals()
    ensures
        "\"".spec_bytes() == seq![0x22u8],
        "{\"".spec_bytes() == seq![0x7Bu8, 0x22u8],
        "StartSpeedTest".spec_bytes().len() == 14,
        "StartSpeedTest".spec_bytes()[0] == 0x53,
        "OpenPorts".spec_bytes().len() == 9,
        "OpenPorts".spec_bytes()[0] == 0x4F,
        "ClosePorts".spec_bytes().len() == 10,
        "ClosePorts".spec_bytes()[0] == 0x43,
        "SpeedTestReady".spec_bytes().len() == 14,
        "SpeedTestReady".spec_bytes()[0] == 0x53,
        "PortsOpened".spec_bytes().len() == 11,
        "PortsOpened".spec_bytes()[0] == 0x50,
        "PortsOpened".spec_bytes()[5] == 0x4F,
        "PortsClosed".spec_bytes().len() == 11,
        "PortsClosed".spec_bytes()[0] == 0x50,
        "PortsClosed".spec_bytes()[5] == 0x43,
        "Error".spec_bytes().len() == 5,
        "Error".spec_bytes()[0] == 0x45,
{
    reveal_strlit("\"");
    reveal_strlit("{\"");
    reveal_strlit("StartSpeedTest");
    reveal_strlit("OpenPorts");
    reveal_strlit("ClosePorts");
    reveal_strlit("SpeedTestReady");
    reveal_strlit("PortsOpened");
    reveal_strlit("PortsClosed");
    reveal_strlit("Error");
    is_ascii_chars_encode_utf8("\""@);
    is_ascii_chars_encode_utf8("{\""@);
    is_ascii_chars_encode_utf8("StartSpeedTest"@);
    is_ascii_chars_encode_utf8("OpenPorts"@);
    is_ascii_chars_encode_utf8("ClosePorts"@);
    is_ascii_chars_encode_utf8("SpeedTestReady"@);
    is_ascii_chars_encode_utf8("PortsOpened"@);
    is_ascii_chars_encode_utf8("PortsClosed"@);
    is_ascii_chars_encode_utf8("Error"@);
    assert("\"".spec_bytes() =~= seq![0x22u8]);
    assert("{\"".spec_bytes() =~= seq![0x7Bu8, 0x22u8]);
}

/// Where the name of the variant stands in a payload with one field.
proof fn lemma_tagged_shape(variant: &str, field: &str, value: Seq<u8>)
    ensures
        tagged(variant, field, value).len() >= 2 + variant.spec_bytes().len(),
        tagged(variant, field, value)[0] == 0x7B,
        forall|k: int|
            0 <= k < variant.spec_bytes().len() ==> tagged(variant, field, value)[2 + k]
                == variant.spec_bytes()[k],
{
    lemma_literals();
}

/// Two payloads under the same names are the same only if their values are.
proof fn lemma_tagged_cancel(variant: &str, field: &str, a: Seq<u8>, b: Seq<u8>)
    requires
        tagged(variant, field, a) == tagged(variant, field, b),
    ensures
        a == b,
{
    let head = tagged_head(variant, field);
    let tail = tagged_tail();
    let whole_a = tagged(variant, field, a);
    let whole_b = tagged(variant, field, b);
    assert(whole_a.len() == head.len() + a.len() + tail.len());
    assert(whole_b.len() == head.len() + b.len() + tail.len());
    assert(whole_a.subrange(head.len() as int, whole_a.len() - tail.len()) =~= a);
    assert(whole_b.subrange(head.len() as int, whole_b.len() - tail.len()) =~= b);
}

/// No two numbers have the same digits.
pub proof fn lemma_decimal_digits_injective(a: nat, b: nat)
    requires
        decimal_digits(a) == decimal_digits(b),
    ensures
        a == b,
{
    let max = if a <= b {
        b
    } else {
        a
    };
    lemma_decimal_of_digits(a, max);
    lemma_decimal_of_digits(b, max);
}

/// No two lists of ports have the same text.
pub proof fn lemma_port_array_text_injective(a: Seq<u16>, b: Seq<u16>)
    requires
        port_array_text(a) == port_array_text(b),
    ensures
        a == b,
{
    let text_a = port_array_text(a);
    let text_b = port_array_text(b);
    assert(text_a.subrange(1, text_a.len() - 1) =~= joined_ports(a));
    assert(text_b.subrange(1, text_b.len() - 1) =~= joined_ports(b));
    if a.len() > 0 {
        lemma_decimal_digits(a[0] as nat);
    }
    if b.len() > 0 {
        lemma_decimal_digits(b[0] as nat);
    }
    if a.len() > 0 && b.len() > 0 {
        lemma_expand_joined(a[0], a.skip(1));
        lemma_expand_joined(b[0], b.skip(1));
        assert(seq![a[0]] + a.skip(1) =~= a);
        assert(seq![b[0]] + b.skip(1) =~= b);
    } else {
        assert(a =~= b);
    }
}

/// No two strings have the same text.
pub proof fn lemma_string_text_injective(a: Seq<char>, b: Seq<char>)
    requires
        string_text(a) == string_text(b),
    ensures
        a == b,
{
    let text_a = string_text(a);
    let text_b = string_text(b);
    assert(text_a.subrange(1, text_a.len() - 1) =~= escaped(encode_utf8(a)));
    assert(text_b.subrange(1, text_b.len() - 1) =~= escaped(encode_utf8(b)));
    lemma_unescaped_escaped(encode_utf8(a));
    lemma_unescaped_escaped(encode_utf8(b));
    encode_utf8_decode_utf8(a);
    encode_utf8_decode_utf8(b);
}

/// The bytes by which the payloads of the commands differ.
proof fn lemma_command_shape(command: CommandView)
    ensures
        command_payload(command).len() >= 1,
        match command {
            CommandView::Ping => command_payload(command)[0] == 0x22,
            CommandView::StartSpeedTest { .. } => command_payload(command)[0] == 0x7B
                && command_payload(command)[2] == 0x53,
            CommandView::OpenPorts { .. } => command_payload(command)[0] == 0x7B
                && command_payload(command)[2] == 0x4F,
            CommandView::ClosePorts { .. } => command_payload(command)[0] == 0x7B
                && command_payload(command)[2] == 0x43,
        },
{
    lemma_literals();
    match command {
        CommandView::Ping => {},
        CommandView::StartSpeedTest { duration_secs } => {
            lemma_tagged_shape(
                "StartSpeedTest",
                "duration_secs",
                decimal_digits(duration_secs as nat),
            );
        },
        CommandView::OpenPorts { ports } => {
            lemma_tagged_shape("OpenPorts", "ports", port_array_text(ports));
        },
        CommandView::ClosePorts { ports } => {
            lemma_tagged_shape("ClosePorts", "ports", port_array_text(ports));
        },
    }
}

/// No two commands have the same payload.
pub proof fn lemma_command_payload_injective(a: CommandView, b: CommandView)
    requires
        command_payload(a) == command_payload(b),
    ensures
        a == b,
{
    lemma_command_shape(a);
    lemma_command_shape(b);
    match (a, b) {
        (
            CommandView::StartSpeedTest { duration_secs: da },
            CommandView::StartSpeedTest { duration_secs: db },
        ) => {
            lemma_tagged_cancel(
                "StartSpeedTest",
                "duration_secs",
                decimal_digits(da as nat),
                decimal_digits(db as nat),
            );
            lemma_decimal_digits_injective(da as nat, db as nat);
        },
        (CommandView::OpenPorts { ports: pa }, CommandView::OpenPorts { ports: pb }) => {
            lemma_tagged_cancel("OpenPorts", "ports", port_array_text(pa), port_array_text(pb));
            lemma_port_array_text_injective(pa, pb);
        },
        (CommandView::ClosePorts { ports: pa }, CommandView::ClosePorts { ports: pb }) => {
            lemma_tagged_cancel("ClosePorts", "ports", port_array_text(pa), port_array_text(pb));
            lemma_port_array_text_injective(pa, pb);
        },
        _ => {},
    }
}

/// The bytes by which the payloads of the responses differ.
proof fn lemma_response_shape(response: ResponseView)
    ensures
        response_payload(response).len() >= 1,
        match response {
            ResponseView::Pong => response_payload(response)[0] == 0x22,
            ResponseView::SpeedTestReady { .. } => response_payload(response)[0] == 0x7B
                && response_payload(response)[2] == 0x53,
            ResponseView::PortsOpened { .. } => response_payload(response)[0] == 0x7B
                && response_payload(response)[2] == 0x50 && response_payload(response)[7] == 0x4F,
            ResponseView::PortsClosed { .. } => response_payload(response)[0] == 0x7B
                && response_payload(response)[2] == 0x50 && response_payload(response)[7] == 0x43,
            ResponseView::Error { .. } => response_payload(response)[0] == 0x7B
                && response_payload(response)[2] == 0x45,
        },
{
    lemma_literals();
    match response {
        ResponseView::Pong => {},
        ResponseView::SpeedTestReady { port } => {
            lemma_tagged_shape("SpeedTestReady", "port", decimal_digits(port as nat));
        },
        ResponseView::PortsOpened { ports } => {
            lemma_tagged_shape("PortsOpened", "ports", port_array_text(ports));
        },
        ResponseView::PortsClosed { ports } => {
            lemma_tagged_shape("PortsClosed", "ports", port_array_text(ports));
        },
        ResponseView::Error { message } => {
            lemma_tagged_shape("Error", "message", string_text(message));
        },
    }
}

/// No two responses have the same payload.
pub proof fn lemma_response_payload_injective(a: ResponseView, b: ResponseView)
    requires
        response_payload(a) == response_payload(b),
    ensures
        a == b,
{
    lemma_response_shape(a);
    lemma_response_shape(b);
    match (a, b) {
        (
            ResponseView::SpeedTestReady { port: pa },
            ResponseView::SpeedTestReady { port: pb },
        ) => {
            lemma_tagged_cancel(
                "SpeedTestReady",
                "port",
                decimal_digits(pa as nat),
                decimal_digits(pb as nat),
            );
            lemma_decimal_digits_injective(pa as nat, pb as nat);
        },
        (ResponseView::PortsOpened { ports: pa }, ResponseView::PortsOpened { ports: pb }) => {
            lemma_tagged_cancel("PortsOpened", "ports", port_array_text(pa), port_array_text(pb));
            lemma_port_array_text_injective(pa, pb);
        },
        (ResponseView::PortsClosed { ports: pa }, ResponseView::PortsClosed { ports: pb }) => {
            lemma_tagged_cancel("PortsClosed", "ports", port_array_text(pa), port_array_text(pb));
            lemma_port_array_text_injective(pa, pb);
        },
        (ResponseView::Error { message: ma }, ResponseView::Error { message: mb }) => {
            lemma_tagged_cancel("Error", "message", string_text(ma), string_text(mb));
            lemma_string_text_injective(ma, mb);
        },
        _ => {},
    }
}

/// A payload is read back as the command it was written for.
pub proof fn lemma_command_of_payload(command: CommandView)
    ensures
        command_of_payload(command_payload(command)) == Some(command),
{
    let found = choose|other: CommandView| #[trigger]
        command_payload(other) == command_payload(command);
    lemma_command_payload_injective(found, command);
}

/// A payload is read back as the response it was written for.
pub proof fn lemma_response_of_payload(response: ResponseView)
    ensures
        response_of_payload(response_payload(response)) == Some(response),
{
    let found = choose|other: ResponseView| #[trigger]
        response_payload(other) == response_payload(response);
    lemma_response_payload_injective(found, response);
}

/// Four bytes written for a length below 2^32 read back as that length.
pub proof fn lemma_be32_value(n: nat)
    requires
        n < 0x1_0000_0000,
    ensures
        be32(n).len() == 4,
        be32_value(be32(n)) == n,
{
    let low = n / 0x100;
    let mid = low / 0x100;
    let high = mid / 0x100;
    assert(n == low * 0x100 + n % 0x100);
    assert(low == mid * 0x100 + low % 0x100);
    assert(mid == high * 0x100 + mid % 0x100);
    assert(n / 0x10000 == mid);
    assert(n / 0x1000000 == high);
    assert(high < 0x100);
    let header = be32(n);
    assert(header[0] == high);
    assert(header[1] == mid % 0x100);
    assert(header[2] == low % 0x100);
    assert(header[3] == n % 0x100);
}

/// The first frame of a stream that starts with the frame of `payload` holds
/// `payload`, whatever follows.
pub proof fn lemma_first_frame(payload: Seq<u8>, rest: Seq<u8>)
    requires
        payload.len() < 0x1_0000_0000,
    ensures
        first_frame(frame(payload) + rest) == Ok::<Option<Seq<u8>>, MalformedFrame>(Some(payload)),
        frame(payload).len() == 4 + payload.len(),
{
    let stream = frame(payload) + rest;
    lemma_be32_value(payload.len());
    assert(stream.take(4) =~= be32(payload.len()));
    assert(stream.subrange(4, 4 + payload.len() as int) =~= payload);
}

/// Round trip: a command that was encoded decodes to itself, and the frame
/// is used up exactly, whatever follows it in the stream. The one exception
/// is a payload of 2^32 bytes or more, whose length does not fit the frame.
pub proof fn lemma_command_round_trip(command: CommandView, rest: Seq<u8>)
    requires
        command_payload(command).len() < 0x1_0000_0000,
    ensures
        decoded_command(frame(command_payload(command)) + rest) == Ok::<
            Option<(CommandView, nat)>,
            MalformedFrame,
        >(Some((command, frame(command_payload(command)).len()))),
{
    lemma_first_frame(command_payload(command), rest);
    lemma_command_of_payload(command);
}

/// Round trip: a response that was encoded decodes to itself, and the frame
/// is used up exactly, whatever follows it in the stream. The one exception
/// is a payload of 2^32 bytes or more, whose length does not fit the frame.
pub proof fn lemma_response_round_trip(response: ResponseView, rest: Seq<u8>)
    requires
        response_payload(response).len() < 0x1_0000_0000,
    ensures
        decoded_response(frame(response_payload(response)) + rest) == Ok::<
            Option<(ResponseView, nat)>,
            MalformedFrame,
        >(Some((response, frame(response_payload(response)).len()))),
{
    lemma_first_frame(response_payload(response), rest);
    lemma_response_of_payload(response);
}

/// What decoding found at the start of a stream.
#[derive(Debug, Clone, PartialEq, Eq)]
pub enum Decoded<T> {
    /// The stream ended before a frame began: the peer closed the session.
    Closed,
    /// A message, and the number of bytes that its frame takes.
    Message { message: T, consumed: usize },
}

fn frame_bytes(payload: &[u8]) -> (bytes: Vec<u8>)
    ensures
        bytes@ == frame(payload@),
{
    let n: u64 = (payload.len() as u64) % 0x1_0000_0000;
    let mut out: Vec<u8> = Vec::new();
    out.push((n / 0x1000000 % 0x100) as u8);
    out.push((n / 0x10000 % 0x100) as u8);
    out.push((n / 0x100 % 0x100) as u8);
    out.push((n % 0x100) as u8);
    proof {
        assert(out@ =~= be32(n as nat));
    }
    append(&mut out, payload);
    out
}

/// Encodes a command as one frame.
pub fn encode_command(command: &Command) -> (bytes: Vec<u8>)
    ensures
        bytes@ == frame(command_payload(command@)),
{
    let mut payload: Vec<u8> = Vec::new();
    push_command_payload(&mut payload, command);
    proof {
        assert(payload@ =~= command_payload(command@));
    }
    frame_bytes(payload.as_slice())
}

/// Encodes a response as one frame.
pub fn encode_response(response: &Response) -> (bytes: Vec<u8>)
    ensures
        bytes@ == frame(response_payload(response@)),
{
    let mut payload: Vec<u8> = Vec::new();
    push_response_payload(&mut payload, response);
    proof {
        assert(payload@ =~= response_payload(response@));
    }
    frame_bytes(payload.as_slice())
}

/// The length that the first four bytes of a stream announce for the payload;
/// none while fewer than four bytes are there.
pub fn announced_length(stream: &[u8]) -> (length: Option<u32>)
    ensures
        length == if stream@.len() < 4 {
            None
        } else {
            Some(be32_value(stream@.take(4)) as u32)
        },
        stream@.len() >= 4 ==> be32_value(stream@.take(4)) <= u32::MAX,
{
    if stream.len() < 4 {
        None
    } else {
        let b0: u32 = stream[0] as u32;
        let b1: u32 = stream[1] as u32;
        let b2: u32 = stream[2] as u32;
        let b3: u32 = stream[3] as u32;
        Some(b0 * 0x1000000 + b1 * 0x10000 + b2 * 0x100 + b3)
    }
}

/// Where the payload of the first frame stands in `stream`.
fn frame_region(stream: &[u8]) -> (r: Result<Option<usize>, MalformedFrame>)
    ensures
        match r {
            Ok(None) => first_frame(stream@) == Ok::<Option<Seq<u8>>, MalformedFrame>(None),
            Ok(Some(end)) => 4 <= end <= stream@.len() && first_frame(stream@) == Ok::<
                Option<Seq<u8>>,
                MalformedFrame,
            >(Some(stream@.subrange(4, end as int))),
            Err(_) => first_frame(stream@) is Err,
        },
{
    if stream.len() == 0 {
        return Ok(None);
    }
    match announced_length(stream) {
        None => Err(MalformedFrame),
        Some(length) => {
            if ((stream.len() - 4) as u64) < length as u64 {
                Err(MalformedFrame)
            } else {
                Ok(Some(4 + length as usize))
            }
        },
    }
}

/// Decodes the first command of a stream, where `stream` is all that arrives
/// before the stream ends: the command of the first frame, or a clean close
/// if nothing arrives at all. A stream that ends inside its first frame, or a
/// payload that is the payload of no command, is malformed.
pub fn decode_command(stream: &[u8]) -> (r: Result<Decoded<Command>, MalformedFrame>)
    ensures
        match r {
            Ok(Decoded::Closed) => decoded_command(stream@) == Ok::<
                Option<(CommandView, nat)>,
                MalformedFrame,
            >(None),
            Ok(Decoded::Message { message, consumed }) => decoded_command(stream@) == Ok::<
                Option<(CommandView, nat)>,
                MalformedFrame,
            >(Some((message@, consumed as nat))),
            Err(_) => decoded_command(stream@) is Err,
        },
{
    match frame_region(stream) {
        Err(e) => Err(e),
        Ok(None) => Ok(Decoded::Closed),
        Ok(Some(end)) => match decode_command_payload(slice_subrange(stream, 4, end)) {
            Ok(message) => Ok(Decoded::Message { message, consumed: end }),
            Err(e) => Err(e),
        },
    }
}

/// Decodes the first response of a stream, as `decode_command` does for
/// commands.
pub fn decode_response(stream: &[u8]) -> (r: Result<Decoded<Response>, MalformedFrame>)
    ensures
        match r {
            Ok(Decoded::Closed) => decoded_response(stream@) == Ok::<
                Option<(ResponseView, nat)>,
                MalformedFrame,
            >(None),
            Ok(Decoded::Message { message, consumed }) => decoded_response(stream@) == Ok::<
                Option<(ResponseView, nat)>,
                MalformedFrame,
            >(Some((message@, consumed as nat))),
            Err(_) => decoded_response(stream@) is Err,
        },
{
    match frame_region(stream) {
        Err(e) => Err(e),
        Ok(None) => Ok(Decoded::Closed),
        Ok(Some(end)) => match decode_response_payload(slice_subrange(stream, 4, end)) {
            Ok(message) => Ok(Decoded::Message { message, consumed: end }),
            Err(e) => Err(e),
        },
    }
}

} // verus!
