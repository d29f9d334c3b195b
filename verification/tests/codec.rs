use netool::codec::{
    announced_length, decode_command, decode_command_payload, decode_response,
    decode_response_payload, encode_command, encode_response, push_command_payload,
    push_response_payload, Decoded, MalformedFrame,
};
use netool::protocol::{Command, Response};

fn command_payload(command: &Command) -> Vec<u8> {
    let mut out = Vec::new();
    push_command_payload(&mut out, command);
    out
}

fn response_payload(response: &Response) -> Vec<u8> {
    let mut out = Vec::new();
    push_response_payload(&mut out, response);
    out
}

fn framed(payload: &[u8]) -> Vec<u8> {
    let mut out = (payload.len() as u32).to_be_bytes().to_vec();
    out.extend_from_slice(payload);
    out
}

fn tagged_json(variant: &str, field: &str, value: serde_json::Value) -> serde_json::Value {
    let mut inner = serde_json::Map::new();
    inner.insert(field.to_string(), value);
    let mut outer = serde_json::Map::new();
    outer.insert(variant.to_string(), serde_json::Value::Object(inner));
    serde_json::Value::Object(outer)
}

fn all_commands() -> Vec<Command> {
    vec![
        Command::Ping,
        Command::StartSpeedTest { duration_secs: 0 },
        Command::StartSpeedTest { duration_secs: 10 },
        Command::StartSpeedTest { duration_secs: u64::MAX },
        Command::OpenPorts { ports: vec![] },
        Command::OpenPorts { ports: vec![0] },
        Command::OpenPorts { ports: vec![9001, 9002] },
        Command::OpenPorts { ports: vec![80, 80, 65535, 0, 7] },
        Command::ClosePorts { ports: vec![] },
        Command::ClosePorts { ports: vec![9001, 9002] },
    ]
}

fn all_messages() -> Vec<&'static str> {
    vec![
        "",
        "plain",
        "a \"quoted\" word",
        "back\\slash",
        "line\nbreak\r\ttab",
        "\u{8}\u{c}",
        "\u{0}\u{1}\u{1f}",
        "\u{7f}",
        "/",
        "grüße, 世界 🦀",
        "\\u0041",
        "\"",
    ]
}

fn all_responses() -> Vec<Response> {
    let mut responses = vec![
        Response::Pong,
        Response::SpeedTestReady { port: 0 },
        Response::SpeedTestReady { port: 40000 },
        Response::SpeedTestReady { port: 65535 },
        Response::PortsOpened { ports: vec![] },
        Response::PortsOpened { ports: vec![9001, 9002] },
        Response::PortsClosed { ports: vec![] },
        Response::PortsClosed { ports: vec![1, 22, 333, 4444, 55555] },
    ];
    for message in all_messages() {
        responses.push(Response::Error { message: message.to_string() });
    }
    responses
}

#[test]
fn command_payloads_are_compact_json() {
    assert_eq!(command_payload(&Command::Ping), b"\"Ping\"".to_vec());
    assert_eq!(
        command_payload(&Command::StartSpeedTest { duration_secs: 10 }),
        b"{\"StartSpeedTest\":{\"duration_secs\":10}}".to_vec()
    );
    assert_eq!(
        command_payload(&Command::OpenPorts { ports: vec![9001, 9002] }),
        b"{\"OpenPorts\":{\"ports\":[9001,9002]}}".to_vec()
    );
    assert_eq!(
        command_payload(&Command::ClosePorts { ports: vec![] }),
        b"{\"ClosePorts\":{\"ports\":[]}}".to_vec()
    );
}

#[test]
fn response_payloads_are_compact_json() {
    assert_eq!(response_payload(&Response::Pong), b"\"Pong\"".to_vec());
    assert_eq!(
        response_payload(&Response::SpeedTestReady { port: 40000 }),
        b"{\"SpeedTestReady\":{\"port\":40000}}".to_vec()
    );
    assert_eq!(
        response_payload(&Response::PortsOpened { ports: vec![80] }),
        b"{\"PortsOpened\":{\"ports\":[80]}}".to_vec()
    );
    assert_eq!(
        response_payload(&Response::PortsClosed { ports: vec![80, 81] }),
        b"{\"PortsClosed\":{\"ports\":[80,81]}}".to_vec()
    );
    assert_eq!(
        response_payload(&Response::Error { message: "a \"b\"\n\u{1}".to_string() }),
        b"{\"Error\":{\"message\":\"a \\\"b\\\"\\n\\u0001\"}}".to_vec()
    );
}

#[test]
fn payloads_are_what_serde_json_writes() {
    let cases: Vec<(Vec<u8>, serde_json::Value)> = vec![
        (command_payload(&Command::Ping), serde_json::Value::from("Ping")),
        (
            command_payload(&Command::StartSpeedTest { duration_secs: u64::MAX }),
            tagged_json("StartSpeedTest", "duration_secs", serde_json::Value::from(u64::MAX)),
        ),
        (
            command_payload(&Command::OpenPorts { ports: vec![1, 65535] }),
            tagged_json("OpenPorts", "ports", serde_json::Value::from(vec![1u16, 65535])),
        ),
        (
            command_payload(&Command::ClosePorts { ports: vec![] }),
            tagged_json("ClosePorts", "ports", serde_json::Value::from(Vec::<u16>::new())),
        ),
        (response_payload(&Response::Pong), serde_json::Value::from("Pong")),
        (
            response_payload(&Response::SpeedTestReady { port: 9 }),
            tagged_json("SpeedTestReady", "port", serde_json::Value::from(9u16)),
        ),
        (
            response_payload(&Response::PortsOpened { ports: vec![3, 2, 1] }),
            tagged_json("PortsOpened", "ports", serde_json::Value::from(vec![3u16, 2, 1])),
        ),
        (
            response_payload(&Response::PortsClosed { ports: vec![7] }),
            tagged_json("PortsClosed", "ports", serde_json::Value::from(vec![7u16])),
        ),
    ];
    for (payload, value) in cases {
        assert_eq!(payload, serde_json::to_vec(&value).unwrap());
        assert_eq!(serde_json::from_slice::<serde_json::Value>(&payload).unwrap(), value);
    }
}

#[test]
fn strings_are_escaped_as_serde_json_escapes_them() {
    let mut every_ascii = String::new();
    for code in 0u8..128 {
        every_ascii.push(code as char);
    }
    let mut messages: Vec<String> = all_messages().iter().map(|m| m.to_string()).collect();
    messages.push(every_ascii);
    for message in messages {
        let payload = response_payload(&Response::Error { message: message.clone() });
        let value = tagged_json("Error", "message", serde_json::Value::from(message.clone()));
        assert_eq!(payload, serde_json::to_vec(&value).unwrap(), "message {:?}", message);
        assert_eq!(decode_response_payload(&payload), Ok(Response::Error { message }));
    }
}

#[test]
fn frame_is_length_then_payload() {
    assert_eq!(encode_command(&Command::Ping), b"\x00\x00\x00\x06\"Ping\"".to_vec());
    assert_eq!(encode_response(&Response::Pong), b"\x00\x00\x00\x06\"Pong\"".to_vec());
    let command = Command::StartSpeedTest { duration_secs: 2 };
    assert_eq!(encode_command(&command), framed(&command_payload(&command)));
}

#[test]
fn frame_length_is_big_endian() {
    let ports: Vec<u16> = (0..100).collect();
    let command = Command::OpenPorts { ports };
    let payload = command_payload(&command);
    assert_eq!(payload.len(), 23 + 10 + 2 * 90 + 99 + 3);
    let frame = encode_command(&command);
    assert_eq!(&frame[..4], &[0u8, 0, 1, 59]);
    assert_eq!(&frame[4..], &payload[..]);
    assert_eq!(announced_length(&frame), Some(315));
}

#[test]
fn announced_length_needs_four_bytes() {
    assert_eq!(announced_length(&[]), None);
    assert_eq!(announced_length(&[0, 0, 1]), None);
    assert_eq!(announced_length(&[0, 0, 1, 2]), Some(258));
    assert_eq!(announced_length(&[1, 2, 3, 4, 5]), Some(0x01020304));
    assert_eq!(announced_length(&[255, 255, 255, 255]), Some(u32::MAX));
}

#[test]
fn every_command_round_trips() {
    for command in all_commands() {
        let frame = encode_command(&command);
        let consumed = frame.len();
        assert_eq!(
            decode_command(&frame),
            Ok(Decoded::Message { message: command.clone(), consumed })
        );
        assert_eq!(decode_command_payload(&command_payload(&command)), Ok(command));
    }
}

#[test]
fn every_response_round_trips() {
    for response in all_responses() {
        let frame = encode_response(&response);
        let consumed = frame.len();
        assert_eq!(
            decode_response(&frame),
            Ok(Decoded::Message { message: response.clone(), consumed })
        );
        assert_eq!(decode_response_payload(&response_payload(&response)), Ok(response));
    }
}

#[test]
fn large_port_list_round_trips() {
    let ports: Vec<u16> = (0..=65535).collect();
    let command = Command::OpenPorts { ports };
    let frame = encode_command(&command);
    let consumed = frame.len();
    assert_eq!(decode_command(&frame), Ok(Decoded::Message { message: command, consumed }));
}

#[test]
fn decoding_leaves_what_follows_the_frame() {
    let mut stream = encode_command(&Command::Ping);
    let first = stream.len();
    stream.extend_from_slice(&encode_command(&Command::ClosePorts { ports: vec![5] }));
    assert_eq!(
        decode_command(&stream),
        Ok(Decoded::Message { message: Command::Ping, consumed: first })
    );
    assert_eq!(
        decode_command(&stream[first..]),
        Ok(Decoded::Message {
            message: Command::ClosePorts { ports: vec![5] },
            consumed: stream.len() - first,
        })
    );
}

#[test]
fn empty_stream_is_a_clean_close() {
    assert_eq!(decode_command(&[]), Ok(Decoded::Closed));
    assert_eq!(decode_response(&[]), Ok(Decoded::Closed));
}

#[test]
fn stream_that_ends_in_the_length_is_malformed() {
    assert_eq!(decode_command(&[0]), Err(MalformedFrame));
    assert_eq!(decode_command(&[0, 0, 0]), Err(MalformedFrame));
    assert_eq!(decode_response(&[0, 0]), Err(MalformedFrame));
}

#[test]
fn stream_that_ends_in_the_payload_is_malformed() {
    let frame = encode_command(&Command::Ping);
    for cut in 4..frame.len() {
        assert_eq!(decode_command(&frame[..cut]), Err(MalformedFrame));
    }
    assert_eq!(decode_command(&[255, 255, 255, 255, 1, 2, 3]), Err(MalformedFrame));
}

#[test]
fn unknown_payload_is_malformed() {
    let payloads: Vec<&[u8]> = vec![
        b"",
        b"\"Pong\"",
        b"\"ping\"",
        b"Ping",
        b"null",
        b"{}",
        b"{\"Reboot\":{\"now\":1}}",
        b"{\"OpenPorts\":{\"port\":[1]}}",
        b"{\"OpenPorts\":{\"ports\":[1]}",
        b"{\"OpenPorts\":{\"ports\":[1]}}}",
        b"{\"StartSpeedTest\":{\"duration_secs\":}}",
        b"{\"StartSpeedTest\":{\"duration_secs\":-1}}",
        b"{\"StartSpeedTest\":{\"duration_secs\":1.0}}",
        b"{\"StartSpeedTest\":{\"duration_secs\":\"1\"}}",
        b"{\"StartSpeedTest\":{\"duration_secs\":18446744073709551616}}",
    ];
    for payload in payloads {
        assert_eq!(decode_command_payload(payload), Err(MalformedFrame), "{:?}", payload);
        assert_eq!(decode_command(&framed(payload)), Err(MalformedFrame), "{:?}", payload);
    }
    assert_eq!(decode_response_payload(b"\"Ping\""), Err(MalformedFrame));
    assert_eq!(
        decode_response_payload(b"{\"SpeedTestReady\":{\"port\":65536}}"),
        Err(MalformedFrame)
    );
}

#[test]
fn only_the_canonical_payload_is_read_back() {
    let payloads: Vec<&[u8]> = vec![
        b" \"Ping\"",
        b"\"Ping\" ",
        b"{\"OpenPorts\": {\"ports\":[1]}}",
        b"{\"OpenPorts\":{\"ports\":[1, 2]}}",
        b"{\"OpenPorts\":{\"ports\":[01]}}",
        b"{\"OpenPorts\":{\"ports\":[+1]}}",
        b"{\"OpenPorts\":{\"ports\":[1-3]}}",
        b"{\"OpenPorts\":{\"ports\":[1,]}}",
        b"{\"OpenPorts\":{\"ports\":[,1]}}",
        b"{\"OpenPorts\":{\"ports\":[,]}}",
        b"{\"OpenPorts\":{\"ports\":[65536]}}",
        b"{\"OpenPorts\":{\"ports\":[3-1]}}",
        b"{\"StartSpeedTest\":{\"duration_secs\":010}}",
        b"{\"StartSpeedTest\":{\"duration_secs\":+10}}",
    ];
    for payload in payloads {
        assert_eq!(decode_command_payload(payload), Err(MalformedFrame), "{:?}", payload);
    }
}

#[test]
fn only_the_canonical_string_is_read_back() {
    let texts: Vec<&[u8]> = vec![
        b"\"a\"b\"",
        b"\"a\nb\"",
        b"\"\\u0041\"",
        b"\"\\u000A\"",
        b"\"\\u000a\"",
        b"\"\\u001F\"",
        b"\"\\u0120\"",
        b"\"\\/\"",
        b"\"\\x\"",
        b"\"\\\"",
        b"\"\\u00\"",
        b"\"",
        b"abc",
    ];
    for text in texts {
        let mut payload = b"{\"Error\":{\"message\":".to_vec();
        payload.extend_from_slice(text);
        payload.extend_from_slice(b"}}");
        assert_eq!(decode_response_payload(&payload), Err(MalformedFrame), "{:?}", text);
    }
}

#[test]
fn string_that_is_not_utf8_is_malformed() {
    let mut payload = b"{\"Error\":{\"message\":\"".to_vec();
    payload.extend_from_slice(&[0xFF, 0xFE]);
    payload.extend_from_slice(b"\"}}");
    assert_eq!(decode_response_payload(&payload), Err(MalformedFrame));
    let mut cut_short = b"{\"Error\":{\"message\":\"".to_vec();
    cut_short.extend_from_slice(&[0xE4, 0xB8]);
    cut_short.extend_from_slice(b"\"}}");
    assert_eq!(decode_response_payload(&cut_short), Err(MalformedFrame));
}

#[test]
fn string_is_decoded_from_utf8() {
    let mut payload = b"{\"Error\":{\"message\":\"".to_vec();
    payload.extend_from_slice(&[0xE4, 0xB8, 0x96, 0xC3, 0xA9]);
    payload.extend_from_slice(b"\"}}");
    assert_eq!(
        decode_response_payload(&payload),
        Ok(Response::Error { message: "世é".to_string() })
    );
}

#[test]
fn different_messages_have_different_payloads() {
    let mut payloads: Vec<Vec<u8>> = all_commands().iter().map(command_payload).collect();
    payloads.extend(all_responses().iter().map(response_payload));
    for i in 0..payloads.len() {
        for j in 0..i {
            assert_ne!(payloads[i], payloads[j]);
        }
    }
}
