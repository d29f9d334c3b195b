use netool::ports::{expand_port_spec, parse_ports, PortSpecError};

#[test]
fn expands_ports_and_ranges_in_order() {
    assert_eq!(parse_ports("80,1000-1002"), Ok(vec![80, 1000, 1001, 1002]));
}

#[test]
fn refuses_text_that_is_no_number() {
    assert_eq!(parse_ports("abc"), Err(PortSpecError::InvalidDigit));
}

#[test]
fn range_of_one_port() {
    assert_eq!(parse_ports("5-5"), Ok(vec![5]));
}

#[test]
fn keeps_duplicates() {
    assert_eq!(parse_ports("80,80,79-81"), Ok(vec![80, 80, 79, 80, 81]));
}

#[test]
fn descending_range_names_no_port() {
    assert_eq!(parse_ports("10-5"), Ok(vec![]));
    assert_eq!(parse_ports("1,10-5,2"), Ok(vec![1, 2]));
}

#[test]
fn accepts_plus_sign_and_leading_zeros() {
    assert_eq!(parse_ports("+80"), Ok(vec![80]));
    assert_eq!(parse_ports("0080"), Ok(vec![80]));
    assert_eq!(parse_ports("+1-+3"), Ok(vec![1, 2, 3]));
}

#[test]
fn refuses_missing_numbers() {
    assert_eq!(parse_ports(""), Err(PortSpecError::EmptyNumber));
    assert_eq!(parse_ports("80,"), Err(PortSpecError::EmptyNumber));
    assert_eq!(parse_ports(",80"), Err(PortSpecError::EmptyNumber));
    assert_eq!(parse_ports("-5"), Err(PortSpecError::EmptyNumber));
    assert_eq!(parse_ports("5-"), Err(PortSpecError::EmptyNumber));
}

#[test]
fn refuses_sign_without_digits() {
    assert_eq!(parse_ports("+"), Err(PortSpecError::InvalidDigit));
}

#[test]
fn refuses_ports_above_the_highest() {
    assert_eq!(parse_ports("65535"), Ok(vec![65535]));
    assert_eq!(parse_ports("65536"), Err(PortSpecError::OutOfRange));
    assert_eq!(parse_ports("1-70000"), Err(PortSpecError::OutOfRange));
}

#[test]
fn first_fault_in_a_number_decides() {
    assert_eq!(parse_ports("6553x"), Err(PortSpecError::InvalidDigit));
    assert_eq!(parse_ports("99999x"), Err(PortSpecError::OutOfRange));
}

#[test]
fn first_refused_token_decides() {
    assert_eq!(parse_ports("80,x,70000"), Err(PortSpecError::InvalidDigit));
    assert_eq!(parse_ports("80,70000,x"), Err(PortSpecError::OutOfRange));
    assert_eq!(parse_ports("x-70000"), Err(PortSpecError::InvalidDigit));
}

#[test]
fn refuses_more_than_one_dash() {
    assert_eq!(parse_ports("1-2-3"), Err(PortSpecError::MalformedRange));
    assert_eq!(parse_ports("--"), Err(PortSpecError::MalformedRange));
    assert_eq!(parse_ports("x-y-z"), Err(PortSpecError::MalformedRange));
}

#[test]
fn refuses_whitespace() {
    assert_eq!(parse_ports(" 80"), Err(PortSpecError::InvalidDigit));
    assert_eq!(parse_ports("80, 81"), Err(PortSpecError::InvalidDigit));
}

#[test]
fn refuses_text_outside_ascii() {
    assert_eq!(parse_ports("８０"), Err(PortSpecError::InvalidDigit));
}

#[test]
fn full_range_has_every_port() {
    let ports = parse_ports("0-65535").unwrap();
    assert_eq!(ports.len(), 65536);
    assert_eq!(ports[0], 0);
    assert_eq!(ports[1], 1);
    assert_eq!(ports[65535], 65535);
}

#[test]
fn bytes_and_text_agree() {
    assert_eq!(expand_port_spec(b"80,1000-1002"), parse_ports("80,1000-1002"));
    assert_eq!(expand_port_spec(b"abc"), parse_ports("abc"));
    assert_eq!(expand_port_spec(&[0xFF]), Err(PortSpecError::InvalidDigit));
}

#[test]
fn single_numbers_agree_with_the_standard_parser() {
    let tokens = [
        "0", "1", "9", "10", "080", "+7", "65535", "65536", "655350", "", "+", "a", "1a", "a1",
        "1 ", "00000000000000000001", "4294967296",
    ];
    for token in tokens {
        let expected: Option<Vec<u16>> = token.parse::<u16>().ok().map(|port| vec![port]);
        assert_eq!(parse_ports(token).ok(), expected, "token {:?}", token);
    }
}
