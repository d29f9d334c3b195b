//! The texts of the values that a message carries: decimal numbers, arrays of
//! ports and quoted strings, each written in one canonical way and read back
//! only from that.

use crate::decimal::{decimal, decimal_digits, is_digit, lemma_first_index_of, NumberError};
use crate::ports::{
    expand_port_spec, expand_ports, port_number, token_ports, PortSpecError, COMMA, DASH,
    MAX_PORT,
};
use vstd::prelude::*;
use vstd::slice::*;
use vstd::string::*;
use vstd::utf8::*;

verus! {

pub const OPEN_BRACKET: u8 = 0x5B;

pub const CLOSE_BRACKET: u8 = 0x5D;

/// Appends `bytes` to `out`.
pub fn append(out: &mut Vec<u8>, bytes: &[u8])
    ensures
        final(out)@ == old(out)@ + bytes@,
{
    let mut i: usize = 0;
    proof {
        assert(out@ =~= old(out)@ + bytes@.take(0));
    }
    while i < bytes.len()
        invariant
            i <= bytes@.len(),
            out@ == old(out)@ + bytes@.take(i as int),
        decreases bytes@.len() - i,
    {
        out.push(bytes[i]);
        proof {
            assert(out@ =~= old(out)@ + bytes@.take(i + 1));
        }
        i += 1;
    }
    proof {
        assert(bytes@.take(i as int) =~= bytes@);
    }
}

/// Whether the bytes from `start` to `end` are exactly `pattern`.
pub fn region_is(bytes: &[u8], start: usize, end: usize, pattern: &[u8]) -> (same: bool)
    requires
        start <= end <= bytes@.len(),
    ensures
        same == (bytes@.subrange(start as int, end as int) == pattern@),
{
    let ghost region = bytes@.subrange(start as int, end as int);
    if end - start != pattern.len() {
        return false;
    }
    let mut i: usize = 0;
    while i < pattern.len()
        invariant
            i <= pattern@.len() == end - start,
            start <= end <= bytes@.len(),
            region == bytes@.subrange(start as int, end as int),
            forall|j: int| 0 <= j < i ==> region[j] == pattern@[j],
        decreases pattern@.len() - i,
    {
        if bytes[start + i] != pattern[i] {
            proof {
                assert(region[i as int] != pattern@[i as int]);
            }
            return false;
        }
        i += 1;
    }
    proof {
        assert(region =~= pattern@);
    }
    true
}

/// The digits of a number are digits, and there is at least one.
pub proof fn lemma_decimal_digits(n: nat)
    ensures
        decimal_digits(n).len() >= 1,
        forall|i: int| 0 <= i < decimal_digits(n).len() ==> is_digit(#[trigger] decimal_digits(n)[i]),
    decreases n,
{
    if n >= 10 {
        lemma_decimal_digits(n / 10);
    }
}

/// Reading the digits of a number gives the number back.
pub proof fn lemma_decimal_of_digits(n: nat, max: nat)
    requires
        n <= max,
    ensures
        decimal(decimal_digits(n), max) == Ok::<nat, NumberError>(n),
    decreases n,
{
    let digits = decimal_digits(n);
    if n < 10 {
        assert(digits.drop_last() =~= Seq::<u8>::empty());
        assert(decimal(digits.drop_last(), max) == Ok::<nat, NumberError>(0));
    } else {
        assert(digits.drop_last() =~= decimal_digits(n / 10));
        lemma_decimal_of_digits(n / 10, max);
    }
}

/// Appends the digits of `n`.
pub fn push_decimal(out: &mut Vec<u8>, n: u64)
    ensures
        final(out)@ == old(out)@ + decimal_digits(n as nat),
    decreases n,
{
    if n >= 10 {
        push_decimal(out, n / 10);
    }
    out.push(0x30 + (n % 10) as u8);
    proof {
        assert(out@ =~= old(out)@ + decimal_digits(n as nat));
    }
}

/// Each of `ports` in decimal, with a comma before it.
pub open spec fn more_ports(ports: Seq<u16>) -> Seq<u8>
    decreases ports.len(),
{
    if ports.len() == 0 {
        Seq::empty()
    } else {
        seq![COMMA] + decimal_digits(ports[0] as nat) + more_ports(ports.skip(1))
    }
}

/// The ports in decimal, with commas between them.
pub open spec fn joined_ports(ports: Seq<u16>) -> Seq<u8> {
    if ports.len() == 0 {
        Seq::empty()
    } else {
        decimal_digits(ports[0] as nat) + more_ports(ports.skip(1))
    }
}

/// The text of an array of ports: `[80,1000,1001]`, and `[]` for none.
pub open spec fn port_array_text(ports: Seq<u16>) -> Seq<u8> {
    seq![OPEN_BRACKET] + joined_ports(ports) + seq![CLOSE_BRACKET]
}

/// Appends the text of an array of ports.
pub fn push_port_array(out: &mut Vec<u8>, ports: &Vec<u16>)
    ensures
        final(out)@ == old(out)@ + port_array_text(ports@),
{
    out.push(OPEN_BRACKET);
    if ports.len() > 0 {
        push_decimal(out, ports[0] as u64);
        let mut i: usize = 1;
        proof {
            assert(out@ + more_ports(ports@.skip(1)) =~= old(out)@ + seq![OPEN_BRACKET]
                + joined_ports(ports@));
        }
        while i < ports.len()
            invariant
                1 <= i <= ports@.len(),
                out@ + more_ports(ports@.skip(i as int)) == old(out)@ + seq![OPEN_BRACKET]
                    + joined_ports(ports@),
            decreases ports@.len() - i,
        {
            let ghost before = out@;
            out.push(COMMA);
            push_decimal(out, ports[i] as u64);
            proof {
                let rest = ports@.skip(i as int);
                assert(rest[0] == ports@[i as int]);
                assert(rest.skip(1) =~= ports@.skip(i + 1));
                assert(out@ + more_ports(ports@.skip(i + 1)) =~= before + more_ports(rest));
            }
            i += 1;
        }
        proof {
            assert(more_ports(ports@.skip(i as int)) =~= Seq::<u8>::empty());
            assert(out@ =~= old(out)@ + seq![OPEN_BRACKET] + joined_ports(ports@));
        }
    }
    out.push(CLOSE_BRACKET);
    proof {
        assert(out@ =~= old(out)@ + port_array_text(ports@));
    }
}

/// The digits of a port, taken as a token of a port specification, name that
/// port.
pub proof fn lemma_token_of_digits(port: u16)
    ensures
        token_ports(decimal_digits(port as nat)) == Ok::<Seq<u16>, PortSpecError>(
            seq![port],
        ),
{
    let digits = decimal_digits(port as nat);
    lemma_decimal_digits(port as nat);
    lemma_decimal_of_digits(port as nat, MAX_PORT as nat);
    assert forall|j: int| 0 <= j < digits.len() implies digits[j] != DASH by {
        assert(is_digit(digits[j]));
    }
    lemma_first_index_of(digits, DASH, digits.len() as int);
    assert(is_digit(digits[0]));
    assert(port_number(digits) == Ok::<u16, PortSpecError>(port));
}

/// Ports joined by commas, taken as a port specification, name those ports.
pub proof fn lemma_expand_joined(first: u16, rest: Seq<u16>)
    ensures
        expand_ports(decimal_digits(first as nat) + more_ports(rest)) == Ok::<
            Seq<u16>,
            PortSpecError,
        >(seq![first] + rest),
    decreases rest.len(),
{
    let digits = decimal_digits(first as nat);
    let text = digits + more_ports(rest);
    lemma_decimal_digits(first as nat);
    lemma_token_of_digits(first);
    assert forall|j: int| 0 <= j < digits.len() implies text[j] != COMMA by {
        assert(text[j] == digits[j]);
        assert(is_digit(digits[j]));
    }
    if rest.len() == 0 {
        assert(text =~= digits);
        lemma_first_index_of(text, COMMA, text.len() as int);
        assert(text.take(text.len() as int) =~= text);
        assert(seq![first] + rest =~= seq![first]);
    } else {
        let tail = decimal_digits(rest[0] as nat) + more_ports(rest.skip(1));
        assert(more_ports(rest) =~= seq![COMMA] + tail);
        assert(text[digits.len() as int] == COMMA);
        lemma_first_index_of(text, COMMA, digits.len() as int);
        assert(text.take(digits.len() as int) =~= digits);
        assert(text.skip(digits.len() as int + 1) =~= tail);
        lemma_expand_joined(rest[0], rest.skip(1));
        assert(seq![rest[0]] + rest.skip(1) =~= rest);
    }
}

/// Reads the bytes from `start` to `end` as the text of an array of ports.
/// Only the canonical text of an array is accepted.
pub fn parse_port_array(bytes: &[u8], start: usize, end: usize) -> (r: Option<Vec<u16>>)
    requires
        start <= end <= bytes@.len(),
    ensures
        match r {
            Some(ports) => bytes@.subrange(start as int, end as int) == port_array_text(ports@),
            None => forall|ports: Seq<u16>| #[trigger]
                port_array_text(ports) != bytes@.subrange(start as int, end as int),
        },
{
    let ghost region = bytes@.subrange(start as int, end as int);
    if end - start < 2 || bytes[start] != OPEN_BRACKET || bytes[end - 1] != CLOSE_BRACKET {
        proof {
            assert forall|ports: Seq<u16>| #[trigger] port_array_text(ports) != region by {
                let text = port_array_text(ports);
                assert(text[0] == OPEN_BRACKET);
                assert(text[text.len() - 1] == CLOSE_BRACKET);
                if text == region {
                    assert(region[0] == bytes@[start as int]);
                    assert(region[region.len() - 1] == bytes@[end - 1]);
                }
            }
        }
        return None;
    }
    let ghost inner = bytes@.subrange(start + 1, end - 1);
    proof {
        assert forall|ports: Seq<u16>| #[trigger] port_array_text(ports) == region implies inner
            == joined_ports(ports) by {
            assert(port_array_text(ports).subrange(1, port_array_text(ports).len() - 1)
                =~= joined_ports(ports));
            assert(region.subrange(1, region.len() - 1) =~= inner);
        }
        assert forall|ports: Seq<u16>|
            ports.len() > 0 && #[trigger] port_array_text(ports) == region implies expand_ports(
            inner,
        ) == Ok::<Seq<u16>, PortSpecError>(ports) by {
            lemma_expand_joined(ports[0], ports.skip(1));
            assert(seq![ports[0]] + ports.skip(1) =~= ports);
        }
        assert forall|ports: Seq<u16>|
            ports.len() > 0 && #[trigger] port_array_text(ports) == region implies inner.len()
            > 0 by {
            lemma_decimal_digits(ports[0] as nat);
        }
    }
    // The items are read as a port specification, which admits more than an
    // array does; the comparison with the canonical text below decides.
    let candidate: Vec<u16> = if end - start == 2 {
        Vec::new()
    } else {
        match expand_port_spec(slice_subrange(bytes, start + 1, end - 1)) {
            Ok(ports) => ports,
            Err(_) => {
                return None;
            },
        }
    };
    let mut text: Vec<u8> = Vec::new();
    push_port_array(&mut text, &candidate);
    proof {
        assert(text@ =~= port_array_text(candidate@));
    }
    if region_is(bytes, start, end, text.as_slice()) {
        Some(candidate)
    } else {
        proof {
            assert forall|ports: Seq<u16>| #[trigger] port_array_text(ports) != region by {
                if port_array_text(ports) == region {
                    if ports.len() == 0 {
                        assert(inner.len() == 0);
                        assert(candidate@ =~= ports);
                    } else {
                        assert(candidate@ == ports);
                    }
                }
            }
        }
        None
    }
}

pub const QUOTE: u8 = 0x22;

pub const BACKSLASH: u8 = 0x5C;

/// The letter `u`, which starts the escape of a control byte by its number.
pub const LETTER_U: u8 = 0x75;

/// The hexadecimal digit of a value below sixteen, in lower case.
pub open spec fn hex_digit(v: int) -> u8 {
    if v < 10 {
        (0x30 + v) as u8
    } else {
        (0x61 + v - 10) as u8
    }
}

/// The value of a hexadecimal digit in lower case.
pub open spec fn hex_value(b: u8) -> Option<int> {
    if 0x30 <= b <= 0x39 {
        Some(b - 0x30)
    } else if 0x61 <= b <= 0x66 {
        Some(b - 0x61 + 10)
    } else {
        None
    }
}

/// The byte that a backslash and `letter` stand for, for the escapes of two
/// bytes: `\"`, `\\`, `\b`, `\f`, `\n`, `\r`, `\t`.
pub open spec fn escape_target(letter: u8) -> Option<u8> {
    if letter == 0x22 {
        Some(0x22u8)
    } else if letter == 0x5C {
        Some(0x5Cu8)
    } else if letter == 0x62 {
        Some(0x08u8)
    } else if letter == 0x66 {
        Some(0x0Cu8)
    } else if letter == 0x6E {
        Some(0x0Au8)
    } else if letter == 0x72 {
        Some(0x0Du8)
    } else if letter == 0x74 {
        Some(0x09u8)
    } else {
        None
    }
}

/// How one byte of a string is written between the quotes: the quote and the
/// backslash behind a backslash, the control bytes by their letter or, where
/// they have none, as `\u00` and two hexadecimal digits, and every other byte
/// as it is.
pub open spec fn escape_byte(b: u8) -> Seq<u8> {
    if b == 0x22 {
        seq![BACKSLASH, 0x22u8]
    } else if b == 0x5C {
        seq![BACKSLASH, 0x5Cu8]
    } else if b == 0x08 {
        seq![BACKSLASH, 0x62u8]
    } else if b == 0x0C {
        seq![BACKSLASH, 0x66u8]
    } else if b == 0x0A {
        seq![BACKSLASH, 0x6Eu8]
    } else if b == 0x0D {
        seq![BACKSLASH, 0x72u8]
    } else if b == 0x09 {
        seq![BACKSLASH, 0x74u8]
    } else if b < 0x20 {
        seq![BACKSLASH, LETTER_U, 0x30u8, 0x30u8, hex_digit(b as int / 16), hex_digit(b as int % 16)]
    } else {
        seq![b]
    }
}

/// The bytes of a string as written between the quotes.
pub open spec fn escaped(s: Seq<u8>) -> Seq<u8>
    decreases s.len(),
{
    if s.len() == 0 {
        Seq::empty()
    } else {
        escape_byte(s[0]) + escaped(s.skip(1))
    }
}

/// `done`, followed by `rest` if there is one.
pub open spec fn after_bytes(done: Seq<u8>, rest: Option<Seq<u8>>) -> Option<Seq<u8>> {
    match rest {
        Some(more) => Some(done + more),
        None => None,
    }
}

/// The bytes that an escaped text stands for, read generously: any byte but
/// a backslash stands for itself, and the two digits after `\u` are not
/// looked at. None where a backslash is followed by nothing that is known.
pub open spec fn unescaped(s: Seq<u8>) -> Option<Seq<u8>>
    decreases s.len(),
{
    if s.len() == 0 {
        Some(Seq::empty())
    } else if s[0] != BACKSLASH {
        after_bytes(seq![s[0]], unescaped(s.skip(1)))
    } else if s.len() < 2 {
        None
    } else if s[1] == LETTER_U {
        if s.len() < 6 {
            None
        } else {
            match (hex_value(s[4]), hex_value(s[5])) {
                (Some(high), Some(low)) => after_bytes(
                    seq![(high * 16 + low) as u8],
                    unescaped(s.skip(6)),
                ),
                _ => None,
            }
        }
    } else {
        match escape_target(s[1]) {
            Some(b) => after_bytes(seq![b], unescaped(s.skip(2))),
            None => None,
        }
    }
}

/// The text of a string: its UTF-8 bytes, escaped, between quotes.
pub open spec fn string_text(chars: Seq<char>) -> Seq<u8> {
    seq![QUOTE] + escaped(encode_utf8(chars)) + seq![QUOTE]
}

/// Reading back what was written for one byte gives the byte.
pub proof fn lemma_unescape_step(b: u8, rest: Seq<u8>)
    ensures
        unescaped(escape_byte(b) + rest) == after_bytes(seq![b], unescaped(rest)),
{
    let written = escape_byte(b);
    let s = written + rest;
    if b == 0x22 || b == 0x5C || b == 0x08 || b == 0x0C || b == 0x0A || b == 0x0D || b == 0x09 {
        assert(s[0] == written[0]);
        assert(s[1] == written[1]);
        assert(s.skip(2) =~= rest);
    } else if b < 0x20 {
        assert(s[0] == written[0]);
        assert(s[1] == written[1]);
        assert(s[4] == written[4]);
        assert(s[5] == written[5]);
        assert(s.skip(6) =~= rest);
        assert(hex_value(hex_digit(b as int / 16)) == Some(b as int / 16));
        assert(hex_value(hex_digit(b as int % 16)) == Some(b as int % 16));
    } else {
        assert(s[0] == b);
        assert(s.skip(1) =~= rest);
    }
}

/// Reading back what was written for a string gives the string.
pub proof fn lemma_unescaped_escaped(s: Seq<u8>)
    ensures
        unescaped(escaped(s)) == Some(s),
    decreases s.len(),
{
    if s.len() == 0 {
    } else {
        lemma_unescaped_escaped(s.skip(1));
        lemma_unescape_step(s[0], escaped(s.skip(1)));
        assert(seq![s[0]] + s.skip(1) =~= s);
    }
}

fn hex_digit_of(v: u8) -> (digit: u8)
    requires
        v < 16,
    ensures
        digit == hex_digit(v as int),
{
    if v < 10 {
        0x30 + v
    } else {
        0x61 + (v - 10)
    }
}

fn hex_value_of(b: u8) -> (value: Option<u8>)
    ensures
        match value {
            Some(v) => hex_value(b) == Some(v as int) && v < 16,
            None => hex_value(b) is None,
        },
{
    if 0x30 <= b && b <= 0x39 {
        Some(b - 0x30)
    } else if 0x61 <= b && b <= 0x66 {
        Some(b - 0x61 + 10)
    } else {
        None
    }
}

fn escape_target_of(letter: u8) -> (target: Option<u8>)
    ensures
        target == escape_target(letter),
{
    if letter == 0x22 {
        Some(0x22)
    } else if letter == 0x5C {
        Some(0x5C)
    } else if letter == 0x62 {
        Some(0x08)
    } else if letter == 0x66 {
        Some(0x0C)
    } else if letter == 0x6E {
        Some(0x0A)
    } else if letter == 0x72 {
        Some(0x0D)
    } else if letter == 0x74 {
        Some(0x09)
    } else {
        None
    }
}

fn push_escaped_byte(out: &mut Vec<u8>, b: u8)
    ensures
        final(out)@ == old(out)@ + escape_byte(b),
{
    if b == 0x22 || b == 0x5C {
        out.push(BACKSLASH);
        out.push(b);
    } else if b == 0x08 {
        out.push(BACKSLASH);
        out.push(0x62);
    } else if b == 0x0C {
        out.push(BACKSLASH);
        out.push(0x66);
    } else if b == 0x0A {
        out.push(BACKSLASH);
        out.push(0x6E);
    } else if b == 0x0D {
        out.push(BACKSLASH);
        out.push(0x72);
    } else if b == 0x09 {
        out.push(BACKSLASH);
        out.push(0x74);
    } else if b < 0x20 {
        out.push(BACKSLASH);
        out.push(LETTER_U);
        out.push(0x30);
        out.push(0x30);
        out.push(hex_digit_of(b / 16));
        out.push(hex_digit_of(b % 16));
    } else {
        out.push(b);
    }
    proof {
        assert(out@ =~= old(out)@ + escape_byte(b));
    }
}

/// Appends `bytes`, escaped.
pub fn push_escaped(out: &mut Vec<u8>, bytes: &[u8])
    ensures
        final(out)@ == old(out)@ + escaped(bytes@),
{
    let mut i: usize = 0;
    proof {
        assert(bytes@.skip(0) =~= bytes@);
    }
    while i < bytes.len()
        invariant
            i <= bytes@.len(),
            out@ + escaped(bytes@.skip(i as int)) == old(out)@ + escaped(bytes@),
        decreases bytes@.len() - i,
    {
        let ghost before = out@;
        push_escaped_byte(out, bytes[i]);
        proof {
            let rest = bytes@.skip(i as int);
            assert(rest[0] == bytes@[i as int]);
            assert(rest.skip(1) =~= bytes@.skip(i + 1));
            assert(out@ + escaped(bytes@.skip(i + 1)) =~= before + escaped(rest));
        }
        i += 1;
    }
    proof {
        assert(escaped(bytes@.skip(i as int)) =~= Seq::<u8>::empty());
        assert(out@ =~= old(out)@ + escaped(bytes@));
    }
}

/// Appends the text of a string.
pub fn push_string(out: &mut Vec<u8>, s: &str)
    ensures
        final(out)@ == old(out)@ + string_text(s@),
{
    out.push(QUOTE);
    push_escaped(out, s.as_bytes());
    out.push(QUOTE);
    proof {
        assert(out@ =~= old(out)@ + string_text(s@));
    }
}

/// Reads the bytes from `start` to `end` as escaped text.
pub fn unescape(bytes: &[u8], start: usize, end: usize) -> (r: Option<Vec<u8>>)
    requires
        start <= end <= bytes@.len(),
    ensures
        match r {
            Some(raw) => unescaped(bytes@.subrange(start as int, end as int)) == Some(raw@),
            None => unescaped(bytes@.subrange(start as int, end as int)) is None,
        },
{
    let ghost region = bytes@.subrange(start as int, end as int);
    let mut out: Vec<u8> = Vec::new();
    let mut at: usize = start;
    proof {
        assert(region.skip(0) =~= region);
        match unescaped(region) {
            Some(all) => assert(out@ + all =~= all),
            None => {},
        }
    }
    while at < end
        invariant
            start <= at <= end <= bytes@.len(),
            region == bytes@.subrange(start as int, end as int),
            unescaped(region) == after_bytes(out@, unescaped(region.skip(at - start))),
        decreases end - at,
    {
        let ghost rest = region.skip(at - start);
        let ghost before = out@;
        let b: u8 = bytes[at];
        proof {
            assert(rest.len() == end - at);
            assert(rest[0] == b);
        }
        let step: usize;
        let target: u8;
        if b != BACKSLASH {
            step = 1;
            target = b;
        } else if end - at < 2 {
            return None;
        } else {
            let letter: u8 = bytes[at + 1];
            proof {
                assert(rest[1] == letter);
            }
            if letter == LETTER_U {
                if end - at < 6 {
                    return None;
                }
                proof {
                    assert(rest[4] == bytes@[at + 4]);
                    assert(rest[5] == bytes@[at + 5]);
                }
                match (hex_value_of(bytes[at + 4]), hex_value_of(bytes[at + 5])) {
                    (Some(high), Some(low)) => {
                        step = 6;
                        target = high * 16 + low;
                    },
                    _ => {
                        return None;
                    },
                }
            } else {
                match escape_target_of(letter) {
                    Some(t) => {
                        step = 2;
                        target = t;
                    },
                    None => {
                        return None;
                    },
                }
            }
        }
        out.push(target);
        proof {
            assert(rest.skip(step as int) =~= region.skip(at + step - start));
            assert(unescaped(rest) == after_bytes(seq![target], unescaped(rest.skip(step as int))));
            match unescaped(rest.skip(step as int)) {
                Some(more) => assert(before + (seq![target] + more) =~= out@ + more),
                None => {},
            }
        }
        at += step;
    }
    proof {
        assert(out@ + Seq::<u8>::empty() =~= out@);
    }
    Some(out)
}

/// `String::from_utf8` of the standard library: a string with exactly these
/// bytes where they are well-formed UTF-8, and none where they are not.
#[verifier::external_body]
fn string_from_utf8(bytes: Vec<u8>) -> (r: Option<String>)
    ensures
        r matches Some(s) ==> valid_utf8(bytes@) && s@ == decode_utf8(bytes@),
        r is None ==> !valid_utf8(bytes@),
{
    String::from_utf8(bytes).ok()
}

/// Reads the bytes from `start` to `end` as the text of a string. Only the
/// canonical text of a string is accepted.
pub fn parse_string(bytes: &[u8], start: usize, end: usize) -> (r: Option<String>)
    requires
        start <= end <= bytes@.len(),
    ensures
        match r {
            Some(s) => bytes@.subrange(start as int, end as int) == string_text(s@),
            None => forall|chars: Seq<char>| #[trigger]
                string_text(chars) != bytes@.subrange(start as int, end as int),
        },
{
    let ghost region = bytes@.subrange(start as int, end as int);
    if end - start < 2 || bytes[start] != QUOTE || bytes[end - 1] != QUOTE {
        proof {
            assert forall|chars: Seq<char>| #[trigger] string_text(chars) != region by {
                let text = string_text(chars);
                assert(text[0] == QUOTE);
                assert(text[text.len() - 1] == QUOTE);
                if text == region {
                    assert(region[0] == bytes@[start as int]);
                    assert(region[region.len() - 1] == bytes@[end - 1]);
                }
            }
        }
        return None;
    }
    let ghost inner = bytes@.subrange(start + 1, end - 1);
    proof {
        assert forall|chars: Seq<char>| #[trigger] string_text(chars) == region implies unescaped(
            inner,
        ) == Some(encode_utf8(chars)) by {
            assert(string_text(chars).subrange(1, string_text(chars).len() - 1) =~= escaped(
                encode_utf8(chars),
            ));
            assert(region.subrange(1, region.len() - 1) =~= inner);
            lemma_unescaped_escaped(encode_utf8(chars));
        }
    }
    let raw: Vec<u8> = match unescape(bytes, start + 1, end - 1) {
        Some(raw) => raw,
        None => {
            return None;
        },
    };
    proof {
        assert forall|chars: Seq<char>| #[trigger] string_text(chars) == region implies valid_utf8(
            raw@,
        ) && decode_utf8(raw@) == chars by {
            encode_utf8_valid_utf8(chars);
            encode_utf8_decode_utf8(chars);
        }
    }
    let candidate: String = match string_from_utf8(raw) {
        Some(s) => s,
        None => {
            return None;
        },
    };
    let mut text: Vec<u8> = Vec::new();
    push_string(&mut text, candidate.as_str());
    proof {
        assert(text@ =~= string_text(candidate@));
    }
    if region_is(bytes, start, end, text.as_slice()) {
        Some(candidate)
    } else {
        None
    }
}

} // verus!
