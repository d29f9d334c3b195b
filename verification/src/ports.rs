//! The textual port specification of the port test: comma-separated tokens,
//! each a port or an inclusive range `start-end`.

use crate::decimal::{decimal, first_index_of, find_byte, parse_decimal, NumberError};
use vstd::prelude::*;
use vstd::string::*;

verus! {

pub const COMMA: u8 = 0x2C;

pub const DASH: u8 = 0x2D;

pub const PLUS: u8 = 0x2B;

/// The highest port number.
pub const MAX_PORT: u64 = 65535;

/// Why a port specification was refused.
#[derive(Debug, Clone, Copy, PartialEq, Eq, Structural)]
pub enum PortSpecError {
    /// A port is missing: an empty token, or a range without one of its ends.
    EmptyNumber,
    /// A port holds something other than decimal digits after its optional
    /// `+` sign.
    InvalidDigit,
    /// A port above 65535.
    OutOfRange,
    /// A token with more than one `-`.
    MalformedRange,
}

/// The port that `tok` writes: an optional `+`, then decimal digits, at
/// least one, that stay within 65535.
pub open spec fn port_number(tok: Seq<u8>) -> Result<u16, PortSpecError> {
    if tok.len() == 0 {
        Err(PortSpecError::EmptyNumber)
    } else {
        let digits = if tok[0] == PLUS {
            tok.skip(1)
        } else {
            tok
        };
        if digits.len() == 0 {
            Err(PortSpecError::InvalidDigit)
        } else {
            match decimal(digits, MAX_PORT as nat) {
                Ok(v) => Ok(v as u16),
                Err(NumberError::InvalidDigit) => Err(PortSpecError::InvalidDigit),
                Err(NumberError::TooLarge) => Err(PortSpecError::OutOfRange),
            }
        }
    }
}

/// The ports from `first` to `last`, both included, in rising order; none
/// where `first` is above `last`.
pub open spec fn port_range(first: u16, last: u16) -> Seq<u16> {
    Seq::new(
        if first <= last {
            (last - first + 1) as nat
        } else {
            0
        },
        |i: int| (first + i) as u16,
    )
}

/// The ports of one token. A token without `-` is one port; one with a
/// single `-` is a range between the ports on its two sides; more than one
/// `-` is refused before either side is read.
pub open spec fn token_ports(tok: Seq<u8>) -> Result<Seq<u16>, PortSpecError> {
    let dash = first_index_of(tok, DASH);
    if dash >= tok.len() {
        match port_number(tok) {
            Ok(port) => Ok(seq![port]),
            Err(e) => Err(e),
        }
    } else {
        let high = tok.skip(dash + 1);
        if first_index_of(high, DASH) < high.len() {
            Err(PortSpecError::MalformedRange)
        } else {
            match port_number(tok.take(dash)) {
                Err(e) => Err(e),
                Ok(first) => match port_number(high) {
                    Err(e) => Err(e),
                    Ok(last) => Ok(port_range(first, last)),
                },
            }
        }
    }
}

/// `done`, followed by what `rest` yields; the error of `rest` if it has one.
pub open spec fn followed_by(done: Seq<u16>, rest: Result<Seq<u16>, PortSpecError>) -> Result<
    Seq<u16>,
    PortSpecError,
> {
    match rest {
        Ok(more) => Ok(done + more),
        Err(e) => Err(e),
    }
}

/// The ports that a specification stands for, in the order written and with
/// repetitions kept; the error of its first token that is refused.
pub open spec fn expand_ports(text: Seq<u8>) -> Result<Seq<u16>, PortSpecError>
    decreases text.len(),
{
    let comma = first_index_of(text, COMMA);
    match token_ports(text.take(comma)) {
        Err(e) => Err(e),
        Ok(head) => if comma < 0 || comma >= text.len() {
            Ok(head)
        } else {
            followed_by(head, expand_ports(text.skip(comma + 1)))
        },
    }
}

fn parse_port_number(bytes: &[u8], start: usize, end: usize) -> (r: Result<u16, PortSpecError>)
    requires
        start <= end <= bytes@.len(),
    ensures
        r == port_number(bytes@.subrange(start as int, end as int)),
{
    if start == end {
        return Err(PortSpecError::EmptyNumber);
    }
    let from: usize = if bytes[start] == PLUS {
        start + 1
    } else {
        start
    };
    if from == end {
        return Err(PortSpecError::InvalidDigit);
    }
    proof {
        let tok = bytes@.subrange(start as int, end as int);
        assert(tok[0] == bytes@[start as int]);
        assert(bytes@.subrange(from as int, end as int) =~= if tok[0] == PLUS {
            tok.skip(1)
        } else {
            tok
        });
    }
    match parse_decimal(bytes, from, end, MAX_PORT) {
        Ok(v) => Ok(v as u16),
        Err(NumberError::InvalidDigit) => Err(PortSpecError::InvalidDigit),
        Err(NumberError::TooLarge) => Err(PortSpecError::OutOfRange),
    }
}

fn push_range(ports: &mut Vec<u16>, first: u16, last: u16)
    ensures
        final(ports)@ == old(ports)@ + port_range(first, last),
{
    let mut next: u32 = first as u32;
    let ghost before = ports@;
    proof {
        assert(ports@ =~= before + port_range(first, last).take(0));
    }
    while next <= last as u32
        invariant
            first <= next <= last + 1 || (first > last && next == first),
            ports@ == before + port_range(first, last).take(next - first),
        decreases last + 1 - next,
    {
        ports.push(next as u16);
        proof {
            let all = port_range(first, last);
            assert(all[next - first] == next as u16);
            assert(all.take(next - first + 1) =~= all.take(next - first).push(next as u16));
            assert(ports@ =~= before + all.take(next - first + 1));
        }
        next += 1;
    }
    proof {
        let all = port_range(first, last);
        assert(all.take(next - first) =~= all);
    }
}

fn parse_token(bytes: &[u8], start: usize, end: usize, ports: &mut Vec<u16>) -> (r: Result<
    (),
    PortSpecError,
>)
    requires
        start <= end <= bytes@.len(),
    ensures
        match r {
            Ok(()) => token_ports(bytes@.subrange(start as int, end as int)) matches Ok(more)
                && final(ports)@ == old(ports)@ + more,
            Err(e) => token_ports(bytes@.subrange(start as int, end as int)) == Err::<
                Seq<u16>,
                PortSpecError,
            >(e),
        },
{
    let ghost tok = bytes@.subrange(start as int, end as int);
    let dash: usize = find_byte(bytes, start, end, DASH);
    if dash == end {
        match parse_port_number(bytes, start, end) {
            Err(e) => Err(e),
            Ok(port) => {
                ports.push(port);
                proof {
                    assert(ports@ =~= old(ports)@ + seq![port]);
                }
                Ok(())
            },
        }
    } else {
        let second: usize = find_byte(bytes, dash + 1, end, DASH);
        proof {
            assert(bytes@.subrange(dash + 1, end as int) =~= tok.skip(dash - start + 1));
            assert(bytes@.subrange(start as int, dash as int) =~= tok.take(dash - start));
        }
        if second < end {
            return Err(PortSpecError::MalformedRange);
        }
        match parse_port_number(bytes, start, dash) {
            Err(e) => Err(e),
            Ok(first) => match parse_port_number(bytes, dash + 1, end) {
                Err(e) => Err(e),
                Ok(last) => {
                    push_range(ports, first, last);
                    Ok(())
                },
            },
        }
    }
}

/// Expands a port specification given as bytes.
pub fn expand_port_spec(bytes: &[u8]) -> (r: Result<Vec<u16>, PortSpecError>)
    ensures
        match r {
            Ok(ports) => expand_ports(bytes@) == Ok::<Seq<u16>, PortSpecError>(ports@),
            Err(e) => expand_ports(bytes@) == Err::<Seq<u16>, PortSpecError>(e),
        },
{
    let n: usize = bytes.len();
    let mut ports: Vec<u16> = Vec::new();
    let mut start: usize = 0;
    proof {
        assert(bytes@.skip(0) =~= bytes@);
        match expand_ports(bytes@) {
            Ok(all) => assert(ports@ + all =~= all),
            Err(_) => {},
        }
    }
    loop
        invariant
            start <= n == bytes@.len(),
            expand_ports(bytes@) == followed_by(ports@, expand_ports(bytes@.skip(start as int))),
        decreases n - start,
    {
        let ghost rest = bytes@.skip(start as int);
        let ghost before = ports@;
        let comma: usize = find_byte(bytes, start, n, COMMA);
        proof {
            assert(bytes@.subrange(start as int, n as int) =~= rest);
            assert(rest.take(comma - start) =~= bytes@.subrange(start as int, comma as int));
        }
        match parse_token(bytes, start, comma, &mut ports) {
            Err(e) => {
                return Err(e);
            },
            Ok(()) => {},
        }
        let ghost head = token_ports(rest.take(comma - start))->Ok_0;
        if comma == n {
            return Ok(ports);
        }
        proof {
            assert(rest.skip(comma - start + 1) =~= bytes@.skip(comma + 1));
            match expand_ports(bytes@.skip(comma + 1)) {
                Ok(tail) => assert(before + (head + tail) =~= (before + head) + tail),
                Err(_) => {},
            }
        }
        start = comma + 1;
    }
}

/// Expands a port specification such as `80,1000-1002` into the ports it
/// names, in the order written. Nothing is deduplicated; a range whose start
/// is above its end names no port. The first token that is not a port or a
/// range of two ports refuses the whole specification.
pub fn parse_ports(range: &str) -> (r: Result<Vec<u16>, PortSpecError>)
    ensures
        match r {
            Ok(ports) => expand_ports(range.spec_bytes()) == Ok::<Seq<u16>, PortSpecError>(ports@),
            Err(e) => expand_ports(range.spec_bytes()) == Err::<Seq<u16>, PortSpecError>(e),
        },
{
    expand_port_spec(range.as_bytes())
}

} // verus!
