//! Decimal numbers and separators in byte strings.

use vstd::prelude::*;

verus! {

/// Why a run of bytes is not a number within its bound.
#[derive(Debug, Clone, Copy, PartialEq, Eq, Structural)]
pub enum NumberError {
    /// A byte that is not a decimal digit.
    InvalidDigit,
    /// The digits so far already exceed the bound.
    TooLarge,
}

pub open spec fn is_digit(b: u8) -> bool {
    0x30 <= b && b <= 0x39
}

pub open spec fn digit_value(b: u8) -> nat {
    (b - 0x30) as nat
}

/// The number that the digits `s` write, read left to right against `max`:
/// the first byte that is no digit, or that carries the value above `max`,
/// decides the error. The empty string reads as zero.
pub open spec fn decimal(s: Seq<u8>, max: nat) -> Result<nat, NumberError>
    decreases s.len(),
{
    if s.len() == 0 {
        Ok(0)
    } else {
        match decimal(s.drop_last(), max) {
            Err(e) => Err(e),
            Ok(v) => if !is_digit(s.last()) {
                Err(NumberError::InvalidDigit)
            } else if v * 10 + digit_value(s.last()) > max {
                Err(NumberError::TooLarge)
            } else {
                Ok(v * 10 + digit_value(s.last()))
            },
        }
    }
}

/// The value of the digits `s`, most significant first.
pub open spec fn digits_value(s: Seq<u8>) -> nat
    decreases s.len(),
{
    if s.len() == 0 {
        0
    } else {
        digits_value(s.drop_last()) * 10 + digit_value(s.last())
    }
}

/// Whether every byte of `s` is a decimal digit.
pub open spec fn all_digits(s: Seq<u8>) -> bool {
    forall|i: int| 0 <= i < s.len() ==> is_digit(#[trigger] s[i])
}

/// The digits of `n`, without leading zeros.
pub open spec fn decimal_digits(n: nat) -> Seq<u8>
    decreases n,
{
    if n < 10 {
        seq![(0x30 + n) as u8]
    } else {
        decimal_digits(n / 10).push((0x30 + n % 10) as u8)
    }
}

/// The position of the first `needle` in `s`, or the length of `s` if there
/// is none.
pub open spec fn first_index_of(s: Seq<u8>, needle: u8) -> int
    decreases s.len(),
{
    if s.len() == 0 || s[0] == needle {
        0
    } else {
        1 + first_index_of(s.skip(1), needle)
    }
}

/// `first_index_of` is the one position that has the needle, or the end, with
/// no needle before it.
pub proof fn lemma_first_index_of(s: Seq<u8>, needle: u8, at: int)
    requires
        0 <= at <= s.len(),
        forall|j: int| 0 <= j < at ==> s[j] != needle,
        at < s.len() ==> s[at] == needle,
    ensures
        first_index_of(s, needle) == at,
    decreases s.len(),
{
    if s.len() == 0 || s[0] == needle {
    } else {
        let t = s.skip(1);
        assert forall|j: int| 0 <= j < at - 1 implies t[j] != needle by {
            assert(t[j] == s[j + 1]);
        }
        lemma_first_index_of(t, needle, at - 1);
    }
}

/// Reading succeeds exactly on digits whose value stays within the bound,
/// and then gives that value.
pub proof fn lemma_decimal_is_value(s: Seq<u8>, max: nat)
    ensures
        decimal(s, max) is Ok <==> all_digits(s) && digits_value(s) <= max,
        decimal(s, max) matches Ok(v) ==> v == digits_value(s),
        decimal(s, max) == Err::<nat, NumberError>(NumberError::TooLarge) ==> digits_value(s)
            > max || !all_digits(s),
    decreases s.len(),
{
    if s.len() > 0 {
        let front = s.drop_last();
        lemma_decimal_is_value(front, max);
        assert forall|i: int| 0 <= i < front.len() implies front[i] == s[i] by {}
        if all_digits(s) {
            assert forall|i: int| 0 <= i < front.len() implies is_digit(#[trigger] front[i]) by {
                assert(is_digit(s[i]));
            }
            assert(is_digit(s[s.len() - 1]));
        }
        if all_digits(front) && is_digit(s.last()) {
            assert forall|i: int| 0 <= i < s.len() implies is_digit(#[trigger] s[i]) by {
                if i < front.len() {
                    assert(is_digit(front[i]));
                }
            }
        }
    }
}

/// An error in a prefix is the error of the whole.
pub proof fn lemma_decimal_prefix_error(s: Seq<u8>, k: int, max: nat)
    requires
        0 <= k <= s.len(),
        decimal(s.take(k), max) is Err,
    ensures
        decimal(s, max) == decimal(s.take(k), max),
    decreases s.len() - k,
{
    if k == s.len() {
        assert(s.take(k) =~= s);
    } else {
        assert(s.drop_last().take(k) =~= s.take(k));
        lemma_decimal_prefix_error(s.drop_last(), k, max);
    }
}

/// The first position at or after `start`, before `end`, that holds `needle`;
/// `end` if there is none.
pub fn find_byte(bytes: &[u8], start: usize, end: usize, needle: u8) -> (at: usize)
    requires
        start <= end <= bytes@.len(),
    ensures
        start <= at <= end,
        at - start == first_index_of(bytes@.subrange(start as int, end as int), needle),
{
    let mut at: usize = start;
    while at < end && bytes[at] != needle
        invariant
            start <= at <= end <= bytes@.len(),
            forall|j: int| start <= j < at ==> bytes@[j] != needle,
        decreases end - at,
    {
        at += 1;
    }
    proof {
        lemma_first_index_of(bytes@.subrange(start as int, end as int), needle, at - start);
    }
    at
}

/// Reads the bytes from `start` to `end` as a decimal number of at most
/// `max`.
pub fn parse_decimal(bytes: &[u8], start: usize, end: usize, max: u64) -> (r: Result<
    u64,
    NumberError,
>)
    requires
        start <= end <= bytes@.len(),
    ensures
        match r {
            Ok(v) => decimal(bytes@.subrange(start as int, end as int), max as nat) == Ok::<
                nat,
                NumberError,
            >(v as nat),
            Err(e) => decimal(bytes@.subrange(start as int, end as int), max as nat) == Err::<
                nat,
                NumberError,
            >(e),
        },
        r is Ok <==> all_digits(bytes@.subrange(start as int, end as int)) && digits_value(
            bytes@.subrange(start as int, end as int),
        ) <= max,
        r matches Ok(v) ==> v == digits_value(bytes@.subrange(start as int, end as int)),
{
    let ghost s = bytes@.subrange(start as int, end as int);
    let mut value: u64 = 0;
    let mut at: usize = start;
    proof {
        assert(s.take(0) =~= Seq::<u8>::empty());
    }
    while at < end
        invariant
            start <= at <= end <= bytes@.len(),
            s == bytes@.subrange(start as int, end as int),
            decimal(s.take(at - start), max as nat) == Ok::<nat, NumberError>(value as nat),
            value <= max,
        decreases end - at,
    {
        let b: u8 = bytes[at];
        proof {
            assert(s.take(at - start + 1).drop_last() =~= s.take(at - start));
            assert(s.take(at - start + 1).last() == b);
        }
        if b < 0x30 || b > 0x39 {
            proof {
                lemma_decimal_prefix_error(s, at - start + 1, max as nat);
                lemma_decimal_is_value(s, max as nat);
            }
            return Err(NumberError::InvalidDigit);
        }
        let next: u128 = (value as u128) * 10 + ((b - 0x30) as u128);
        if next > max as u128 {
            proof {
                lemma_decimal_prefix_error(s, at - start + 1, max as nat);
                lemma_decimal_is_value(s, max as nat);
            }
            return Err(NumberError::TooLarge);
        }
        value = next as u64;
        at += 1;
    }
    proof {
        assert(s.take(at - start) =~= s);
        lemma_decimal_is_value(s, max as nat);
    }
    Ok(value)
}

} // verus!
