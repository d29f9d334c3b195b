use netool::decimal::{find_byte, parse_decimal, NumberError};

#[test]
fn finds_the_first_needle_in_the_region() {
    let bytes = b"a,b,c";
    assert_eq!(find_byte(bytes, 0, 5, b','), 1);
    assert_eq!(find_byte(bytes, 2, 5, b','), 3);
    assert_eq!(find_byte(bytes, 4, 5, b','), 5);
    assert_eq!(find_byte(bytes, 0, 1, b','), 1);
    assert_eq!(find_byte(bytes, 1, 1, b','), 1);
    assert_eq!(find_byte(bytes, 0, 5, b'x'), 5);
    assert_eq!(find_byte(b"", 0, 0, b','), 0);
}

#[test]
fn reads_digits_against_the_bound() {
    assert_eq!(parse_decimal(b"x123y", 1, 4, 1000), Ok(123));
    assert_eq!(parse_decimal(b"0", 0, 1, 0), Ok(0));
    assert_eq!(parse_decimal(b"007", 0, 3, 7), Ok(7));
    assert_eq!(parse_decimal(b"65535", 0, 5, 65535), Ok(65535));
    assert_eq!(parse_decimal(b"65536", 0, 5, 65535), Err(NumberError::TooLarge));
    assert_eq!(
        parse_decimal(b"18446744073709551615", 0, 20, u64::MAX),
        Ok(u64::MAX)
    );
    assert_eq!(
        parse_decimal(b"18446744073709551616", 0, 20, u64::MAX),
        Err(NumberError::TooLarge)
    );
}

#[test]
fn empty_region_reads_as_zero() {
    assert_eq!(parse_decimal(b"12", 1, 1, 5), Ok(0));
}

#[test]
fn first_fault_decides_the_error() {
    assert_eq!(parse_decimal(b"12a", 0, 3, 100), Err(NumberError::InvalidDigit));
    assert_eq!(parse_decimal(b"a12", 0, 3, 100), Err(NumberError::InvalidDigit));
    assert_eq!(parse_decimal(b"999a", 0, 4, 100), Err(NumberError::TooLarge));
    assert_eq!(parse_decimal(b"-1", 0, 2, 100), Err(NumberError::InvalidDigit));
    assert_eq!(parse_decimal(b"/", 0, 1, 100), Err(NumberError::InvalidDigit));
    assert_eq!(parse_decimal(b":", 0, 1, 100), Err(NumberError::InvalidDigit));
}
