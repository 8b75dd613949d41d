use seq_agent::text::{decimal_string, parse_number, same_text, NumberError};

#[test]
fn numbers_read_as_std_reads_them() {
    for s in [
        "", "+", "-", "0", "7", "+7", "-7", "++7", "007", "65535", "4294967295", "4294967296",
        "42949672950", "99999999999x", "4294967296x", "x", "1x", " 1", "1 ", "1_000", "é", "1é",
        "18446744073709551615", "18446744073709551616", "340282366920938463463374607431768211456",
    ] {
        match s.parse::<u32>() {
            Ok(v) => assert_eq!(parse_number(s, u32::MAX as u64), Ok(v as u64), "{s}"),
            Err(e) => assert_eq!(
                parse_number(s, u32::MAX as u64).unwrap_err().message(),
                e.to_string(),
                "{s}"
            ),
        }
        match s.parse::<u64>() {
            Ok(v) => assert_eq!(parse_number(s, u64::MAX), Ok(v), "{s}"),
            Err(e) => assert_eq!(
                parse_number(s, u64::MAX).unwrap_err().message(),
                e.to_string(),
                "{s}"
            ),
        }
    }
}

#[test]
fn number_errors_are_told_apart() {
    assert_eq!(parse_number("", 10), Err(NumberError::Empty));
    assert_eq!(parse_number("a", 10), Err(NumberError::InvalidDigit));
    assert_eq!(parse_number("11", 10), Err(NumberError::PosOverflow));
    assert_eq!(parse_number("10", 10), Ok(10));
}

#[test]
fn decimals_are_written_as_std_writes_them() {
    for n in [0u64, 9, 10, 11, 99, 100, 262144, u32::MAX as u64, u64::MAX] {
        assert_eq!(decimal_string(n), n.to_string());
        assert_eq!(parse_number(&decimal_string(n), u64::MAX), Ok(n));
    }
}

#[test]
fn texts_are_compared_whole() {
    assert!(same_text("", ""));
    assert!(same_text("--ring", "--ring"));
    assert!(!same_text("--ring", "--rin"));
    assert!(!same_text("--ring", "--rinG"));
    assert!(same_text("ä", "ä"));
}
