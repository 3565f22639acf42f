use daysince::clock::{elapsed_since, time_difference_as_str};
use daysince::decimal::{append_decimal, parse_timestamp};
use daysince::{invalid_content_error, ClockError, MalformedRecord, Reason};

fn decimal_of(n: u128) -> String {
    let mut text = String::new();
    append_decimal(&mut text, n);
    text
}

fn parsed(field: &str) -> Option<u128> {
    let chars: Vec<char> = field.chars().collect();
    parse_timestamp(&chars)
}

#[test]
fn decimal_notation() {
    assert_eq!(decimal_of(0), "0");
    assert_eq!(decimal_of(7), "7");
    assert_eq!(decimal_of(10), "10");
    assert_eq!(decimal_of(1234567890), "1234567890");
    assert_eq!(decimal_of(u128::MAX), "340282366920938463463374607431768211455");
}

#[test]
fn append_decimal_keeps_what_is_there() {
    let mut text = String::from("n=");
    append_decimal(&mut text, 42);
    append_decimal(&mut text, 0);
    assert_eq!(text, "n=420");
}

#[test]
fn decimal_agrees_with_the_standard_formatter() {
    let mut n: u128 = 1;
    for _ in 0..130 {
        assert_eq!(decimal_of(n), n.to_string());
        assert_eq!(decimal_of(n - 1), (n - 1).to_string());
        assert_eq!(parsed(&n.to_string()), Some(n));
        n = n.wrapping_mul(2);
        if n == 0 {
            break;
        }
    }
}

#[test]
fn parse_timestamp_reads_digits() {
    assert_eq!(parsed("0"), Some(0));
    assert_eq!(parsed("000"), Some(0));
    assert_eq!(parsed("+0"), Some(0));
    assert_eq!(parsed("1700000000000"), Some(1700000000000));
    assert_eq!(parsed("340282366920938463463374607431768211455"), Some(u128::MAX));
    assert_eq!(parsed("0340282366920938463463374607431768211455"), Some(u128::MAX));
}

#[test]
fn parse_timestamp_rejects_what_is_no_number() {
    for bad in ["", "+", "-", "-5", "5-", "+-5", "++5", " 5", "5 ", "5a", "a5", "٥", "5\r"] {
        assert_eq!(parsed(bad), None, "{bad:?}");
    }
}

#[test]
fn parse_timestamp_rejects_what_does_not_fit() {
    assert_eq!(parsed("340282366920938463463374607431768211456"), None);
    assert_eq!(parsed("340282366920938463463374607431768211460"), None);
    assert_eq!(parsed("3402823669209384634633746074317682114550"), None);
    assert_eq!(parsed("+999999999999999999999999999999999999999"), None);
}

#[test]
fn parse_timestamp_agrees_with_the_standard_library() {
    for field in [
        "", "0", "+0", "-0", "+", "-", "12", "0012", "+12", "1 2", "12\n", "１２", "1e3",
        "340282366920938463463374607431768211455", "340282366920938463463374607431768211456",
        "99999999999999999999999999999999999999999999999999",
    ] {
        assert_eq!(parsed(field), field.parse::<u128>().ok(), "{field:?}");
    }
}

#[test]
fn report_of_a_malformed_line() {
    let fname = String::from("/home/me/.daysince.json");
    assert_eq!(
        invalid_content_error("invalid value", 12, &fname),
        "Error in /home/me/.daysince.json at 12: invalid value"
    );
    assert_eq!(invalid_content_error("", 0, &String::new()), "Error in  at 0: ");
    assert_eq!(
        invalid_content_error("x", usize::MAX, &fname),
        format!("Error in /home/me/.daysince.json at {}: x", usize::MAX)
    );
}

#[test]
fn message_of_a_malformed_record() {
    let fname = String::from("data.txt");
    let error = MalformedRecord { line: 3, reason: Reason::InsufficientValues };
    assert_eq!(error.message(&fname), "Error in data.txt at 3: insufficient values");
    let error = MalformedRecord { line: 1, reason: Reason::InvalidValue };
    assert_eq!(error.message(&fname), "Error in data.txt at 1: invalid value");
}

#[test]
fn elapsed_is_the_difference() {
    assert_eq!(elapsed_since(10, 3), Ok(7));
    assert_eq!(elapsed_since(3, 3), Ok(0));
    assert_eq!(elapsed_since(u128::MAX, 0), Ok(u128::MAX));
    assert_eq!(elapsed_since(3, 10), Err(ClockError::TimestampInFuture));
    assert_eq!(elapsed_since(0, u128::MAX), Err(ClockError::TimestampInFuture));
}

#[test]
fn time_difference_is_rendered() {
    assert_eq!(
        time_difference_as_str(1_700_090_061_000, 1_700_000_000_000),
        Ok(String::from("1 days 01 hours 01 minutes 01 seconds"))
    );
    assert_eq!(time_difference_as_str(5, 6), Err(ClockError::TimestampInFuture));
}
