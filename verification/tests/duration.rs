use daysince::milliseconds_to_string;

fn formatted_by_std(ms: u128) -> String {
    let seconds = ms / 1000;
    let minutes = seconds / 60;
    let hours = minutes / 60;
    let days = hours / 24;
    format!(
        "{} days {:02} hours {:02} minutes {:02} seconds",
        days,
        hours % 24,
        minutes % 60,
        seconds % 60
    )
}

#[test]
fn one_of_each_unit() {
    assert_eq!(milliseconds_to_string(90061000), "1 days 01 hours 01 minutes 01 seconds");
}

#[test]
fn zero_milliseconds() {
    assert_eq!(milliseconds_to_string(0), "0 days 00 hours 00 minutes 00 seconds");
}

#[test]
fn what_is_below_a_second_is_dropped() {
    assert_eq!(milliseconds_to_string(999), "0 days 00 hours 00 minutes 00 seconds");
    assert_eq!(milliseconds_to_string(1000), "0 days 00 hours 00 minutes 01 seconds");
    assert_eq!(milliseconds_to_string(1999), "0 days 00 hours 00 minutes 01 seconds");
}

#[test]
fn units_roll_over() {
    assert_eq!(milliseconds_to_string(59_999), "0 days 00 hours 00 minutes 59 seconds");
    assert_eq!(milliseconds_to_string(60_000), "0 days 00 hours 01 minutes 00 seconds");
    assert_eq!(milliseconds_to_string(3_599_999), "0 days 00 hours 59 minutes 59 seconds");
    assert_eq!(milliseconds_to_string(3_600_000), "0 days 01 hours 00 minutes 00 seconds");
    assert_eq!(milliseconds_to_string(86_399_999), "0 days 23 hours 59 minutes 59 seconds");
    assert_eq!(milliseconds_to_string(86_400_000), "1 days 00 hours 00 minutes 00 seconds");
}

#[test]
fn days_are_not_padded_and_not_bounded() {
    assert_eq!(
        milliseconds_to_string(12_345 * 86_400_000 + 10 * 3_600_000 + 10 * 60_000 + 10_000),
        "12345 days 10 hours 10 minutes 10 seconds"
    );
    assert_eq!(
        milliseconds_to_string(u128::MAX),
        "3938453320844195178974243141571 days 09 hours 23 minutes 31 seconds"
    );
}

#[test]
fn duration_agrees_with_the_standard_formatter() {
    let mut ms: u128 = 0;
    for step in 0..2000u128 {
        assert_eq!(milliseconds_to_string(ms), formatted_by_std(ms));
        ms = ms.wrapping_mul(31).wrapping_add(step * 977 + 1);
    }
    assert_eq!(milliseconds_to_string(u128::MAX), formatted_by_std(u128::MAX));
}
