use daysince::controller::{query_at, record_at};
use daysince::{
    answer_message, get_current_time_as_ms, get_hashmap_as_string, get_time_difference_as_str,
    parse_command, query_elapsed, record_action, Answer, ClockError, Command, Store, UsageError,
    STORAGE_FILE_NAME,
};

fn args(words: &[&str]) -> Vec<String> {
    words.iter().map(|w| w.to_string()).collect()
}

#[test]
fn no_argument_is_a_usage_error() {
    assert_eq!(parse_command(&args(&[])), Err(UsageError::NoArguments));
    assert_eq!(parse_command(&args(&["daysince"])), Err(UsageError::NoArguments));
}

#[test]
fn did_without_a_label_is_a_usage_error() {
    assert_eq!(parse_command(&args(&["daysince", "did"])), Err(UsageError::MissingLabel));
}

#[test]
fn did_with_a_label_records() {
    assert_eq!(
        parse_command(&args(&["daysince", "did", "run"])),
        Ok(Command::Record("run".to_string()))
    );
    assert_eq!(
        parse_command(&args(&["daysince", "did", "run", "fast"])),
        Ok(Command::Record("run".to_string()))
    );
    assert_eq!(
        parse_command(&args(&["daysince", "did", "did"])),
        Ok(Command::Record("did".to_string()))
    );
}

#[test]
fn any_other_word_is_a_query() {
    assert_eq!(parse_command(&args(&["daysince", "run"])), Ok(Command::Query("run".to_string())));
    assert_eq!(
        parse_command(&args(&["daysince", "run", "did"])),
        Ok(Command::Query("run".to_string()))
    );
    assert_eq!(parse_command(&args(&["daysince", "Did"])), Ok(Command::Query("Did".to_string())));
    assert_eq!(parse_command(&args(&["daysince", ""])), Ok(Command::Query(String::new())));
}

#[test]
fn storage_file_name_is_fixed() {
    assert_eq!(STORAGE_FILE_NAME, ".daysince.json");
}

#[test]
fn record_at_gives_the_text_to_persist() {
    let mut store = Store::new();
    assert_eq!(record_at(&mut store, "run", 1000), "run,1000\n");
    assert_eq!(record_at(&mut store, "read", 2000), "run,1000\nread,2000\n");
    assert_eq!(record_at(&mut store, "run", 3000), "run,3000\nread,2000\n");
    assert_eq!(store.len(), 2);
}

#[test]
fn query_right_after_record_reports_a_short_time() {
    let mut store = Store::new();
    let before = get_current_time_as_ms().unwrap();
    let contents = record_action(&mut store, "run").unwrap();
    let recorded = store.get("run").unwrap();
    assert!(recorded >= before);
    assert_eq!(contents, format!("run,{recorded}\n"));
    match query_elapsed(&store, "run") {
        Ok(Answer::Elapsed(ms)) => assert!(ms < 5000, "{ms}"),
        other => panic!("{other:?}"),
    }
}

#[test]
fn query_at_the_time_of_recording_reports_zero() {
    let mut store = Store::new();
    record_at(&mut store, "run", 1_700_000_000_000);
    assert_eq!(query_at(&store, "run", 1_700_000_000_000), Ok(Answer::Elapsed(0)));
    assert_eq!(query_at(&store, "run", 1_700_000_090_061), Ok(Answer::Elapsed(90_061)));
}

#[test]
fn query_for_a_timestamp_in_the_future_is_a_clock_error() {
    let mut store = Store::new();
    record_at(&mut store, "run", 1_700_000_000_000);
    assert_eq!(query_at(&store, "run", 1_699_999_999_999), Err(ClockError::TimestampInFuture));
    assert_eq!(query_at(&store, "run", 0), Err(ClockError::TimestampInFuture));
    store.record("far", u128::MAX);
    assert_eq!(query_elapsed(&store, "far"), Err(ClockError::TimestampInFuture));
    assert_eq!(get_time_difference_as_str(u128::MAX), Err(ClockError::TimestampInFuture));
}

#[test]
fn query_for_an_unknown_label_is_never_recorded() {
    let mut store = Store::new();
    store.record("run", 10);
    let text = get_hashmap_as_string(&store);
    assert_eq!(query_elapsed(&store, "walk"), Ok(Answer::NeverRecorded));
    assert_eq!(query_at(&store, "walk", 0), Ok(Answer::NeverRecorded));
    assert_eq!(query_at(&store, "walk", u128::MAX), Ok(Answer::NeverRecorded));
    assert_eq!(query_elapsed(&Store::new(), "run"), Ok(Answer::NeverRecorded));
    assert_eq!(store.len(), 1);
    assert_eq!(store.get("run"), Some(10));
    assert_eq!(get_hashmap_as_string(&store), text);
}

#[test]
fn messages_for_the_user() {
    assert_eq!(answer_message("run", Answer::NeverRecorded), "You never did run");
    assert_eq!(
        answer_message("run", Answer::Elapsed(90_061_000)),
        "[You havent done run for]\n 1 days 01 hours 01 minutes 01 seconds"
    );
    assert_eq!(answer_message("", Answer::NeverRecorded), "You never did ");
}

#[test]
fn clock_is_past_the_year_2020() {
    let first = get_current_time_as_ms().unwrap();
    let second = get_current_time_as_ms().unwrap();
    assert!(first > 1_577_836_800_000);
    assert!(second >= first);
}

#[test]
fn time_difference_since_the_epoch_counts_many_days() {
    let text = get_time_difference_as_str(0).unwrap();
    let days: u128 = text.split(' ').next().unwrap().parse().unwrap();
    assert!(days > 18_262, "{text}");
    assert!(text.ends_with(" seconds"));
    let now = get_current_time_as_ms().unwrap();
    let text = get_time_difference_as_str(now).unwrap();
    assert!(text.starts_with("0 days 00 hours 00 minutes 0"), "{text}");
}
