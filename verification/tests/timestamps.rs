use dm_database_parser_sqllog::error::ParseError;
use dm_database_parser_sqllog::parser::builder::LogParserBuilder;
use dm_database_parser_sqllog::parser::iterator::is_timestamp_start;

#[test]
fn parser_test_is_timestamp_start_valid() {
    let ts = b"2025-11-17 16:09:41.123";
    assert!(is_timestamp_start(ts));
}

#[test]
fn parser_test_is_timestamp_start_wrong_year_prefix() {
    let ts = b"1025-11-17 16:09:41.123";
    assert!(!is_timestamp_start(ts));
}

#[test]
fn parser_test_is_timestamp_start_wrong_month_separator() {
    let ts = b"2025X11-17 16:09:41.123";
    assert!(!is_timestamp_start(ts));
}

#[test]
fn parser_test_is_timestamp_start_wrong_second_separator() {
    let ts = b"2025-11-17 16:09X41.123";
    assert!(!is_timestamp_start(ts));
}

#[test]
fn parser_test_is_timestamp_start_wrong_millis_separator() {
    let ts = b"2025-11-17 16:09:41X123";
    assert!(!is_timestamp_start(ts));
}

#[test]
fn parser_test_is_timestamp_start_exactly_23_bytes() {
    let ts = b"2025-11-17 16:09:41.123";
    assert_eq!(ts.len(), 23);
    assert!(is_timestamp_start(ts));
}

#[test]
fn parser_test_is_timestamp_start_trailing_garbage() {
    let ts = b"2025-11-17 16:09:41.123extra_garbage_here";
    assert!(is_timestamp_start(ts));
}

#[test]
fn iterator_test_is_timestamp_start_valid() {
    let ts = b"2025-11-17 16:09:41.123";
    assert!(is_timestamp_start(ts));
}

#[test]
fn iterator_test_is_timestamp_start_wrong_year_prefix() {
    let ts = b"1025-11-17 16:09:41.123";
    assert!(!is_timestamp_start(ts));
}

#[test]
fn iterator_test_is_timestamp_start_wrong_month_separator() {
    let ts = b"2025X11-17 16:09:41.123";
    assert!(!is_timestamp_start(ts));
}

#[test]
fn iterator_test_is_timestamp_start_wrong_second_separator() {
    let ts = b"2025-11-17 16:09X41.123";
    assert!(!is_timestamp_start(ts));
}

#[test]
fn iterator_test_is_timestamp_start_wrong_millis_separator() {
    let ts = b"2025-11-17 16:09:41X123";
    assert!(!is_timestamp_start(ts));
}

#[test]
fn iterator_test_is_timestamp_start_exactly_23_bytes() {
    let ts = b"2025-11-17 16:09:41.123";
    assert_eq!(ts.len(), 23);
    assert!(is_timestamp_start(ts));
}

#[test]
fn iterator_test_is_timestamp_start_trailing_garbage() {
    let ts = b"2025-11-17 16:09:41.123extra_garbage_here";
    assert!(is_timestamp_start(ts));
}

// Building without an encoding hint needs a sample of the file; reading it
// fails for a file that does not exist, and that failure is returned.
#[test]
fn parser_test_builder_file_not_found() {
    let sample = Err(ParseError::IoError("No such file or directory (os error 2)".to_string()));
    let result = LogParserBuilder::new("/nonexistent/path.log").build(sample);
    assert!(result.is_err());
    match result {
        Err(ParseError::IoError(_)) => {}
        _ => panic!("Expected IoError on nonexistent file"),
    }
}

#[test]
fn mod_test_builder_file_not_found() {
    let sample = Err(ParseError::IoError("No such file or directory (os error 2)".to_string()));
    let result = LogParserBuilder::new("/nonexistent/path.log").build(sample);
    assert!(result.is_err());
    match result {
        Err(ParseError::IoError(_)) => {}
        _ => panic!("Expected IoError on nonexistent file"),
    }
}
