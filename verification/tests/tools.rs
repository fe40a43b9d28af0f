use dm_database_parser_sqllog::tools::{is_record_start_line, is_ts_millis_bytes};



#[test]
fn valid_timestamps() {
    let valid_cases: &[&[u8]] = &[
        b"2024-06-15 12:34:56.789",
        b"2000-01-01 00:00:00.000",
        b"2099-12-31 23:59:59.999",
        b"2024-02-29 12:34:56.789", // 闰年
    ];
    for ts in valid_cases {
        assert!(is_ts_millis_bytes(ts), "Failed for: {:?}", ts);
    }
}

#[test]
fn wrong_length() {
    let invalid_cases: &[&[u8]] = &[
        b"2024-06-15 12:34:56",
        b"2024-06-15 12:34:56.7",
        b"2024-06-15 12:34:56.7890",
        b"",
        b"2024",
    ];
    for ts in invalid_cases {
        assert!(!is_ts_millis_bytes(ts), "Should fail for: {:?}", ts);
    }
}

#[test]
fn wrong_separator() {
    let invalid_cases: &[&[u8]] = &[
        b"2024-06-15 12:34:56,789", // 逗号代替点
        b"2024/06/15 12:34:56.789", // 斜杠代替短横线
        b"2024-06-15T12:34:56.789", // T 代替空格
        b"2024-06-15-12:34:56.789", // 短横线代替空格
        b"2024-06-15 12-34-56.789", // 短横线代替冒号
    ];
    for ts in invalid_cases {
        assert!(!is_ts_millis_bytes(ts), "Should fail for: {:?}", ts);
    }
}

#[test]
fn non_digits() {
    let invalid_cases: &[&[u8]] = &[
        b"202a-06-15 12:34:56.789",
        b"2024-0b-15 12:34:56.789",
        b"2024-06-1c 12:34:56.789",
        b"2024-06-15 1d:34:56.789",
        b"2024-06-15 12:3e:56.789",
        b"2024-06-15 12:34:5f.789",
        b"2024-06-15 12:34:56.78g",
    ];
    for ts in invalid_cases {
        assert!(!is_ts_millis_bytes(ts), "Should fail for: {:?}", ts);
    }
}

#[test]
fn special_chars() {
    assert!(!is_ts_millis_bytes(b"2024-06-15 12:34:56.\x00\x00\x00"));
    assert!(!is_ts_millis_bytes(b"\x002024-06-15 12:34:56.789"));
}


#[test]
fn valid_complete_line() {
    let line = "2025-08-12 10:57:09.548 (EP[0] sess:0x178ebca0 thrd:757455 user:HBTCOMS_V3_PROD trxid:0 stmt:0x285eb060 appname: ip:::ffff:10.3.100.68) [SEL] select 1 from dual EXECTIME: 0(ms) ROWCOUNT: 1(rows) EXEC_ID: 289655178.";
    assert!(is_record_start_line(line));
}

#[test]
fn valid_without_ip() {
    let line = "2025-08-12 10:57:09.548 (EP[0] sess:0x178ebca0 thrd:757455 user:HBTCOMS_V3_PROD trxid:0 stmt:0x285eb060 appname:) [SEL] select 1 from dual";
    assert!(is_record_start_line(line));
}

#[test]
fn minimal_valid() {
    let line = "2025-08-12 10:57:09.548 (EP[0] sess:123 thrd:456 user:alice trxid:789 stmt:999 appname:app) body";
    assert!(is_record_start_line(line));
}

#[test]
fn too_short() {
    let short_lines = [
        "2025-08-12 10:57:09.548",
        "2025-08-12 10:57:09.548 (",
        "",
        "short",
    ];
    for line in &short_lines {
        assert!(!is_record_start_line(line), "Should fail for: {}", line);
    }
}

#[test]
fn invalid_timestamp() {
    let line = "2025-08-12 10:57:09,548 (EP[0] sess:123 thrd:456 user:alice trxid:789 stmt:999 appname:app) body";
    assert!(!is_record_start_line(line));
}

#[test]
fn format_errors() {
    let invalid_lines = [
        "2025-08-12 10:57:09.548(EP[0] sess:123 thrd:456 user:alice trxid:789 stmt:999 appname:app) body",
        "2025-08-12 10:57:09.548 EP[0] sess:123 thrd:456 user:alice trxid:789 stmt:999 appname:app) body",
        "2025-08-12 10:57:09.548 (EP[0] sess:123 thrd:456 user:alice trxid:789 stmt:999 appname:app body",
    ];
    for line in &invalid_lines {
        assert!(!is_record_start_line(line), "Should fail for: {}", line);
    }
}

#[test]
fn insufficient_fields() {
    let line = "2025-08-12 10:57:09.548 (EP[0] sess:123 thrd:456 user:alice) body";
    assert!(!is_record_start_line(line));
}

#[test]
fn wrong_field_order() {
    let line = "2025-08-12 10:57:09.548 (sess:123 EP[0] thrd:456 user:alice trxid:789 stmt:999 appname:app) body";
    assert!(!is_record_start_line(line));
}

#[test]
fn missing_required_fields() {
    let test_cases = [
        (
            "2025-08-12 10:57:09.548 (sess:123 thrd:456 user:alice trxid:789 stmt:999 appname:app) body",
            "EP",
        ),
        (
            "2025-08-12 10:57:09.548 (EP[0] thrd:456 user:alice trxid:789 stmt:999 appname:app) body",
            "sess",
        ),
        (
            "2025-08-12 10:57:09.548 (EP[0] sess:123 user:alice trxid:789 stmt:999 appname:app) body",
            "thrd",
        ),
        (
            "2025-08-12 10:57:09.548 (EP[0] sess:123 thrd:456 trxid:789 stmt:999 appname:app) body",
            "user",
        ),
        (
            "2025-08-12 10:57:09.548 (EP[0] sess:123 thrd:456 user:alice stmt:999 appname:app) body",
            "trxid",
        ),
    ];
    for (line, field) in &test_cases {
        assert!(
            !is_record_start_line(line),
            "Should fail when missing {} field",
            field
        );
    }
}

#[test]
fn with_valid_ip() {
    let line = "2025-08-12 10:57:09.548 (EP[0] sess:123 thrd:456 user:alice trxid:789 stmt:999 appname:app ip:::ffff:192.168.1.100) body";
    assert!(is_record_start_line(line));
}

#[test]
fn with_invalid_ip_format() {
    let line = "2025-08-12 10:57:09.548 (EP[0] sess:123 thrd:456 user:alice trxid:789 stmt:999 appname:app ip:192.168.1.100) body";
    assert!(is_record_start_line(line));
}

#[test]
fn complex_field_values() {
    let line = "2025-08-12 10:57:09.548 (EP[123] sess:0xABCD1234 thrd:9999999 user:USER_WITH_UNDERSCORES trxid:12345678 stmt:0xFFFFFFFF appname:app-name-with-dashes ip:::ffff:10.20.30.40) SELECT * FROM table";
    assert!(is_record_start_line(line));
}

#[test]
fn empty_appname() {
    let line = "2025-08-12 10:57:09.548 (EP[0] sess:123 thrd:456 user:alice trxid:789 stmt:999 appname:) body";
    assert!(is_record_start_line(line));
}

#[test]
fn continuation_line() {
    let continuation = "    SELECT * FROM users WHERE id = 1";
    assert!(!is_record_start_line(continuation));
}

#[test]
fn double_space_in_meta() {
    let line = "2025-08-12 10:57:09.548 (EP[0]  sess:123 thrd:456 user:alice trxid:789 stmt:999 appname:app) body";
    assert!(!is_record_start_line(line));

    let valid_line = "2025-08-12 10:57:09.548 (EP[0] sess:123 thrd:456 user:alice trxid:789 stmt:999 appname:app) body";
    assert!(is_record_start_line(valid_line));
}

#[test]
fn shortest_meta_with_all_five_fields_starts_a_record() {
    let line = "2025-08-12 10:57:09.548 (EP[0] sess:1 thrd:1 user:a trxid:1) SELECT 1";
    assert!(is_record_start_line(line));
    let shorter = "2025-08-12 10:57:09.548 (EP[] sess:1 thrd:1 user:a trxid:1) SELECT 1";
    assert!(!is_record_start_line(shorter));
}
