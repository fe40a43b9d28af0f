use dm_database_parser_sqllog::error::{AsyncError, ParseError};
use dm_database_parser_sqllog::filter::adapter::{keep_filtered, keep_sql_contains};
use dm_database_parser_sqllog::filter::builder::FilterBuilder;
use dm_database_parser_sqllog::matcher::Matcher;
use dm_database_parser_sqllog::parser::builder::{detect_encoding, tail_sample_start, EncodingSample, LogParserBuilder};
use dm_database_parser_sqllog::parser::encoding::{decode_content_bytes, FileEncodingHint};
use dm_database_parser_sqllog::parser::iterator::{parse_log_bytes, RecordAssembler};
use dm_database_parser_sqllog::parser::parse_functions::extract_sql_body;
use dm_database_parser_sqllog::parser::parse_record;
use dm_database_parser_sqllog::parser::record_parser::parse_records_from_string;
use dm_database_parser_sqllog::parser::sqllog_parser::{line_start_ok, SqllogParser};
use dm_database_parser_sqllog::realtime::{ParserConfig, RealtimeParser};
use dm_database_parser_sqllog::record::{find_indicators_split, Sqllog};
use dm_database_parser_sqllog::record_types::{ParsedEnd, ParsedMeta};
use dm_database_parser_sqllog::sqllog::Sqllog as LazySqllog;
use encoding::all::GB18030;
use encoding::{EncoderTrap, Encoding};

const HEAD: &str = "2025-08-12 10:57:09.548 (EP[0] sess:123 thrd:456 user:alice trxid:789 stmt:999 appname:app)";

fn record(user: &str, sql: &str, rowcount: u32) -> Sqllog {
    Sqllog {
        ts: "2024-06-01 10:00:00.000".to_string(),
        tag: None,
        ep: 1,
        sess_id: "0x1".to_string(),
        thrd_id: "7".to_string(),
        username: user.to_string(),
        trxid: "0".to_string(),
        statement: "0x2".to_string(),
        appname: "app".to_string(),
        client_ip: String::new(),
        sql: sql.to_string(),
        exectime: String::new(),
        rowcount,
        exec_id: 0,
        lock_event: None,
    }
}

// ── filters combine by AND, in any order ──

#[test]
fn law_filter_conditions_conjoin() {
    let records = [
        record("alice", "SELECT 1", 5),
        record("alice", "UPDATE t", 5),
        record("bob", "SELECT 2", 50),
        record("bob", "DELETE t", 0),
    ];
    for r in &records {
        let a = FilterBuilder::new().username_eq("alice").build().matches(r);
        let b = FilterBuilder::new().sql_starts_with("SELECT").rowcount_lt(10).build().matches(r);
        let ab = FilterBuilder::new().username_eq("alice").sql_starts_with("SELECT").rowcount_lt(10).build();
        let ba = FilterBuilder::new().sql_starts_with("SELECT").rowcount_lt(10).username_eq("alice").build();
        assert_eq!(ab.matches(r), a && b);
        assert_eq!(ba.matches(r), a && b);
        assert!(FilterBuilder::new().build().matches(r));
    }
    let ab = FilterBuilder::new().username_eq("alice").sql_starts_with("SELECT").rowcount_lt(10).build();
    assert!(ab.matches(&records[0]));
    assert!(!ab.matches(&records[1]));
    assert!(!ab.matches(&records[2]));
}

#[test]
fn adapter_keeps_matching_records_and_chosen_errors() {
    let ok: Result<Sqllog, ParseError> = Ok(record("alice", "SELECT * FROM users", 1));
    let err: Result<Sqllog, ParseError> = Err(ParseError::EmptyInput);
    let f = FilterBuilder::new().username_eq("alice").build();
    assert!(keep_filtered(&ok, &f, false));
    assert!(!keep_filtered(&err, &f, false));
    assert!(keep_filtered(&err, &f, true));
    let g = FilterBuilder::new().username_eq("bob").build();
    assert!(!keep_filtered(&ok, &g, true));
    assert!(keep_sql_contains(&ok, "users"));
    assert!(!keep_sql_contains(&ok, "orders"));
    assert!(!keep_sql_contains(&err, "users"));
}

// ── raw records partition the lines from the first start line on ──

#[test]
fn law_records_partition_lines() {
    let input = format!(
        "junk before\nmore junk\n{HEAD} SELECT 1\nFROM t\n{HEAD} SELECT 2\r\n{HEAD} SELECT 3\nWHERE x\nAND y\n"
    );
    let records = parse_records_from_string(&input);
    assert_eq!(records.len(), 3);
    let flat: Vec<String> = records.iter().flat_map(|r| r.lines.clone()).collect();
    let expected: Vec<String> = input.lines().skip(2).map(|l| l.trim_end_matches(['\r', '\n']).to_string()).collect();
    assert_eq!(flat, expected);
    for r in &records {
        assert!(r.lines[0].starts_with("2025-08-12"));
        assert!(r.lines[1..].iter().all(|l| !l.starts_with("2025-08-12")));
    }
    assert_eq!(records[2].lines, vec![format!("{HEAD} SELECT 3"), "WHERE x".to_string(), "AND y".to_string()]);
}

#[test]
fn records_of_text_without_start_line_are_none() {
    assert!(parse_records_from_string("no record\nhere\n").is_empty());
    assert!(parse_records_from_string("").is_empty());
}

// ── the SQL part of a body ──

#[test]
fn law_sql_body_idempotent() {
    let bodies = [
        "SELECT 1 ROWCOUNT: 5(rows) EXECTIME: 1.0(ms) EXEC_ID: 3.",
        "SELECT 1   \t EXECTIME: 2.0(ms)",
        "UPDATE t EXEC_ID: 9.",
        "plain text",
        "",
    ];
    let once: Vec<String> = bodies.iter().map(|b| extract_sql_body(b)).collect();
    assert_eq!(once, vec!["SELECT 1", "SELECT 1", "UPDATE t", "plain text", ""]);
    for (b, s) in bodies.iter().zip(&once) {
        assert!(b.starts_with(s.as_str()));
        assert_eq!(&extract_sql_body(s), s);
    }
}

// ── a field read back after it was set ──

#[test]
fn law_parsed_meta_insert_then_get() {
    let mut m = ParsedMeta::new();
    assert!(m.is_empty());
    m.insert("user", "alice");
    m.insert("sess", "0x1");
    assert_eq!(m.get("user"), Some("alice"));
    assert_eq!(m.len(), 2);
    m.insert("user", "bob");
    assert_eq!(m.get("user"), Some("bob"));
    assert_eq!(m.get("sess"), Some("0x1"));
    assert_eq!(m.len(), 2);
    assert_eq!(m.get("thrd"), None);
    assert_eq!(m.get_or_empty("thrd"), "");
    assert!(!m.contains("thrd"));
    assert_eq!(m.field_names(), vec!["user", "sess"]);
}

#[test]
fn law_parsed_end_insert_then_get() {
    let mut e = ParsedEnd::new();
    e.insert("ROWCOUNT", 5);
    e.insert("EXEC_ID", 9);
    e.insert("ROWCOUNT", 6);
    assert_eq!(e.get("ROWCOUNT"), Some(6));
    assert_eq!(e.get("EXEC_ID"), Some(9));
    assert_eq!(e.get("EXECTIME"), None);
    assert_eq!(e.len(), 2);
}

// ── a growing file ──

#[test]
fn law_realtime_keeps_incomplete_record_for_next_call() {
    let mut p = RealtimeParser::new(ParserConfig::default(), true).unwrap();
    let first = format!("{HEAD} SELECT 1\n{HEAD} SELECT ");
    let got = p.parse_new_content(first.as_bytes(), first.len() as u64);
    assert_eq!(got.len(), 1);
    assert_eq!(got[0].as_ref().unwrap().sql, "SELECT 1");
    assert_eq!(p.position(), first.len() as u64);
    let second = "2\nFROM t\n";
    let got = p.parse_new_content(second.as_bytes(), second.len() as u64);
    assert_eq!(got.len(), 1);
    assert_eq!(got[0].as_ref().unwrap().sql, "SELECT 2\nFROM t");
    assert_eq!(p.position(), (first.len() + second.len()) as u64);
    let got = p.parse_new_content(b"", 0);
    assert!(got.is_empty());
}

#[test]
fn realtime_reset_and_seek() {
    let mut p = RealtimeParser::new(ParserConfig::default(), true).unwrap();
    let text = format!("{HEAD} SELECT ");
    assert!(p.parse_new_content(text.as_bytes(), 10).is_empty());
    p.seek_to(77);
    assert_eq!(p.position(), 77);
    let got = p.parse_new_content(b"SELECT 9\n", 9);
    assert_eq!(got.len(), 1);
    assert!(got[0].is_err());
    p.reset();
    assert_eq!(p.position(), 0);
    assert_eq!(p.config().file_path, "sqllog.log");
}

#[test]
fn realtime_parse_all_starts_over() {
    let mut p = RealtimeParser::new(ParserConfig::default(), true).unwrap();
    p.seek_to(500);
    let text = format!("{HEAD} SELECT 1\n{HEAD} SELECT 2\n");
    let got = p.parse_all(text.as_bytes());
    assert_eq!(got.len(), 2);
    assert_eq!(got[1].as_ref().unwrap().sql, "SELECT 2");
    assert_eq!(p.position(), text.len() as u64);
}

#[test]
fn realtime_missing_file() {
    let cfg = ParserConfig { file_path: "nowhere.log".to_string(), poll_interval_ms: 10, buffer_size: 16 };
    match RealtimeParser::new(cfg, false) {
        Err(ParseError::FileNotFound { path }) => assert_eq!(path, "nowhere.log"),
        _ => panic!("expected FileNotFound"),
    }
}

// ── indicators split off a record's content ──

#[test]
fn law_split_parts_zero_indicators_stay_in_sql() {
    let with = b"SELECT 1 EXECTIME: 1.5(ms) ROWCOUNT: 2(rows) EXEC_ID: 3.";
    let k = find_indicators_split(with);
    assert_eq!(&with[..k], b"SELECT 1 ");
    assert!(with[k..].starts_with(b"EXECTIME:"));
    let zero = b"SELECT 1 EXECTIME: 0(ms) ROWCOUNT: 0(rows) EXEC_ID: 0.";
    assert_eq!(find_indicators_split(zero), zero.len());
    let none = b"SELECT 1;";
    assert_eq!(find_indicators_split(none), none.len());
}

#[test]
fn law_lazy_record_body_and_indicators() {
    let rec = LazySqllog {
        ts: "2025-08-12 10:57:09.548".to_string(),
        meta_raw: "EP[0] sess:1 thrd:2 user:u trxid:3 stmt:4 appname:a".to_string(),
        content_raw: b"SELECT 1 EXECTIME: 1.5(ms) ROWCOUNT: 2(rows) EXEC_ID: 3.".to_vec(),
        tag: None,
        encoding: FileEncodingHint::Utf8,
    };
    let k = rec.body_len();
    assert_eq!(rec.body_bytes(), b"SELECT 1 ");
    assert_eq!(rec.body(), "SELECT 1 ");
    assert_eq!(rec.indicators_raw().unwrap(), "EXECTIME: 1.5(ms) ROWCOUNT: 2(rows) EXEC_ID: 3.");
    assert_eq!(k + rec.indicators_raw().unwrap().len(), rec.content_raw.len());
    let m = rec.parse_indicators().unwrap();
    assert_eq!(m.exectime, "1.5");
    assert_eq!(m.rowcount, 2);
    assert_eq!(m.exec_id, 3);
    let pm = rec.parse_performance_metrics();
    assert_eq!(pm.sql, "SELECT 1 ");
    assert_eq!(pm.rowcount, 2);
    assert_eq!(rec.parse_meta().username, "u");

    let plain = LazySqllog { content_raw: b"SELECT 2;".to_vec(), ..rec.clone() };
    assert_eq!(plain.body(), "SELECT 2;");
    assert!(plain.indicators_raw().is_none());
    assert!(plain.parse_indicators().is_none());
    let pm = plain.parse_performance_metrics();
    assert_eq!((pm.exectime.as_str(), pm.rowcount, pm.exec_id), ("", 0, 0));

    let ora = LazySqllog { content_raw: b": SELECT 3".to_vec(), tag: Some("ORA".to_string()), ..rec };
    assert_eq!(ora.parse_performance_metrics().sql, "SELECT 3");
}

// ── encodings ──

#[test]
fn gb18030_content_is_decoded() {
    let bytes = GB18030.encode("用户", EncoderTrap::Strict).unwrap();
    assert_eq!(decode_content_bytes(&bytes, FileEncodingHint::Gb18030), "用户");
    assert_eq!(decode_content_bytes("用户".as_bytes(), FileEncodingHint::Utf8), "用户");
    assert_eq!(decode_content_bytes(&[b'a', 0xff, b'b'], FileEncodingHint::Utf8), "a\u{fffd}b");
}

#[test]
fn gb18030_record_is_parsed_with_hint_and_detected() {
    let mut raw = Vec::new();
    raw.extend_from_slice(b"2025-08-12 10:57:09.548 (EP[0] sess:1 thrd:2 user:");
    raw.extend_from_slice(&GB18030.encode("张三", EncoderTrap::Strict).unwrap());
    raw.extend_from_slice(b" trxid:3 stmt:4 appname:a) SELECT 1");
    let recs = parse_log_bytes(&raw, FileEncodingHint::Gb18030);
    assert_eq!(recs[0].as_ref().unwrap().username, "张三");
    let sample = EncodingSample { head: raw.clone(), tail: None };
    assert_eq!(detect_encoding(&sample), FileEncodingHint::Gb18030);
    let utf8 = EncodingSample { head: "用户 ok".as_bytes().to_vec(), tail: Some(b"tail".to_vec()) };
    assert_eq!(detect_encoding(&utf8), FileEncodingHint::Utf8);
}

#[test]
fn tail_sample_only_beyond_head() {
    assert_eq!(tail_sample_start(100, 100), None);
    assert_eq!(tail_sample_start(70_000, 65_536), Some(70_000 - 4096));
    assert_eq!(tail_sample_start(66_000, 65_536), Some(65_536));
}

#[test]
fn builder_keeps_path_and_hint() {
    let b = LogParserBuilder::new("a.log").encoding_hint(FileEncodingHint::Utf8);
    assert!(!b.needs_sample());
    let p = b.build(Err(ParseError::IoError("unused".to_string()))).unwrap();
    assert_eq!(p.path(), "a.log");
    assert_eq!(p.encoding(), FileEncodingHint::Utf8);
    let auto = LogParserBuilder::new("b.log");
    assert!(auto.needs_sample());
    let p = auto.build(Ok(EncodingSample { head: b"abc".to_vec(), tail: None })).unwrap();
    assert_eq!(p.encoding(), FileEncodingHint::Utf8);
}

// ── line-by-line reading ──

#[test]
fn assembler_gathers_continuation_lines() {
    let mut a = RecordAssembler::new(FileEncodingHint::Utf8);
    assert_eq!(a.next_line_number(), 1);
    assert!(a.push_line(b"stray line\n").is_none());
    let l1 = format!("{HEAD} SELECT 1\n");
    let first = a.push_line(l1.as_bytes()).unwrap();
    match first {
        Err(ParseError::InvalidFormat { raw, line_number }) => {
            assert_eq!(raw, "stray line");
            assert_eq!(line_number, 1);
        },
        _ => panic!("expected the stray line to fail"),
    }
    assert!(a.push_line(b"FROM t\r\n").is_none());
    let l2 = format!("{HEAD} SELECT 2\n");
    let second = a.push_line(l2.as_bytes()).unwrap().unwrap();
    assert_eq!(second.sql, "SELECT 1\nFROM t");
    let last = a.finish().unwrap().unwrap();
    assert_eq!(last.sql, "SELECT 2");
    assert!(a.is_done());
    assert!(a.finish().is_none());
    assert!(a.push_line(l2.as_bytes()).is_none());
    let e = a.fail("disk gone".to_string());
    assert_eq!(e, ParseError::IoError("disk gone".to_string()));
}

#[test]
fn sqllog_parser_push_and_finish() {
    let mut p = SqllogParser::new();
    let l1 = format!("{HEAD} SELECT 1\n");
    assert!(line_start_ok(&l1));
    assert!(p.push_line(&l1).is_none());
    assert!(p.push_line("FROM t\n").is_none());
    let l2 = format!("{HEAD} SELECT 2 EXECTIME: 1.0(ms) ROWCOUNT: 1(rows) EXEC_ID: 5.\n");
    let first = p.push_line(&l2).unwrap().unwrap();
    assert_eq!(first.body, "SELECT 1\nFROM t");
    let second = p.finish().unwrap().unwrap();
    assert_eq!(second.body, "SELECT 2");
    assert_eq!(second.execute_id(), Some(5));
    assert!(p.finish().is_none());
}

// ── errors ──

#[test]
fn each_error_kind_has_a_summary() {
    let cases = [
        (ParseError::InvalidFormat { raw: "x".into(), line_number: 3 }, "invalid format at line 3 | raw: x"),
        (ParseError::FileNotFound { path: "p".into() }, "file not found or inaccessible: p"),
        (ParseError::IoError("io".into()), "IO error: io"),
        (ParseError::EmptyInput, "empty input"),
        (ParseError::InvalidRecordStartLine { raw: "r".into() }, "invalid record start line: r"),
        (ParseError::LineTooShort { length: 3, raw: "abc".into() }, "line too short: abc"),
        (ParseError::MissingClosingParen { raw: "(".into() }, "missing closing parenthesis: ("),
        (ParseError::InsufficientMetaFields { count: 2, raw: "m".into() }, "insufficient meta fields: m"),
        (ParseError::InvalidEpFormat { value: "EP".into(), raw: "m".into() }, "invalid EP format: EP"),
        (ParseError::EpParseError { value: "999".into(), raw: "m".into() }, "EP parse error: 999"),
        (
            ParseError::InvalidFieldFormat { expected: "sess:".into(), actual: "x".into(), raw: "m".into() },
            "invalid field format: x",
        ),
        (ParseError::IndicatorsParseError { reason: "bad".into(), raw: "m".into() }, "indicators parse error: bad"),
    ];
    for (e, s) in cases {
        assert_eq!(e.summary(), s);
    }
    assert_eq!(AsyncError::from(ParseError::EmptyInput).message(), "parse error: empty input");
    assert_eq!(AsyncError::Panic("boom".into()).message(), "blocking task panicked: boom");
}

#[test]
fn summary_names_line_number() {
    let e = ParseError::InvalidFormat { raw: "test".to_string(), line_number: 42 };
    assert_eq!(e.summary(), "invalid format at line 42 | raw: test");
    let e = ParseError::InvalidFormat { raw: String::new(), line_number: 0 };
    assert_eq!(e.summary(), "invalid format at line 0 | raw: ");
    let e = ParseError::InvalidFormat { raw: "r".to_string(), line_number: u64::MAX };
    assert_eq!(e.summary(), format!("invalid format at line {} | raw: r", u64::MAX));
}

#[test]
fn invalid_record_carries_line_and_raw_text() {
    match parse_record(b"not a record") {
        Err(ParseError::InvalidFormat { raw, line_number }) => {
            assert_eq!(raw, "not a record");
            assert_eq!(line_number, 0);
        },
        _ => panic!("expected InvalidFormat"),
    }
}

// ── several patterns at once ──

#[test]
fn matcher_finds_first_position_of_each_pattern() {
    let m = Matcher::from_patterns(&["abc", "", "x"]).unwrap();
    assert_eq!(m.patterns_len(), 2);
    assert_eq!(m.find_first_positions(b"zzabczx--x"), vec![Some(2), Some(6)]);
    assert_eq!(m.find_first_positions(b"nothing"), vec![None, None]);
    assert!(Matcher::from_patterns(&["", ""]).is_none());
    assert!(Matcher::from_patterns(&["a", "a"]).is_none());
}

// ── an execution time that reads as zero in f32 ──

#[test]
fn tiny_execution_times_read_as_zero_like_f32() {
    let half = "7.00649232162408535461864791644958065640130970938257885878534141944895541342930300743319094181060791015625e-46";
    let above = "7.00649232162408535461864791644958065640130970938257885878534141944895541342930300743319094181060791015626e-46";
    let literals = [
        "0", "-0.0", "0e999999999999999999999999", "1e-46", "1e-45", "7e-46", "7.1e-46", half, above,
        "0.000000000000000000000000000000000000000000000700649232162408535461864791644958065640130970938257885878534141944895541342930300743319094181060791015625",
        "0.0000000000000000000000000000000000000000000007006492321624085354618647916449580656401309709382578858785341419448955413429303007433190941810607910156251",
        "70064923216240853546186479164495806564013097093825788587853414194489554134293030074331909418106079101562500e-151",
        "1e-99999999999999999999999", "1e99999999999999999999999", "1.5", ".5", "5.", "inf", "NaN",
    ];
    for lit in literals {
        let raw = format!("SELECT 1 EXECTIME: {lit}(ms) ROWCOUNT: 0(rows) EXEC_ID: 0.");
        let expect_zero = lit.parse::<f32>().unwrap() == 0.0;
        let split = find_indicators_split(raw.as_bytes());
        assert_eq!(split == raw.len(), expect_zero, "literal {lit}");
    }
}

#[test]
fn realtime_delivers_each_record_once() {
    let mut p = RealtimeParser::new(ParserConfig::default(), true).unwrap();
    let first = "2025-08-12 10:57:09.562 (EP[0] sess:1 thrd:1 user:user1 trxid:0 stmt:1 appname:MyApp) SELECT 1\n\
                 2025-08-12 10:57:10.123 (EP[0] sess:2 thrd:2 user:user2 trxid:101 stmt:2 appname:MyApp) SELECT 2\n";
    assert_eq!(p.parse_new_content(first.as_bytes(), first.len() as u64).len(), 2);
    let before = p.position();
    let more = "2025-08-12 10:57:11.456 (EP[0] sess:3 thrd:3 user:test trxid:102 stmt:3 appname:MyApp) SELECT 3\n";
    let got = p.parse_new_content(more.as_bytes(), more.len() as u64);
    assert_eq!(got.len(), 1);
    let rec = got[0].as_ref().unwrap();
    assert_eq!(rec.username, "test");
    assert_eq!(rec.trxid, "102");
    assert!(p.position() > before);
}

#[test]
fn line_by_line_errors_name_their_first_line() {
    let data = format!("junk\nmore junk\n{HEAD} SELECT 1\n2025-08-12 10:57:09.548 broken\nnext\n{HEAD} SELECT 2\n");
    let got = parse_log_bytes(data.as_bytes(), FileEncodingHint::Utf8);
    assert_eq!(got.len(), 4);
    match &got[0] {
        Err(ParseError::InvalidFormat { raw, line_number }) => {
            assert_eq!(raw, "junk");
            assert_eq!(*line_number, 1);
        },
        _ => panic!("expected the leading junk to fail"),
    }
    assert_eq!(got[1].as_ref().unwrap().sql, "SELECT 1");
    match &got[2] {
        Err(ParseError::InvalidFormat { line_number, .. }) => assert_eq!(*line_number, 4),
        _ => panic!("expected the broken record to fail"),
    }
    assert_eq!(got[3].as_ref().unwrap().sql, "SELECT 2");
}
