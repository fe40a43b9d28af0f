use dm_database_parser_sqllog::filter::builder::FilterBuilder;
use dm_database_parser_sqllog::record::Sqllog;

fn make_record() -> Sqllog {
    Sqllog {
        ts: "2024-06-01 10:00:00.000".to_string(),
        tag: Some("SEL".to_string()),
        ep: 2,
        sess_id: "0xABC".to_string(),
        thrd_id: "123".to_string(),
        username: "alice".to_string(),
        trxid: "0".to_string(),
        statement: "0x1".to_string(),
        appname: "myapp".to_string(),
        client_ip: "10.0.0.1".to_string(),
        sql: "SELECT * FROM users".to_string(),
        exectime: "150.0".to_string(),
        rowcount: 10,
        exec_id: 999,
        lock_event: None,
    }
}

// ── FILTER-01: ts 范围 ──

#[test]
fn test_ts_gt() {
    let record = make_record();
    assert!(FilterBuilder::new().ts_gt("2024-05-31").build().matches(&record));
    assert!(!FilterBuilder::new().ts_gt("2024-06-01 10:00:00.000").build().matches(&record));
}

#[test]
fn test_ts_gte() {
    let record = make_record();
    assert!(FilterBuilder::new().ts_gte("2024-06-01 10:00:00.000").build().matches(&record));
    assert!(!FilterBuilder::new().ts_gte("2024-06-01 10:00:00.001").build().matches(&record));
}

#[test]
fn test_ts_lt() {
    let record = make_record();
    assert!(FilterBuilder::new().ts_lt("2024-06-02").build().matches(&record));
    assert!(!FilterBuilder::new().ts_lt("2024-06-01 10:00:00.000").build().matches(&record));
}

#[test]
fn test_ts_lte() {
    let record = make_record();
    assert!(FilterBuilder::new().ts_lte("2024-06-01 10:00:00.000").build().matches(&record));
    assert!(!FilterBuilder::new().ts_lte("2024-06-01 09:59:59.999").build().matches(&record));
}

#[test]
fn test_ts_between() {
    let record = make_record();
    assert!(
        FilterBuilder::new()
            .ts_between("2024-06-01 10:00:00.000", "2024-06-01 11:00:00.000")
            .build()
            .matches(&record)
    );
    assert!(
        !FilterBuilder::new()
            .ts_between("2024-06-01 10:00:00.001", "2024-06-01 11:00:00.000")
            .build()
            .matches(&record)
    );
}


// ── FILTER-02: tag ──

#[test]
fn test_tag_eq() {
    let record = make_record();
    assert!(FilterBuilder::new().tag_eq("SEL").build().matches(&record));
    assert!(!FilterBuilder::new().tag_eq("ORA").build().matches(&record));
}

// ── FILTER-03: ep ──

#[test]
fn test_ep_eq() {
    let record = make_record();
    assert!(FilterBuilder::new().ep_eq(2).build().matches(&record));
    assert!(!FilterBuilder::new().ep_eq(3).build().matches(&record));
}

// ── FILTER-04: 七个字符串元数据字段 ──

#[test]
fn test_sess_id_eq() {
    let record = make_record();
    assert!(
        FilterBuilder::new()
            .sess_id_eq("0xABC")
            .build()
            .matches(&record)
    );
    assert!(
        !FilterBuilder::new()
            .sess_id_eq("0xXYZ")
            .build()
            .matches(&record)
    );
}

#[test]
fn test_thrd_id_eq() {
    let record = make_record();
    assert!(
        FilterBuilder::new()
            .thrd_id_eq("123")
            .build()
            .matches(&record)
    );
    assert!(
        !FilterBuilder::new()
            .thrd_id_eq("999")
            .build()
            .matches(&record)
    );
}

#[test]
fn test_username_eq() {
    let record = make_record();
    assert!(
        FilterBuilder::new()
            .username_eq("alice")
            .build()
            .matches(&record)
    );
    assert!(
        !FilterBuilder::new()
            .username_eq("bob")
            .build()
            .matches(&record)
    );
}

#[test]
fn test_trxid_eq() {
    let record = make_record();
    assert!(FilterBuilder::new().trxid_eq("0").build().matches(&record));
    assert!(
        !FilterBuilder::new()
            .trxid_eq("99")
            .build()
            .matches(&record)
    );
}

#[test]
fn test_statement_eq() {
    let record = make_record();
    assert!(
        FilterBuilder::new()
            .statement_eq("0x1")
            .build()
            .matches(&record)
    );
    assert!(
        !FilterBuilder::new()
            .statement_eq("0x2")
            .build()
            .matches(&record)
    );
}

#[test]
fn test_appname_eq() {
    let record = make_record();
    assert!(
        FilterBuilder::new()
            .appname_eq("myapp")
            .build()
            .matches(&record)
    );
    assert!(
        !FilterBuilder::new()
            .appname_eq("other")
            .build()
            .matches(&record)
    );
}

#[test]
fn test_client_ip_eq() {
    let record = make_record();
    assert!(
        FilterBuilder::new()
            .client_ip_eq("10.0.0.1")
            .build()
            .matches(&record)
    );
    assert!(
        !FilterBuilder::new()
            .client_ip_eq("192.168.0.1")
            .build()
            .matches(&record)
    );
}

// ── FILTER-05: sql ──

#[test]
fn test_sql_contains() {
    let record = make_record();
    assert!(
        FilterBuilder::new()
            .sql_contains("SELECT")
            .build()
            .matches(&record)
    );
    assert!(
        !FilterBuilder::new()
            .sql_contains("INSERT")
            .build()
            .matches(&record)
    );
}

#[test]
fn test_sql_eq() {
    let record = make_record();
    assert!(
        FilterBuilder::new()
            .sql_eq("SELECT * FROM users")
            .build()
            .matches(&record)
    );
    assert!(
        !FilterBuilder::new()
            .sql_eq("SELECT 1")
            .build()
            .matches(&record)
    );
}

#[test]
fn test_sql_starts_with() {
    let record = make_record();
    assert!(
        FilterBuilder::new()
            .sql_starts_with("SELECT")
            .build()
            .matches(&record)
    );
    assert!(
        !FilterBuilder::new()
            .sql_starts_with("UPDATE")
            .build()
            .matches(&record)
    );
}

#[test]
fn test_sql_ends_with() {
    let record = make_record();
    assert!(
        FilterBuilder::new()
            .sql_ends_with("users")
            .build()
            .matches(&record)
    );
    assert!(
        !FilterBuilder::new()
            .sql_ends_with("orders")
            .build()
            .matches(&record)
    );
}

// ── FILTER-06: exectime ──

#[test]
fn test_rowcount_eq() {
    let record = make_record();
    assert!(
        FilterBuilder::new()
            .rowcount_eq(10)
            .build()
            .matches(&record)
    );
    assert!(
        !FilterBuilder::new()
            .rowcount_eq(99)
            .build()
            .matches(&record)
    );
}

#[test]
fn test_rowcount_gt() {
    let record = make_record();
    assert!(FilterBuilder::new().rowcount_gt(5).build().matches(&record));
    assert!(
        !FilterBuilder::new()
            .rowcount_gt(10)
            .build()
            .matches(&record)
    );
}

#[test]
fn test_rowcount_lt() {
    let record = make_record();
    assert!(
        FilterBuilder::new()
            .rowcount_lt(20)
            .build()
            .matches(&record)
    );
    assert!(
        !FilterBuilder::new()
            .rowcount_lt(10)
            .build()
            .matches(&record)
    );
}

// ── FILTER-08: exec_id ──

#[test]
fn test_exec_id_eq() {
    let record = make_record();
    assert!(
        FilterBuilder::new()
            .exec_id_eq(999)
            .build()
            .matches(&record)
    );
    assert!(!FilterBuilder::new().exec_id_eq(0).build().matches(&record));
}

// ── FILTER-09: AND 语义 ──

#[test]
fn test_empty_filter_matches_all() {
    let record = make_record();
    assert!(FilterBuilder::new().build().matches(&record));
}

#[test]
fn test_default_is_same_as_new() {
    let record = make_record();
    assert!(FilterBuilder::default().build().matches(&record));
}
