use cortex::record::parse_record;
use cortex::stats::Analyzer;

fn rec(method: &str, path: &str, status: i64, duration_ms: u64) -> cortex::record::Record {
    let l = format!(
        "{{\"timestamp\": \"2024-01-01T00:00:00Z\", \"level\": \"info\", \"method\": \"{}\", \"path\": \"{}\", \"status\": {}, \"duration_ms\": {}, \"ip\": \"10.0.0.1\", \"size\": 100}}",
        method, path, status, duration_ms
    );
    parse_record(l.as_bytes()).unwrap()
}

#[test]
fn two_records_scenario() {
    // One success at 100 ms, one server error at 300 ms, same endpoint:
    // count 2, error rate 50%, and the floor-indexed estimator reads the
    // ascending sort [100, 300] at rank floor(2 * P / 100) = 1 for each of
    // P50, P95 and P99.
    let mut a = Analyzer::new();
    a.process_log(&rec("GET", "/users", 200, 100));
    a.process_log(&rec("GET", "/users", 500, 300));
    let s = a.query(b"GET", b"/users");
    assert_eq!(s.count, 2);
    assert_eq!(s.error_count, 1);
    assert_eq!(s.p50, 300_000);
    assert_eq!(s.p95, 300_000);
    assert_eq!(s.p99, 300_000);
    let error_rate = (s.error_count as f64 / s.count as f64) * 100.0;
    assert_eq!(error_rate, 50.0);
}

#[test]
fn count_equals_latencies_appended() {
    let mut a = Analyzer::new();
    for k in 0..7u64 {
        a.process_log(&rec("GET", "/users", 200, 10 + k));
    }
    for _ in 0..3 {
        a.process_log(&rec("POST", "/users", 200, 50));
    }
    assert_eq!(a.query(b"GET", b"/users").count, 7);
    assert_eq!(a.query(b"POST", b"/users").count, 3);
}

#[test]
fn percentiles_read_the_sorted_sequence_at_floor_ranks() {
    let mut a = Analyzer::new();
    // 1..=10 ms, inserted out of order.
    for d in [7u64, 1, 9, 3, 10, 5, 2, 8, 4, 6] {
        a.process_log(&rec("GET", "/items", 200, d));
    }
    let s = a.query(b"GET", b"/items");
    assert_eq!(s.count, 10);
    assert_eq!(s.p50, 6_000); // rank floor(10 * 50 / 100) = 5 of [1..=10]
    assert_eq!(s.p95, 10_000); // rank 9
    assert_eq!(s.p99, 10_000); // rank 9
    assert!(s.p50 <= s.p95 && s.p95 <= s.p99);
}

#[test]
fn single_record_percentiles() {
    let mut a = Analyzer::new();
    a.process_log(&rec("GET", "/one", 200, 42));
    let s = a.query(b"GET", b"/one");
    assert_eq!(s.count, 1);
    assert_eq!(s.p50, 42_000);
    assert_eq!(s.p95, 42_000);
    assert_eq!(s.p99, 42_000);
    assert_eq!(s.error_count, 0);
}

#[test]
fn unknown_key_reports_zeros_not_an_error() {
    let a = Analyzer::new();
    let s = a.query(b"GET", b"/missing");
    assert_eq!(s.count, 0);
    assert_eq!(s.p50, 0);
    assert_eq!(s.p95, 0);
    assert_eq!(s.p99, 0);
    assert_eq!(s.error_count, 0);
    let error_rate = if s.count > 0 {
        (s.error_count as f64 / s.count as f64) * 100.0
    } else {
        0.0
    };
    assert_eq!(error_rate, 0.0);
    assert_eq!(s.p50 as f64, 0.0);
}

#[test]
fn status_four_hundred_is_the_error_boundary() {
    let mut a = Analyzer::new();
    a.process_log_at(&rec("GET", "/b", 399, 1), 1_000);
    a.process_log_at(&rec("GET", "/b", 400, 1), 2_000);
    a.process_log_at(&rec("GET", "/b", 503, 1), 3_000);
    let s = a.query(b"GET", b"/b");
    assert_eq!(s.count, 3);
    assert_eq!(s.error_count, 2);
}

#[test]
fn a_malformed_line_affects_no_key() {
    let good = "{\"timestamp\": \"t\", \"level\": \"info\", \"method\": \"GET\", \"path\": \"/ok\", \"status\": 200, \"duration_ms\": 5, \"ip\": \"i\", \"size\": 0}";
    let chunk = format!("{}\n{{\"method\": \"GET\", \"path\": \"/ok\" oops\n", good);
    let (recs, bad) = cortex::ingest::ingest_chunk(chunk.as_bytes());
    assert_eq!(bad, 1);
    let mut a = Analyzer::new();
    for r in &recs {
        a.process_log(r);
    }
    assert_eq!(a.query(b"GET", b"/ok").count, 1);
}

#[test]
fn keys_use_exact_string_equality() {
    let mut a = Analyzer::new();
    a.process_log(&rec("GET", "/users", 200, 1));
    a.process_log(&rec("GET", "/users/", 200, 1));
    a.process_log(&rec("get", "/users", 200, 1));
    assert_eq!(a.query(b"GET", b"/users").count, 1);
    assert_eq!(a.query(b"GET", b"/users/").count, 1);
    assert_eq!(a.query(b"get", b"/users").count, 1);
}

#[test]
fn rows_are_sorted_and_complete() {
    let mut a = Analyzer::new();
    a.process_log(&rec("POST", "/z", 200, 1));
    a.process_log(&rec("GET", "/b", 200, 1));
    a.process_log(&rec("GET", "/a", 200, 1));
    let order = a.sorted_key_order();
    let keys: Vec<(Vec<u8>, Vec<u8>)> = order.iter().map(|&i| a.key_at(i)).collect();
    assert_eq!(
        keys,
        vec![
            (b"GET".to_vec(), b"/a".to_vec()),
            (b"GET".to_vec(), b"/b".to_vec()),
            (b"POST".to_vec(), b"/z".to_vec()),
        ]
    );
}

#[test]
fn fresh_store_has_no_rows() {
    let a = Analyzer::new();
    assert!(a.sorted_key_order().is_empty());
}
