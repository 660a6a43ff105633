use cortex::record::parse_record;

fn line(
    timestamp: &str,
    level: &str,
    method: &str,
    path: &str,
    status: i64,
    duration: &str,
    ip: &str,
    size: i64,
) -> String {
    format!(
        "{{\"timestamp\": \"{}\", \"level\": \"{}\", \"method\": \"{}\", \"path\": \"{}\", \"status\": {}, \"duration_ms\": {}, \"ip\": \"{}\", \"size\": {}}}",
        timestamp, level, method, path, status, duration, ip, size
    )
}

#[test]
fn parses_a_full_record() {
    let l = line(
        "2024-01-01T00:00:00Z",
        "info",
        "GET",
        "/users",
        200,
        "100",
        "10.0.0.1",
        512,
    );
    let r = parse_record(l.as_bytes()).unwrap();
    assert_eq!(r.timestamp, b"2024-01-01T00:00:00Z".to_vec());
    assert_eq!(r.level, b"info".to_vec());
    assert_eq!(r.method, b"GET".to_vec());
    assert_eq!(r.path, b"/users".to_vec());
    assert_eq!(r.status, 200);
    assert_eq!(r.duration_micros, 100_000);
    assert_eq!(r.ip, b"10.0.0.1".to_vec());
    assert_eq!(r.size, 512);
}

#[test]
fn field_order_does_not_matter() {
    let l = "{\"size\": 1, \"ip\": \"a\", \"duration_ms\": 2.5, \"status\": 404, \"path\": \"/p\", \"method\": \"POST\", \"level\": \"warn\", \"timestamp\": \"t\"}";
    let r = parse_record(l.as_bytes()).unwrap();
    assert_eq!(r.duration_micros, 2_500);
    assert_eq!(r.status, 404);
}

#[test]
fn fraction_digits_past_the_third_do_not_contribute() {
    let l = line("t", "info", "GET", "/p", 200, "1.23456", "i", 0);
    let r = parse_record(l.as_bytes()).unwrap();
    assert_eq!(r.duration_micros, 1_234);
}

#[test]
fn string_escapes_are_decoded() {
    let l = "{\"timestamp\": \"t\", \"level\": \"info\", \"method\": \"GET\", \"path\": \"/a\\\"b\\\\c\\n\", \"status\": 200, \"duration_ms\": 1, \"ip\": \"i\", \"size\": 0}";
    let r = parse_record(l.as_bytes()).unwrap();
    assert_eq!(r.path, b"/a\"b\\c\n".to_vec());
}

#[test]
fn unknown_scalar_fields_are_skipped() {
    let l = "{\"timestamp\": \"t\", \"extra\": true, \"level\": \"info\", \"flag\": null, \"method\": \"GET\", \"cpu\": -2.75, \"path\": \"/p\", \"status\": 200, \"note\": \"x\", \"duration_ms\": 1, \"ip\": \"i\", \"size\": 0, \"off\": false}";
    assert!(parse_record(l.as_bytes()).is_ok());
}

#[test]
fn negative_size_and_status_are_accepted() {
    let l = line("t", "info", "GET", "/p", -1, "0", "i", -42);
    let r = parse_record(l.as_bytes()).unwrap();
    assert_eq!(r.status, -1);
    assert_eq!(r.size, -42);
}

#[test]
fn missing_required_field_is_an_error() {
    let l = "{\"timestamp\": \"t\", \"level\": \"info\", \"method\": \"GET\", \"path\": \"/p\", \"status\": 200, \"duration_ms\": 1, \"ip\": \"i\"}";
    assert!(parse_record(l.as_bytes()).is_err());
}

#[test]
fn duplicate_required_field_is_an_error() {
    let l = "{\"timestamp\": \"t\", \"timestamp\": \"u\", \"level\": \"info\", \"method\": \"GET\", \"path\": \"/p\", \"status\": 200, \"duration_ms\": 1, \"ip\": \"i\", \"size\": 0}";
    assert!(parse_record(l.as_bytes()).is_err());
}

#[test]
fn type_mismatch_is_an_error() {
    let l = "{\"timestamp\": \"t\", \"level\": \"info\", \"method\": \"GET\", \"path\": \"/p\", \"status\": \"200\", \"duration_ms\": 1, \"ip\": \"i\", \"size\": 0}";
    assert!(parse_record(l.as_bytes()).is_err());
    let l2 = line("t", "info", "GET", "/p", 200, "\"fast\"", "i", 0);
    assert!(parse_record(l2.as_bytes()).is_err());
}

#[test]
fn fractional_status_is_an_error() {
    let l = line("t", "info", "GET", "/p", 200, "1", "i", 0).replace("200", "200.5");
    assert!(parse_record(l.as_bytes()).is_err());
}

#[test]
fn not_structured_text_is_an_error() {
    assert!(parse_record(b"plain text line").is_err());
    assert!(parse_record(b"").is_err());
    assert!(parse_record(b"   ").is_err());
    assert!(parse_record(b"[1, 2]").is_err());
}

#[test]
fn trailing_text_is_an_error() {
    let l = line("t", "info", "GET", "/p", 200, "1", "i", 0) + " tail";
    assert!(parse_record(l.as_bytes()).is_err());
    let l2 = line("t", "info", "GET", "/p", 200, "1", "i", 0) + "  ";
    assert!(parse_record(l2.as_bytes()).is_ok());
}

#[test]
fn unsupported_escape_is_an_error() {
    let l = "{\"timestamp\": \"t\", \"level\": \"info\", \"method\": \"GET\", \"path\": \"/\\u0041\", \"status\": 200, \"duration_ms\": 1, \"ip\": \"i\", \"size\": 0}";
    assert!(parse_record(l.as_bytes()).is_err());
}

#[test]
fn oversized_numbers_are_an_error() {
    let l = line("t", "info", "GET", "/p", 200, "1", "i", 0)
        .replace("\"status\": 200", "\"status\": 1234567890123456789");
    assert!(parse_record(l.as_bytes()).is_err());
    let l2 = line("t", "info", "GET", "/p", 200, "1234567890123456", "i", 0);
    assert!(parse_record(l2.as_bytes()).is_err());
    let l3 = line("t", "info", "GET", "/p", 200, "123456789012345", "i", 0);
    assert!(parse_record(l3.as_bytes()).is_ok());
}

#[test]
fn exponent_notation_is_an_error() {
    let l = line("t", "info", "GET", "/p", 200, "1e3", "i", 0);
    assert!(parse_record(l.as_bytes()).is_err());
}

#[test]
fn negative_duration_is_an_error() {
    let l = line("t", "info", "GET", "/p", 200, "-1", "i", 0);
    assert!(parse_record(l.as_bytes()).is_err());
}

#[test]
fn unknown_nested_values_are_skipped() {
    let l = "{\"timestamp\": \"t\", \"meta\": {\"a\": [1, 2, {\"b\": null}], \"s\": \"x\\u0041y\"}, \"level\": \"info\", \"tags\": [\"a\", [true, -1.5], {}], \"method\": \"GET\", \"path\": \"/p\", \"status\": 200, \"duration_ms\": 1, \"ip\": \"i\", \"size\": 0, \"empty\": []}";
    let r = parse_record(l.as_bytes()).unwrap();
    assert_eq!(r.method, b"GET".to_vec());
    assert_eq!(r.duration_micros, 1_000);
}

#[test]
fn unterminated_nested_value_is_an_error() {
    let l = "{\"timestamp\": \"t\", \"meta\": {\"a\": [1, 2, \"level\": \"info\", \"method\": \"GET\", \"path\": \"/p\", \"status\": 200, \"duration_ms\": 1, \"ip\": \"i\", \"size\": 0}";
    assert!(parse_record(l.as_bytes()).is_err());
}
