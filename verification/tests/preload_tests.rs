use cortex::preload::{order_newest_first, preload_records};
use cortex::tail::OffsetTable;

fn line_at(ts: &str, duration_ms: u64) -> String {
    format!(
        "{{\"timestamp\": \"{}\", \"level\": \"info\", \"method\": \"GET\", \"path\": \"/p\", \"status\": 200, \"duration_ms\": {}, \"ip\": \"i\", \"size\": 0}}",
        ts, duration_ms
    )
}

#[test]
fn preload_forwards_only_recent_records_and_seals_the_file() {
    let now = chrono::Utc::now();
    let fresh = now.to_rfc3339();
    let stale = (now - chrono::Duration::minutes(20)).to_rfc3339();
    let mut content = String::new();
    for k in 0..3u64 {
        content.push_str(&line_at(&fresh, 10 + k));
        content.push('\n');
    }
    for k in 0..3u64 {
        content.push_str(&line_at(&stale, 90 + k));
        content.push('\n');
    }
    let cutoff = cortex::clock::preload_cutoff_millis();
    let recs = preload_records(content.as_bytes(), cutoff);
    assert_eq!(recs.len(), 3);
    assert_eq!(recs[0].duration_micros, 10_000);
    assert_eq!(recs[2].duration_micros, 12_000);

    // Afterwards the offset stands at the file's full length, so a live
    // append event over unchanged content reads nothing.
    let mut t = OffsetTable::new();
    let len = content.len() as u64;
    t.set_offset(b"api.log", len);
    assert_eq!(t.begin_read(b"api.log", len), len);
    let (again, bad) = cortex::ingest::ingest_chunk(b"");
    assert_eq!(again.len(), 0);
    assert_eq!(bad, 0);
}

#[test]
fn unparseable_timestamps_are_skipped_in_preload() {
    let content = format!("{}\n{}\n", line_at("not a timestamp", 1), line_at("2999-01-01T00:00:00Z", 2));
    let recs = preload_records(content.as_bytes(), 0);
    assert_eq!(recs.len(), 1);
    assert_eq!(recs[0].duration_micros, 2_000);
}

#[test]
fn cutoff_is_inclusive() {
    let content = format!("{}\n", line_at("1970-01-01T00:00:01Z", 7));
    let at = preload_records(content.as_bytes(), 1_000);
    assert_eq!(at.len(), 1);
    let after = preload_records(content.as_bytes(), 1_001);
    assert_eq!(after.len(), 0);
}

#[test]
fn newest_first_ordering() {
    let mtimes = vec![5u64, 9, 1, 9, 3];
    let order = order_newest_first(&mtimes);
    assert_eq!(order.len(), 5);
    let sorted_times: Vec<u64> = order.iter().map(|&i| mtimes[i]).collect();
    assert_eq!(sorted_times, vec![9, 9, 5, 3, 1]);
    // Every file appears exactly once.
    let mut seen = vec![false; mtimes.len()];
    for &i in &order {
        assert!(!seen[i]);
        seen[i] = true;
    }
    assert!(seen.iter().all(|&s| s));
}
