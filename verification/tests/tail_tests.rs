use cortex::ingest::{ingest_chunk, split_lines};
use cortex::tail::{actionable_paths, is_log_path, EventClass, OffsetTable};

#[test]
fn log_extension_filter() {
    assert!(is_log_path(b"app.log"));
    assert!(is_log_path(b"/var/log/api.2024.log"));
    assert!(!is_log_path(b"app.txt"));
    assert!(!is_log_path(b".log"));
    assert!(!is_log_path(b"/var/log/.log"));
    assert!(!is_log_path(b"log"));
    assert!(!is_log_path(b""));
}

#[test]
fn only_create_and_modify_are_acted_on() {
    let paths = vec![b"a.log".to_vec(), b"b.txt".to_vec(), b"c.log".to_vec()];
    let created = actionable_paths(&EventClass::Created, &paths);
    assert_eq!(created, vec![b"a.log".to_vec(), b"c.log".to_vec()]);
    let modified = actionable_paths(&EventClass::Modified, &paths);
    assert_eq!(modified, vec![b"a.log".to_vec(), b"c.log".to_vec()]);
    let other = actionable_paths(&EventClass::Other, &paths);
    assert!(other.is_empty());
}

#[test]
fn reread_at_unchanged_length_is_idempotent() {
    let mut t = OffsetTable::new();
    let start = t.begin_read(b"a.log", 40);
    assert_eq!(start, 0);
    t.commit_read(b"a.log", 40);
    // Unchanged length: the next read starts at the stored offset, so the
    // region left to read is empty and nothing is delivered again.
    let start2 = t.begin_read(b"a.log", 40);
    assert_eq!(start2, 40);
    assert_eq!(t.get_offset(b"a.log"), Some(40));
    let (recs, bad) = ingest_chunk(b"");
    assert_eq!(recs.len(), 0);
    assert_eq!(bad, 0);
}

#[test]
fn rotation_resets_to_byte_zero() {
    let mut t = OffsetTable::new();
    t.set_offset(b"a.log", 100);
    // The file shrank below the stored offset: re-read from the start.
    let start = t.begin_read(b"a.log", 30);
    assert_eq!(start, 0);
    assert_eq!(t.get_offset(b"a.log"), Some(0));
}

#[test]
fn two_files_rotated_with_interleaved_appends() {
    let mut t = OffsetTable::new();
    // Both files fill up.
    assert_eq!(t.begin_read(b"a.log", 100), 0);
    t.commit_read(b"a.log", 100);
    assert_eq!(t.begin_read(b"b.log", 50), 0);
    t.commit_read(b"b.log", 50);
    // Both rotate at once: each restarts from byte zero.
    assert_eq!(t.begin_read(b"a.log", 30), 0);
    t.commit_read(b"a.log", 30);
    assert_eq!(t.begin_read(b"b.log", 20), 0);
    t.commit_read(b"b.log", 20);
    // Interleaved appends: per file, each read starts where the previous
    // commit ended, so offsets never move backwards and no byte is
    // delivered twice.
    assert_eq!(t.begin_read(b"a.log", 60), 30);
    t.commit_read(b"a.log", 60);
    assert_eq!(t.begin_read(b"b.log", 40), 20);
    t.commit_read(b"b.log", 40);
    assert_eq!(t.begin_read(b"a.log", 90), 60);
    t.commit_read(b"a.log", 90);
    assert_eq!(t.get_offset(b"a.log"), Some(90));
    assert_eq!(t.get_offset(b"b.log"), Some(40));
}

#[test]
fn new_file_starts_at_zero() {
    let mut t = OffsetTable::new();
    assert_eq!(t.get_offset(b"new.log"), None);
    t.note_created(b"new.log");
    assert_eq!(t.get_offset(b"new.log"), Some(0));
}

#[test]
fn split_lines_handles_terminators() {
    let lines = split_lines(b"a\nbc\n\nd");
    assert_eq!(
        lines,
        vec![b"a".to_vec(), b"bc".to_vec(), b"".to_vec(), b"d".to_vec()]
    );
    let lines2 = split_lines(b"a\n");
    assert_eq!(lines2, vec![b"a".to_vec()]);
    let lines3 = split_lines(b"");
    assert!(lines3.is_empty());
}

#[test]
fn malformed_lines_are_skipped_and_counted() {
    let good = "{\"timestamp\": \"t\", \"level\": \"info\", \"method\": \"GET\", \"path\": \"/p\", \"status\": 200, \"duration_ms\": 5, \"ip\": \"i\", \"size\": 0}";
    let chunk = format!("{}\nnot structured data\n\n{}\n", good, good);
    let (recs, bad) = ingest_chunk(chunk.as_bytes());
    assert_eq!(recs.len(), 2);
    assert_eq!(bad, 1);
    assert_eq!(recs[0].duration_micros, 5_000);
}

#[test]
fn successive_appends_deliver_each_line_once() {
    let l1 = "{\"timestamp\": \"t\", \"level\": \"info\", \"method\": \"GET\", \"path\": \"/a\", \"status\": 200, \"duration_ms\": 1, \"ip\": \"i\", \"size\": 0}\n";
    let l2 = "{\"timestamp\": \"t\", \"level\": \"info\", \"method\": \"GET\", \"path\": \"/b\", \"status\": 200, \"duration_ms\": 2, \"ip\": \"i\", \"size\": 0}\n";
    let mut file: Vec<u8> = Vec::new();
    let mut t = OffsetTable::new();

    file.extend_from_slice(l1.as_bytes());
    let start = t.begin_read(b"x.log", file.len() as u64) as usize;
    let (r1, _) = ingest_chunk(&file[start..]);
    t.commit_read(b"x.log", file.len() as u64);
    assert_eq!(r1.len(), 1);
    assert_eq!(r1[0].path, b"/a".to_vec());

    file.extend_from_slice(l2.as_bytes());
    let start = t.begin_read(b"x.log", file.len() as u64) as usize;
    assert_eq!(start, l1.len());
    let (r2, _) = ingest_chunk(&file[start..]);
    t.commit_read(b"x.log", file.len() as u64);
    assert_eq!(r2.len(), 1);
    assert_eq!(r2[0].path, b"/b".to_vec());
}
