use smart_todo::sync::op::{Op, OpKind};
use smart_todo::sync::store::{
    chunk_plan, is_segment_name, ops_before_failure, peer_ids, segment_index, segment_lines, sort_segments, Segment,
    SyncFolder, SEGMENT_MAX_BYTES,
};

fn op(seq: u64, device: &str) -> Op {
    Op {
        seq,
        device: device.into(),
        lamport: seq,
        ts: "2026-09-04T10:00:00Z".into(),
        entity: "list".into(),
        uuid: format!("u{seq}"),
        kind: OpKind::Upsert,
        fields: Vec::new(),
    }
}

fn segment(path: &str, size: u64) -> Segment {
    Segment { path: path.to_string(), size, mtime: 0 }
}

#[test]
fn a_half_written_final_line_is_ignored_not_parsed() {
    let raw = "{\"seq\":1,\"device\":\"dev1\"}\n{\"seq\":2,\"device\":\"dev1\",\"lam";
    assert_eq!(segment_lines(raw), vec!["{\"seq\":1,\"device\":\"dev1\"}".to_string()]);
}

#[test]
fn blank_lines_are_skipped_and_lines_are_trimmed() {
    assert_eq!(segment_lines("a\n\n  b \r\nc"), vec!["a".to_string(), "b".to_string()]);
    assert!(segment_lines("").is_empty());
    assert!(segment_lines("no newline yet").is_empty());
}

#[test]
fn reading_stops_at_the_first_corrupt_line() {
    let ops = ops_before_failure(vec![Some(op(1, "d")), Some(op(2, "d")), None, Some(op(4, "d"))]);
    let seqs: Vec<u64> = ops.iter().map(|o| o.seq).collect();
    assert_eq!(seqs, vec![1, 2]);
}

#[test]
fn peers_exclude_our_own_device() {
    assert_eq!(peer_ids(vec!["mine".to_string(), "theirs".to_string()], "mine"), vec!["theirs".to_string()]);
}

#[test]
fn peers_are_listed_in_name_order() {
    let got = peer_ids(vec!["zed".to_string(), "mine".to_string(), "amy".to_string(), "bob".to_string()], "mine");
    assert_eq!(got, vec!["amy".to_string(), "bob".to_string(), "zed".to_string()]);
}

#[test]
fn segment_files_are_recognised_by_name() {
    assert!(is_segment_name("ops-000001.jsonl"));
    assert!(!is_segment_name("meta.json"));
    assert!(!is_segment_name("ops-000001.jsonl.tmp"));
}

#[test]
fn segments_are_named_with_six_digit_numbers() {
    let folder = SyncFolder::new("/cloud");
    assert_eq!(folder.device_dir("dev1"), "/cloud/devices/dev1");
    assert_eq!(folder.segment_path("dev1", 7), "/cloud/devices/dev1/ops-000007.jsonl");
    assert_eq!(folder.segment_path("dev1", 1234567), "/cloud/devices/dev1/ops-1234567.jsonl");
    assert_eq!(folder.meta_path("dev1"), "/cloud/devices/dev1/meta.json");
    assert_eq!(folder.root(), "/cloud");
}

#[test]
fn segment_numbers_are_read_back_from_paths() {
    assert_eq!(segment_index("/cloud/devices/dev1/ops-000042.jsonl"), 42);
    assert_eq!(segment_index("ops-7.jsonl"), 7);
    assert_eq!(segment_index("/x/notes.txt"), 0);
    assert_eq!(segment_index("/x/ops-abc.jsonl"), 0);
}

#[test]
fn appends_go_to_the_newest_segment_until_it_is_full() {
    let folder = SyncFolder::new("/cloud");
    assert_eq!(folder.current_segment("dev1", &Vec::new()), "/cloud/devices/dev1/ops-000001.jsonl");
    let small = vec![segment("/cloud/devices/dev1/ops-000001.jsonl", 10)];
    assert_eq!(folder.current_segment("dev1", &small), "/cloud/devices/dev1/ops-000001.jsonl");
    let full = vec![segment("/cloud/devices/dev1/ops-000001.jsonl", SEGMENT_MAX_BYTES)];
    assert_eq!(folder.current_segment("dev1", &full), "/cloud/devices/dev1/ops-000002.jsonl");
}

#[test]
fn segments_are_taken_oldest_first() {
    let sorted = sort_segments(vec![
        segment("/d/ops-000003.jsonl", 3),
        segment("/d/ops-000001.jsonl", 1),
        segment("/d/ops-000002.jsonl", 2),
    ]);
    let sizes: Vec<u64> = sorted.iter().map(|s| s.size).collect();
    assert_eq!(sizes, vec![1, 2, 3]);
}

#[test]
fn a_rewritten_log_is_split_when_a_segment_reaches_the_limit() {
    let big = SEGMENT_MAX_BYTES as usize;
    assert_eq!(chunk_plan(&vec![10, 20, 30]), vec![3]);
    assert_eq!(chunk_plan(&vec![big / 2, big / 2, 5]), vec![2, 1]);
    assert_eq!(chunk_plan(&vec![big, 1]), vec![1, 1]);
    assert!(chunk_plan(&Vec::new()).is_empty());
}

#[test]
fn two_devices_never_write_the_same_file() {
    let folder = SyncFolder::new("/cloud");
    assert_ne!(folder.segment_path("ab", 1), folder.segment_path("abc", 1));
    assert_ne!(folder.meta_path("ab"), folder.meta_path("ba"));
    assert!(folder.segment_path("ab", 1).starts_with(&folder.device_dir("ab")));
}

#[test]
fn a_rewritten_log_sorts_after_the_segments_it_replaces() {
    let folder = SyncFolder::new("/cloud");
    let first_rewritten = folder.segment_path("dev1", smart_todo::sync::store::REWRITE_FIRST_INDEX);
    for index in [1u64, 42, 99999] {
        assert!(folder.segment_path("dev1", index) < first_rewritten);
    }
}

#[test]
fn a_first_rewrite_starts_at_the_fresh_numbering_and_removes_the_old_log() {
    let folder = SyncFolder::new("/cloud");
    let old = vec![folder.segment_path("dev1", 1), folder.segment_path("dev1", 2)];
    let (written, removed) = smart_todo::sync::store::rewrite_plan(&folder, "dev1", &old, &vec![10, 20, 30]);
    assert_eq!(written, vec![("/cloud/devices/dev1/ops-1000000.jsonl".to_string(), 3)]);
    assert_eq!(removed, old);
}

#[test]
fn a_second_rewrite_never_removes_what_it_just_wrote() {
    let folder = SyncFolder::new("/cloud");
    let big = SEGMENT_MAX_BYTES as usize;
    let old = vec![folder.segment_path("dev1", 1000000), folder.segment_path("dev1", 1000001)];
    let (written, removed) = smart_todo::sync::store::rewrite_plan(&folder, "dev1", &old, &vec![big, 5]);
    assert_eq!(
        written,
        vec![
            ("/cloud/devices/dev1/ops-1000002.jsonl".to_string(), 1),
            ("/cloud/devices/dev1/ops-1000003.jsonl".to_string(), 1),
        ]
    );
    assert_eq!(removed, old);
    assert!(written.iter().all(|(p, _)| !removed.contains(p)));
}
