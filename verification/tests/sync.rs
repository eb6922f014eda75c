use smart_todo::sync::apply::Applied;
use smart_todo::sync::op::{FieldOp, Op, OpKind, Rev, Val};
use smart_todo::sync::{
    compaction_plan, max_seq, parse_pointer, pointer_path, prune, retry_step, segment_unchanged, sort_by_seq,
    RetryStep, SyncReport, COMPACT_THRESHOLD, MAX_DEFER_ATTEMPTS,
};

fn field(name: &str, v: Val, base: Option<Rev>) -> (String, FieldOp) {
    (name.to_string(), FieldOp { v, base })
}

fn upsert(seq: u64, entity: &str, uuid: &str, fields: Vec<(String, FieldOp)>) -> Op {
    Op {
        seq,
        device: "aaaaaaaa".into(),
        lamport: seq,
        ts: "2026-09-04T10:00:00Z".into(),
        entity: entity.into(),
        uuid: uuid.into(),
        kind: OpKind::Upsert,
        fields,
    }
}

fn delete(seq: u64, entity: &str, uuid: &str) -> Op {
    Op { kind: OpKind::Delete, fields: Vec::new(), ..upsert(seq, entity, uuid, Vec::new()) }
}

fn created_list(seq: u64) -> Op {
    upsert(
        seq,
        "list",
        "l1",
        vec![
            field("title", Val::Text("Work".into()), None),
            field("color", Val::Null, None),
            field("position", Val::Int(0), None),
        ],
    )
}

fn created_task(seq: u64, title: &str) -> Op {
    upsert(
        seq,
        "task",
        "t1",
        vec![
            field("list_uuid", Val::Text("l1".into()), None),
            field("title", Val::Text(title.into()), None),
            field("position", Val::Int(0), None),
        ],
    )
}

fn retitled_task(seq: u64, title: &str, base: u64) -> Op {
    upsert(seq, "task", "t1", vec![field("title", Val::Text(title.into()), Some(Rev::new(base, "aaaaaaaa")))])
}

/// The value a reader replaying `ops` in order ends up with for one field.
fn replayed(ops: &[Op], entity: &str, uuid: &str, name: &str) -> Option<Val> {
    let mut out = None;
    for op in ops.iter().filter(|o| o.entity == entity && o.uuid == uuid) {
        match op.kind {
            OpKind::Delete => out = None,
            OpKind::Upsert => {
                if let Some((_, f)) = op.fields.iter().find(|(n, _)| n == name) {
                    out = Some(f.v.clone());
                }
            }
        }
    }
    out
}

#[test]
fn pruning_keeps_the_creation_and_the_newest_value_of_each_field() {
    let ops = vec![created_list(1), created_task(2, "v1"), retitled_task(3, "v2", 2), retitled_task(4, "v3", 3)];

    let pruned = prune(ops.clone());

    assert_eq!(replayed(&pruned, "task", "t1", "title"), Some(Val::Text("v3".into())));
    assert_eq!(replayed(&pruned, "task", "t1", "list_uuid"), Some(Val::Text("l1".into())));
    assert!(pruned.len() < 5, "superseded ops should be gone");
    let seqs: Vec<u64> = pruned.iter().map(|o| o.seq).collect();
    assert_eq!(seqs, vec![1, 2, 4]);
}

#[test]
fn pruning_drops_everything_before_a_deletion() {
    let ops = vec![created_list(1), created_task(2, "Doomed"), delete(3, "task", "t1")];

    let pruned = prune(ops);

    let task_ops: Vec<&Op> = pruned.iter().filter(|o| o.entity == "task").collect();
    assert_eq!(task_ops.len(), 1);
    assert_eq!(task_ops[0].kind, OpKind::Delete);
    assert_eq!(pruned.len(), 2);
}

#[test]
fn pruning_keeps_only_the_newest_join_row() {
    let link = |seq| upsert(seq, "task_tag", "t1:g1", Vec::new());
    let pruned = prune(vec![link(1), link(2), link(3)]);
    assert_eq!(pruned.len(), 1);
    assert_eq!(pruned[0].seq, 3);
}

#[test]
fn pruning_an_empty_log_leaves_it_empty() {
    assert!(prune(Vec::new()).is_empty());
}

#[test]
fn replaying_a_pruned_log_gives_what_the_whole_log_gives() {
    let ops = vec![
        created_list(1),
        created_task(2, "a"),
        retitled_task(3, "b", 2),
        upsert(4, "list", "l1", vec![field("title", Val::Text("Job".into()), Some(Rev::new(1, "aaaaaaaa")))]),
        delete(5, "task", "t1"),
        created_task(6, "again"),
    ];
    let pruned = prune(ops.clone());
    for (entity, uuid, name) in [("task", "t1", "title"), ("task", "t1", "list_uuid"), ("list", "l1", "title"), ("list", "l1", "position")] {
        assert_eq!(replayed(&pruned, entity, uuid, name), replayed(&ops, entity, uuid, name));
    }
}

#[test]
fn ops_are_replayed_in_sequence_order_and_ties_keep_their_order() {
    let ops = vec![created_task(5, "x"), created_list(2), retitled_task(5, "y", 1), created_list(1)];
    let sorted = sort_by_seq(ops);
    let seqs: Vec<u64> = sorted.iter().map(|o| o.seq).collect();
    assert_eq!(seqs, vec![1, 2, 5, 5]);
    assert_eq!(sorted[2].fields.len(), 3, "the earlier of two equal seqs stays first");
    assert_eq!(sorted[3].fields.len(), 1);
}

#[test]
fn a_short_log_is_not_compacted() {
    let ops: Vec<Op> = (1..=10).map(|s| retitled_task(s, "t", 0)).collect();
    assert!(compaction_plan(ops).is_none());
}

#[test]
fn a_long_log_is_sorted_and_pruned() {
    let mut ops: Vec<Op> = (1..=COMPACT_THRESHOLD as u64).rev().map(|s| retitled_task(s + 1, "t", 0)).collect();
    ops.push(created_task(1, "first"));
    let out = compaction_plan(ops).unwrap();
    let seqs: Vec<u64> = out.iter().map(|o| o.seq).collect();
    assert_eq!(seqs, vec![1, COMPACT_THRESHOLD as u64 + 1]);
}

#[test]
fn a_deferred_op_waits_until_its_attempts_run_out() {
    assert_eq!(retry_step(&Applied::Deferred("referenced row not yet synced"), 0), RetryStep::KeepWaiting);
    assert_eq!(retry_step(&Applied::Deferred("referenced row not yet synced"), MAX_DEFER_ATTEMPTS - 1), RetryStep::KeepWaiting);
    assert_eq!(retry_step(&Applied::Deferred("referenced row not yet synced"), MAX_DEFER_ATTEMPTS), RetryStep::Finish);
    assert_eq!(retry_step(&Applied::Landed { conflicts: 0 }, 0), RetryStep::Finish);
    assert_eq!(retry_step(&Applied::Ignored("deleted later"), 3), RetryStep::Finish);
}

#[test]
fn ops_that_did_not_land_are_not_counted() {
    let mut report = SyncReport::default();
    report.count(&Applied::Ignored("already applied"));
    report.count(&Applied::Deferred("referenced row not yet synced"));
    assert_eq!(report, SyncReport::default());
}

#[test]
fn landed_ops_and_their_conflicts_are_counted() {
    let mut report = SyncReport::default();
    report.count(&Applied::Landed { conflicts: 0 });
    report.count(&Applied::Landed { conflicts: 2 });
    assert_eq!(report, SyncReport { pushed: 0, applied: 2, conflicts: 2, waiting: 0 });
}

#[test]
fn a_segment_is_read_again_only_when_it_changed() {
    assert!(segment_unchanged(Some((120, 7)), 120, 7));
    assert!(!segment_unchanged(Some((120, 7)), 121, 7));
    assert!(!segment_unchanged(Some((120, 7)), 120, 8));
    assert!(!segment_unchanged(None, 0, 0));
}

#[test]
fn the_highest_sequence_number_is_found() {
    assert_eq!(max_seq(&Vec::new()), 0);
    assert_eq!(max_seq(&vec![created_list(3), created_task(9, "x"), retitled_task(4, "y", 1)]), 9);
}

#[test]
fn the_pointer_file_sits_in_the_config_folder() {
    assert_eq!(pointer_path("/home/me/.config/smart-todo"), "/home/me/.config/smart-todo/sync-dir.txt");
}

#[test]
fn a_pointer_names_its_trimmed_contents() {
    assert_eq!(parse_pointer("  /mnt/OneDrive/todo\n"), Some("/mnt/OneDrive/todo".to_string()));
    assert_eq!(parse_pointer(" \n\t"), None);
    assert_eq!(parse_pointer(""), None);
}

#[test]
fn pruning_a_pruned_log_changes_nothing() {
    let ops = vec![
        created_list(1),
        created_task(2, "a"),
        retitled_task(3, "b", 2),
        retitled_task(4, "c", 3),
        delete(5, "list", "l1"),
    ];
    let once = prune(ops);
    let twice = prune(once.clone());
    let seqs = |v: &Vec<Op>| v.iter().map(|o| o.seq).collect::<Vec<u64>>();
    assert_eq!(seqs(&once), vec![2, 4, 5]);
    assert_eq!(seqs(&twice), seqs(&once));
}
