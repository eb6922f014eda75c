use smart_todo::sync::apply::{adopted_uuid, deleted_since, merge_fields, resolution_plan, tag_name, ColumnSource};
use smart_todo::sync::model::entity;
use smart_todo::sync::op::{FieldOp, Op, OpKind, Rev, Val};

fn upsert(seq: u64, device: &str, lamport: u64, entity: &str, uuid: &str) -> Op {
    Op {
        seq,
        device: device.into(),
        lamport,
        ts: "2026-09-04T10:00:00Z".into(),
        entity: entity.into(),
        uuid: uuid.into(),
        kind: OpKind::Upsert,
        fields: Vec::new(),
    }
}

fn with(mut op: Op, field: &str, value: Val, base: Option<Rev>) -> Op {
    op.fields.push((field.into(), FieldOp { v: value, base }));
    op
}

fn text(s: &str) -> Val {
    Val::Text(s.into())
}

fn values(op: &Op) -> Vec<(String, Val)> {
    op.fields.iter().map(|(n, f)| (n.clone(), f.v.clone())).collect()
}

#[test]
fn a_reference_is_resolved_by_looking_up_its_uuid() {
    let task = entity("task").unwrap();
    let op = with(
        with(upsert(1, "remote", 5, "task", "t1"), "list_uuid", text("missing-list"), None),
        "title",
        text("Buy milk"),
        None,
    );
    let plan = resolution_plan(&task, &op);
    assert_eq!(plan.len(), 2);
    assert_eq!(plan[0].0, "list_uuid");
    assert!(matches!(&plan[0].1, ColumnSource::Lookup { target: "list", uuid } if uuid == "missing-list"));
    assert!(matches!(&plan[1].1, ColumnSource::Ready(Val::Text(t)) if t == "Buy milk"));
}

#[test]
fn a_remote_edit_lands_only_the_field_it_carries() {
    // Description edited here, due date edited on the other machine.
    let current = vec![("title".to_string(), text("Task")), ("description".to_string(), text("mine"))];
    let remote = with(upsert(3, "r", 9, "task", "t1"), "due_date", text("2026-09-10"), None);
    let plan = merge_fields(&values(&remote), &vec![None], &remote, &current);
    assert_eq!(plan.winning, vec![("due_date".to_string(), text("2026-09-10"))]);
    assert!(plan.conflicts.is_empty());
}

#[test]
fn an_independent_newer_edit_lands_and_files_a_conflict() {
    // We renamed it locally on top of 1@r; the other machine did too.
    let current = vec![("title".to_string(), text("Mine"))];
    let ours = vec![Some(Rev::new(2, "local"))];
    let remote = with(upsert(2, "r", 9, "list", "l1"), "title", text("Theirs"), Some(Rev::new(1, "r")));
    let plan = merge_fields(&values(&remote), &ours, &remote, &current);
    assert_eq!(plan.conflicts.len(), 1);
    let c = &plan.conflicts[0];
    assert_eq!(c.field, "title");
    assert_eq!(c.kept, text("Theirs"), "the higher revision wins");
    assert_eq!(c.discarded, text("Mine"), "the losing value is kept for review");
    assert_eq!(c.kept_rev, Rev::new(9, "r"));
    assert_eq!(c.discarded_rev, Rev::new(2, "local"));
    assert_eq!(plan.winning, vec![("title".to_string(), text("Theirs"))]);
}

#[test]
fn an_edit_on_top_of_ours_lands_without_a_conflict() {
    let current = vec![("title".to_string(), text("A"))];
    let ours = Rev::new(1, "r");
    let remote = with(upsert(2, "r", 7, "list", "l1"), "title", text("B"), Some(ours.clone()));
    let plan = merge_fields(&values(&remote), &vec![Some(ours)], &remote, &current);
    assert!(plan.conflicts.is_empty());
    assert_eq!(plan.winning, vec![("title".to_string(), text("B"))]);
}

#[test]
fn a_tombstone_outranks_an_older_upsert() {
    let grave = Some(Rev::new(10, "r"));
    let stale = with(upsert(3, "r", 5, "list", "l1"), "title", text("Back"), None);
    assert!(deleted_since(&grave, stale.lamport));
    assert!(!deleted_since(&grave, 11));
}

#[test]
fn a_tag_is_matched_by_name_and_adopts_the_local_uuid() {
    let tag = entity("tag").unwrap();
    let op = with(upsert(1, "r", 3, "tag", "remote-uuid"), "name", text("home"), None);
    assert_eq!(tag_name(&tag, &op), Some("home".to_string()));
    assert_eq!(adopted_uuid(Some("local-uuid".to_string()), "remote-uuid"), Some("local-uuid".to_string()));
    assert_eq!(adopted_uuid(Some("remote-uuid".to_string()), "remote-uuid"), None);
    assert_eq!(adopted_uuid(None, "remote-uuid"), None);
    let list = entity("list").unwrap();
    assert_eq!(tag_name(&list, &op), None, "only tags are merged by name");
}

/// Both machines renamed list `l1` on top of 1@aaaa; each then receives the
/// other's op.
fn rename_on_both_machines() -> ((Vec<(String, Val)>, usize), (Vec<(String, Val)>, usize), (Val, Val)) {
    let base = Some(Rev::new(1, "aaaaaaaa"));
    let from_a = with(upsert(2, "aaaaaaaa", 2, "list", "l1"), "title", text("Job"), base.clone());
    let from_b = with(upsert(2, "bbbbbbbb", 2, "list", "l1"), "title", text("Office"), base);
    let on_a = merge_fields(&values(&from_b), &vec![Some(Rev::new(2, "aaaaaaaa"))], &from_b, &values(&from_a));
    let on_b = merge_fields(&values(&from_a), &vec![Some(Rev::new(2, "bbbbbbbb"))], &from_a, &values(&from_b));
    let kept_discarded = (on_a.conflicts[0].kept.clone(), on_a.conflicts[0].discarded.clone());
    ((on_a.winning, on_a.conflicts.len()), (on_b.winning, on_b.conflicts.len()), kept_discarded)
}

#[test]
fn two_renames_settle_on_the_same_title_both_ways() {
    let ((a_takes, _), (b_takes, _), _) = rename_on_both_machines();
    // Machine A takes B's title; machine B keeps its own: both show "Office".
    assert_eq!(a_takes, vec![("title".to_string(), text("Office"))]);
    assert!(b_takes.is_empty());
}

#[test]
fn only_the_overridden_rename_files_a_conflict() {
    let ((_, a_conflicts), (_, b_conflicts), _) = rename_on_both_machines();
    assert_eq!(a_conflicts, 1, "the overridden edit is reported");
    assert_eq!(b_conflicts, 0, "nothing changed here, so there is nothing to report");
}

#[test]
fn the_conflict_keeps_the_overridden_value() {
    let (_, _, (kept, discarded)) = rename_on_both_machines();
    assert_ne!(kept, discarded);
    assert_eq!(discarded, text("Job"));
    assert_eq!(kept, text("Office"));
}

#[test]
fn renames_of_different_fields_both_land() {
    let from_a = with(upsert(3, "aaaaaaaa", 3, "task", "t1"), "description", text("notes"), None);
    let from_b = with(upsert(3, "bbbbbbbb", 3, "task", "t1"), "due_date", text("2026-09-10"), None);
    let row = vec![("title".to_string(), text("Task"))];
    let on_a = merge_fields(&values(&from_b), &vec![None], &from_b, &row);
    let on_b = merge_fields(&values(&from_a), &vec![None], &from_a, &row);
    assert_eq!(on_a.winning, vec![("due_date".to_string(), text("2026-09-10"))]);
    assert_eq!(on_b.winning, vec![("description".to_string(), text("notes"))]);
    assert!(on_a.conflicts.is_empty() && on_b.conflicts.is_empty(), "different fields are not a conflict");
}

#[test]
fn delivering_an_op_a_second_time_lands_nothing() {
    let current = vec![("title".to_string(), text("Mine"))];
    let remote = with(upsert(2, "r", 9, "list", "l1"), "title", text("Theirs"), Some(Rev::new(1, "r")));
    let first = merge_fields(&values(&remote), &vec![Some(Rev::new(2, "local"))], &remote, &current);
    assert_eq!(first.winning.len(), 1);
    // The landed field now holds the op's revision.
    let after = vec![("title".to_string(), text("Theirs"))];
    let second = merge_fields(&values(&remote), &vec![Some(Rev::new(9, "r"))], &remote, &after);
    assert!(second.winning.is_empty());
    assert!(second.conflicts.is_empty());
}
