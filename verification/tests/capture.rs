use smart_todo::sync::capture::{capture_step, CaptureStep};
use smart_todo::sync::capture::{carried_value, changed_fields, dedup_pending, is_delete, stored_seq, upsert_fields};
use smart_todo::sync::model::entity;
use smart_todo::sync::op::{Rev, Val};
use smart_todo::text::u64_text;

fn list_row(title: &str, color: Option<&str>) -> Vec<(String, Val)> {
    vec![
        ("title".to_string(), Val::Text(title.into())),
        ("color".to_string(), color.map_or(Val::Null, |c| Val::Text(c.into()))),
        ("position".to_string(), Val::Int(0)),
        ("created_at".to_string(), Val::Text("2026-09-01 08:00:00".into())),
    ]
}

fn queued(entity: &str, uuid: &str, kind: &str) -> (String, String, String) {
    (entity.to_string(), uuid.to_string(), kind.to_string())
}

#[test]
fn a_new_row_sends_every_field_with_no_base() {
    let list = entity("list").unwrap();
    let row = list_row("Work", None);

    let names = changed_fields(&list, &None, &row);
    assert_eq!(names, vec!["title", "color", "position", "created_at"]);

    let fields = upsert_fields(&names, &row, vec![None, None, None, None]);
    assert_eq!(fields.len(), 4);
    assert_eq!(fields[0].0, "title");
    assert_eq!(fields[0].1.v, Val::Text("Work".into()));
    assert!(fields[0].1.base.is_none(), "nothing preceded the creation");
}

#[test]
fn an_edit_sends_only_the_field_it_changed() {
    let list = entity("list").unwrap();
    let before = list_row("Work", None);
    let after = list_row("Job", None);

    let names = changed_fields(&list, &Some(before), &after);
    assert_eq!(names, vec!["title"]);

    let fields = upsert_fields(&names, &after, vec![Some(Rev::new(1, "aaaaaaaa"))]);
    assert_eq!(fields[0].1.v, Val::Text("Job".into()));
    assert_eq!(fields[0].1.base.as_ref().map(|r| r.lamport), Some(1), "the edit must name the revision it replaces");
}

#[test]
fn an_unchanged_row_has_no_changed_fields() {
    let list = entity("list").unwrap();
    let row = list_row("Work", None);
    assert!(changed_fields(&list, &Some(row.clone()), &row).is_empty());
}

#[test]
fn queued_edits_of_one_row_collapse_to_one_entry() {
    let pending = vec![
        queued("list", "l1", "update"),
        queued("list", "l1", "update"),
        queued("list", "l1", "update"),
    ];
    let (rows, kinds) = dedup_pending(pending);
    assert_eq!(rows, vec![("list".to_string(), "l1".to_string())], "one row, one op");
    assert_eq!(kinds, vec!["update".to_string()]);

    let list = entity("list").unwrap();
    let names = changed_fields(&list, &Some(list_row("Work", None)), &list_row("B", Some("#fff")));
    assert_eq!(names, vec!["title", "color"]);
    assert_eq!(carried_value(&list_row("B", Some("#fff")), "title"), Val::Text("B".into()));
}

#[test]
fn a_queued_insert_then_delete_ends_as_a_delete() {
    let (rows, kinds) = dedup_pending(vec![queued("list", "l1", "insert"), queued("list", "l1", "delete")]);
    assert_eq!(rows.len(), 1);
    assert!(is_delete(&kinds[0]));
}

#[test]
fn rows_keep_the_order_they_were_first_touched_in() {
    let (rows, kinds) = dedup_pending(vec![
        queued("task", "t1", "insert"),
        queued("list", "l1", "insert"),
        queued("task", "t1", "update"),
        queued("task", "t2", "delete"),
        queued("list", "l1", "delete"),
    ]);
    let keys: Vec<(&str, &str)> = rows.iter().map(|(e, u)| (e.as_str(), u.as_str())).collect();
    assert_eq!(keys, vec![("task", "t1"), ("list", "l1"), ("task", "t2")]);
    assert_eq!(kinds, vec!["update".to_string(), "delete".to_string(), "delete".to_string()]);
    assert!(dedup_pending(Vec::new()).0.is_empty());
}

#[test]
fn only_a_delete_is_a_delete() {
    assert!(is_delete("delete"));
    assert!(!is_delete("update"));
    assert!(!is_delete("Delete"));
}

#[test]
fn a_field_missing_from_the_row_is_carried_as_null() {
    assert_eq!(carried_value(&list_row("Work", None), "nope"), Val::Null);
}

#[test]
fn sequence_numbers_start_at_one_and_continue_from_the_stored_value() {
    assert_eq!(stored_seq(&None), 1);
    assert_eq!(stored_seq(&Some("42".to_string())), 42);
    assert_eq!(stored_seq(&Some("garbage".to_string())), 1);
}

#[test]
fn stored_sequence_numbers_count_up_from_one() {
    let mut stored: Option<String> = None;
    let mut handed_out = Vec::new();
    for _ in 0..3 {
        let seq = stored_seq(&stored);
        handed_out.push(seq);
        stored = Some(u64_text(seq + 1));
    }
    assert_eq!(handed_out, vec![1, 2, 3]);
}

#[test]
fn capturing_a_row_decides_what_is_published() {
    let list = entity("list").unwrap();
    let link = entity("task_tag").unwrap();
    let row = list_row("Work", None);
    assert!(matches!(capture_step(&list, true, &None, &None), CaptureStep::Delete));
    assert!(matches!(capture_step(&list, false, &None, &None), CaptureStep::Skip));
    assert!(matches!(capture_step(&list, false, &Some(row.clone()), &Some(row.clone())), CaptureStep::Skip));
    match capture_step(&list, false, &Some(list_row("Job", None)), &Some(row.clone())) {
        CaptureStep::Upsert(names) => assert_eq!(names, vec!["title"]),
        _ => panic!("a changed title is published"),
    }
    assert!(matches!(capture_step(&link, false, &Some(Vec::new()), &None), CaptureStep::Link));
    assert!(matches!(capture_step(&link, false, &Some(Vec::new()), &Some(Vec::new())), CaptureStep::Skip));
}
