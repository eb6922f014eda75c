use smart_todo::commands::tasks::dashboard_from;
use smart_todo::commands::settings::settings_from;
use smart_todo::commands::sync::{peer_from_meta, restore_plan, subject_column, RestoreValue};
use smart_todo::commands::tasks::{completion_change, due_date_value, priority_or_default, task_ids, without_ids, Task};
use smart_todo::sync::op::Val;
use smart_todo::sync::store::DeviceMeta;

fn task(id: i64) -> Task {
    Task {
        id,
        list_id: 1,
        title: format!("task {id}"),
        description: None,
        priority: "normal".into(),
        due_date: None,
        completed: false,
        completed_at: None,
        position: 0,
        created_at: "2026-09-01 08:00:00".into(),
        updated_at: "2026-09-01 08:00:00".into(),
        parent_task_id: None,
        is_subtask: false,
        status: "todo".into(),
        tags: Vec::new(),
        total_seconds: 0,
    }
}

fn row(k: &str, v: &str) -> (String, String) {
    (k.to_string(), v.to_string())
}

#[test]
fn settings_default_to_the_system_theme_and_no_widths() {
    let s = settings_from(&Vec::new(), "/c/data.db".to_string());
    assert_eq!(s.theme, "system");
    assert_eq!(s.database_path, "/c/data.db");
    assert_eq!(s.sidebar_width, None);
    assert_eq!(s.task_editor_width, None);
}

#[test]
fn stored_settings_are_read_back_and_bad_widths_dropped() {
    let rows = vec![row("theme", "light"), row("sidebar_width", "280"), row("task_editor_width", "wide"), row("theme", "dark")];
    let s = settings_from(&rows, String::new());
    assert_eq!(s.theme, "dark", "the last row for a key wins");
    assert_eq!(s.sidebar_width, Some(280));
    assert_eq!(s.task_editor_width, None);
    let neg = settings_from(&vec![row("sidebar_width", "-12")], String::new());
    assert_eq!(neg.sidebar_width, Some(-12));
}

#[test]
fn a_new_task_is_normal_priority_unless_told_otherwise() {
    assert_eq!(priority_or_default(None), "normal");
    assert_eq!(priority_or_default(Some("high".into())), "high");
}

#[test]
fn an_empty_due_date_clears_it() {
    assert_eq!(due_date_value(String::new()), None);
    assert_eq!(due_date_value("2026-09-10".into()), Some("2026-09-10".to_string()));
}

#[test]
fn status_and_completion_move_together() {
    assert_eq!(completion_change(Some("done".into()), None), Some(("done".to_string(), true)));
    assert_eq!(completion_change(Some("inprogress".into()), Some(true)), Some(("inprogress".to_string(), false)));
    assert_eq!(completion_change(None, Some(true)), Some(("done".to_string(), true)));
    assert_eq!(completion_change(None, Some(false)), Some(("todo".to_string(), false)));
    assert_eq!(completion_change(None, None), None);
}

#[test]
fn overdue_tasks_are_not_listed_twice() {
    let overdue = vec![task(2), task(5)];
    let ids = task_ids(&overdue);
    assert_eq!(ids, vec![2, 5]);
    let rest = without_ids(vec![task(1), task(2), task(3), task(5)], &ids);
    let left: Vec<i64> = rest.iter().map(|t| t.id).collect();
    assert_eq!(left, vec![1, 3]);
}

#[test]
fn a_conflict_is_labelled_by_the_column_that_names_its_row() {
    assert_eq!(subject_column("list"), Some("title"));
    assert_eq!(subject_column("task"), Some("title"));
    assert_eq!(subject_column("tag"), Some("name"));
    assert_eq!(subject_column("timer_session"), None);
}

#[test]
fn restoring_a_scalar_writes_it_back_as_it_was() {
    let plan = restore_plan("list", "title", &Val::Text("Job".into())).unwrap();
    assert_eq!(plan.table, "lists");
    assert_eq!(plan.column, "title");
    assert!(matches!(plan.value, RestoreValue::Direct(Val::Text(ref t)) if t == "Job"));
}

#[test]
fn restoring_a_reference_looks_the_row_up_by_uuid() {
    let plan = restore_plan("task", "list_uuid", &Val::Text("l1".into())).unwrap();
    assert_eq!(plan.table, "tasks");
    assert_eq!(plan.column, "list_id");
    assert!(matches!(plan.value, RestoreValue::LocalIdOf { table: "lists", ref uuid } if uuid == "l1"));
    let cleared = restore_plan("task", "parent_task_uuid", &Val::Null).unwrap();
    assert!(matches!(cleared.value, RestoreValue::Direct(Val::Null)));
}

#[test]
fn restoring_an_unknown_entity_or_field_fails() {
    assert_eq!(restore_plan("nope", "title", &Val::Null).err(), Some("unknown entity"));
    assert_eq!(restore_plan("list", "nope", &Val::Null).err(), Some("unknown field"));
}

#[test]
fn a_peer_is_shown_as_its_meta_file_describes_it() {
    let p = peer_from_meta(DeviceMeta {
        device_id: "bbbbbbbb".into(),
        name: "desk".into(),
        platform: "linux".into(),
        last_seen: "2026-09-04T10:00:00Z".into(),
        compaction_epoch: 0,
    });
    assert_eq!((p.device_id.as_str(), p.name.as_str(), p.platform.as_str(), p.last_seen.as_str()), ("bbbbbbbb", "desk", "linux", "2026-09-04T10:00:00Z"));
}

fn due(id: i64, date: &str, priority: &str) -> Task {
    Task { due_date: Some(date.to_string()), priority: priority.to_string(), ..task(id) }
}

#[test]
fn the_dashboard_lists_each_task_once_overdue_first_then_high_priority() {
    let overdue = vec![due(1, "2026-09-04", "normal"), due(2, "2026-09-04", "high"), due(3, "2026-09-01", "normal")];
    let high = vec![due(2, "2026-09-04", "high"), due(4, "2026-09-20", "high")];
    let upcoming = vec![due(4, "2026-09-06", "high"), due(5, "2026-09-07", "normal"), due(1, "2026-09-05", "normal")];
    let d = dashboard_from(overdue, high, upcoming);
    let ids = |v: &Vec<Task>| v.iter().map(|t| t.id).collect::<Vec<i64>>();
    assert_eq!(ids(&d.overdue), vec![3, 2, 1]);
    assert_eq!(ids(&d.high_priority), vec![4]);
    assert_eq!(ids(&d.upcoming), vec![5]);
}
