use smart_todo::sync::model::{entities, entity, FieldKind, Identity};
use smart_todo::sync::row::{ref_table, select_list, split_composite};
use smart_todo::sync::schema::{composite_key, triggers_for};

#[test]
fn referents_are_declared_before_the_entities_that_point_at_them() {
    // Apply order relies on this: a task op must be applicable as soon as
    // the list op that precedes it in the same batch has landed.
    let all = entities();
    for (i, spec) in all.iter().enumerate() {
        for f in &spec.fields {
            if let FieldKind::Ref(target) = f.kind {
                let at = all.iter().position(|e| e.name == target).unwrap();
                assert!(at <= i, "{}.{} points at {}, declared later", spec.name, f.name, target);
            }
        }
    }
}

#[test]
fn every_ref_field_is_named_for_the_uuid_it_carries() {
    for spec in entities() {
        for f in &spec.fields {
            if matches!(f.kind, FieldKind::Ref(_)) {
                assert!(f.name.ends_with("_uuid"), "{}.{}", spec.name, f.name);
                assert!(f.column.ends_with("_id"), "{}.{}", spec.name, f.column);
            }
        }
    }
}

#[test]
fn entities_are_found_by_name() {
    let task = entity("task").unwrap();
    assert_eq!(task.table, "tasks");
    assert_eq!(task.identity, Identity::Uuid);
    assert_eq!(entity("task_tag").unwrap().identity, Identity::Composite);
    assert!(entity("nope").is_none());
    assert!(entity("").is_none());
}

#[test]
fn fields_are_found_by_op_name() {
    let task = entity("task").unwrap();
    let f = task.field("list_uuid").unwrap();
    assert_eq!(f.column, "list_id");
    assert!(f.required);
    assert!(matches!(f.kind, FieldKind::Ref("list")));
    assert!(task.field("list_id").is_none());
    assert!(!task.field("description").unwrap().required);
}

#[test]
fn reference_fields_point_into_their_target_table() {
    let link = entity("task_tag").unwrap();
    assert_eq!(ref_table(&link.fields[0].kind), "tasks");
    assert_eq!(ref_table(&link.fields[1].kind), "tags");
}

#[test]
fn the_row_query_reads_references_as_uuids() {
    let list = entity("list").unwrap();
    assert_eq!(select_list(&list), "t.title, t.color, t.position, t.created_at");
    let session = entity("timer_session").unwrap();
    assert_eq!(
        select_list(&session),
        "(SELECT uuid FROM tasks WHERE id = t.task_id), t.started_at, t.stopped_at, t.duration_seconds"
    );
}

#[test]
fn composite_uuids_split_at_the_first_colon() {
    assert_eq!(split_composite("abc:def"), Some(("abc", "def")));
    assert_eq!(split_composite("a:b:c"), Some(("a", "b:c")));
    assert_eq!(split_composite(":x"), Some(("", "x")));
    assert_eq!(split_composite("nocolon"), None);
}

#[test]
fn join_rows_are_keyed_by_the_uuids_they_link() {
    let link = entity("task_tag").unwrap();
    assert_eq!(
        composite_key(&link, "NEW"),
        "(SELECT uuid FROM tasks WHERE id = NEW.task_id) || ':' || (SELECT uuid FROM tags WHERE id = NEW.tag_id)"
    );
}

#[test]
fn capture_triggers_are_guarded_and_queue_the_row() {
    let list = entity("list").unwrap();
    let sql = triggers_for(&list);
    assert!(sql.starts_with("DROP TRIGGER IF EXISTS sync_ai_lists;\n"));
    assert!(sql.contains("CREATE TRIGGER sync_ai_lists AFTER INSERT ON lists WHEN NOT EXISTS (SELECT 1 FROM sync_meta WHERE key = 'suspend_capture')"));
    assert!(sql.contains("VALUES ('list', NEW.id, 'upsert')"));
    assert!(sql.contains("VALUES ('list', OLD.uuid, 'delete')"));
    let link = entity("task_tag").unwrap();
    let sql = triggers_for(&link);
    assert!(!sql.contains("sync_au_task_tags AFTER"));
    assert!(sql.contains("VALUES ('task_tag', (SELECT uuid FROM tasks WHERE id = OLD.task_id) || ':' || (SELECT uuid FROM tags WHERE id = OLD.tag_id), 'delete')"));
}

#[test]
fn a_join_entity_links_exactly_two_rows() {
    for spec in entities() {
        if spec.identity == Identity::Composite {
            assert_eq!(spec.fields.len(), 2);
            assert!(spec.fields.iter().all(|f| f.required && matches!(f.kind, FieldKind::Ref(_))));
        }
    }
}
