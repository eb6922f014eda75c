use smart_todo::sync::apply::{adopted_uuid, column_source, decide_field, deleted_since, insert_plan, placeholders, tag_name, update_plan, Applied, ColumnSource, FieldMerge};
use smart_todo::sync::model::{entity, FieldKind};
use smart_todo::sync::op::{FieldOp, Op, OpKind, Rev, Val};

#[test]
fn rev_ordering_breaks_ties_by_device() {
    // Same Lamport counter on both machines: the ordering must still be
    // total and identical on each, or they would settle on different rows.
    let a = Rev::new(7, "aaa");
    let b = Rev::new(7, "bbb");
    assert!(a < b);
    assert!(Rev::new(8, "aaa") > b);
}

#[test]
fn the_merge_order_matches_the_derived_order() {
    let revs = [Rev::new(7, "aaa"), Rev::new(7, "bbb"), Rev::new(8, "aaa"), Rev::new(7, "aa"), Rev::new(0, "")];
    for x in &revs {
        for y in &revs {
            assert_eq!(x.precedes(y), x < y, "{:?} {:?}", x, y);
            assert_eq!(x.same(y), x == y);
        }
    }
}

#[test]
fn rev_text_round_trips() {
    let rev = Rev::new(42, "d00d");
    assert_eq!(rev.to_text(), "42@d00d");
    assert_eq!(Rev::parse("42@d00d").unwrap(), rev);
    assert_eq!("42@d00d".parse::<Rev>().unwrap(), rev);
    assert_eq!(Rev::parse("7@a@b").unwrap(), Rev::new(7, "a@b"));
    assert_eq!(Rev::parse("+7@x").unwrap(), Rev::new(7, "x"));
}

#[test]
fn malformed_revs_are_rejected() {
    assert_eq!(Rev::parse("no-at-sign"), Err("bad rev: no-at-sign".to_string()));
    assert_eq!(Rev::parse("x@dev"), Err("bad rev: x@dev".to_string()));
    assert_eq!(Rev::parse("@dev"), Err("bad rev: @dev".to_string()));
    assert_eq!(Rev::parse("18446744073709551616@d"), Err("bad rev: 18446744073709551616@d".to_string()));
    assert_eq!(Rev::parse("18446744073709551615@d").unwrap().lamport, u64::MAX);
}

#[test]
fn op_rev_is_its_counter_and_device() {
    let op = Op {
        seq: 12,
        device: "bbb".into(),
        lamport: 9,
        ts: "2026-09-04T10:00:00Z".into(),
        entity: "task".into(),
        uuid: "u1".into(),
        kind: OpKind::Upsert,
        fields: vec![("title".to_string(), FieldOp { v: Val::Text("Buy milk".into()), base: Some(Rev::new(3, "aaa")) })],
    };
    assert_eq!(op.rev(), Rev::new(9, "bbb"));
}

#[test]
fn a_field_with_no_revision_takes_the_incoming_value() {
    assert_eq!(decide_field(&None, &None, &Rev::new(1, "a")), FieldMerge::Take);
}

#[test]
fn an_op_seen_twice_changes_nothing() {
    let r = Rev::new(5, "a");
    assert_eq!(decide_field(&Some(r.clone()), &None, &r), FieldMerge::Keep);
    assert_eq!(decide_field(&Some(r.clone()), &Some(Rev::new(2, "b")), &r), FieldMerge::Keep);
}

#[test]
fn a_clean_successor_takes_the_value_without_a_conflict() {
    let held = Rev::new(5, "a");
    // Even a lower counter lands when the writer built on what we hold.
    assert_eq!(decide_field(&Some(held.clone()), &Some(held.clone()), &Rev::new(6, "b")), FieldMerge::Take);
}

#[test]
fn the_higher_of_two_independent_edits_wins_and_the_loser_is_told() {
    let base = Some(Rev::new(3, "a"));
    let mine = Rev::new(4, "a");
    let theirs = Rev::new(4, "b");
    // On the machine holding `mine`, the newer `theirs` lands and is reported.
    assert_eq!(decide_field(&Some(mine.clone()), &base, &theirs), FieldMerge::TakeAndReport);
    // On the machine holding `theirs`, the older `mine` is dropped quietly.
    assert_eq!(decide_field(&Some(theirs.clone()), &base, &mine), FieldMerge::Keep);
}

#[test]
fn an_op_older_than_a_delete_is_ignored() {
    assert!(deleted_since(&Some(Rev::new(10, "a")), 10));
    assert!(deleted_since(&Some(Rev::new(10, "a")), 9));
    assert!(!deleted_since(&Some(Rev::new(10, "a")), 11));
    assert!(!deleted_since(&None, 1));
}

#[test]
fn references_are_looked_up_and_nulls_pass_through() {
    let list_ref = FieldKind::Ref("list");
    match column_source(&list_ref, &Val::Text("u1".into())) {
        ColumnSource::Lookup { target, uuid } => {
            assert_eq!(target, "list");
            assert_eq!(uuid, "u1");
        }
        ColumnSource::Ready(_) => panic!("a uuid must be looked up"),
    }
    assert!(matches!(column_source(&list_ref, &Val::Null), ColumnSource::Ready(Val::Null)));
    assert!(matches!(column_source(&list_ref, &Val::Int(3)), ColumnSource::Ready(Val::Null)));
    assert!(matches!(column_source(&FieldKind::Scalar, &Val::Int(3)), ColumnSource::Ready(Val::Int(3))));
}

#[test]
fn an_insert_fills_missing_required_columns_with_a_placeholder() {
    let task = entity("task").unwrap();
    let values = vec![
        ("description".to_string(), Val::Text("d".into())),
        ("list_uuid".to_string(), Val::Int(4)),
    ];
    let cols = insert_plan(&task, &values);
    assert_eq!(
        cols,
        vec![
            ("list_id", Val::Int(4)),
            ("title", Val::Text(String::new())),
            ("description", Val::Text("d".into())),
        ]
    );
}

#[test]
fn updates_skip_unknown_fields() {
    let list = entity("list").unwrap();
    let values = vec![("title".to_string(), Val::Text("T".into())), ("bogus".to_string(), Val::Null)];
    assert_eq!(update_plan(&list, &values), vec![("title", Val::Text("T".into()))]);
}

#[test]
fn placeholders_number_the_parameters() {
    assert_eq!(placeholders(0), "");
    assert_eq!(placeholders(1), "?1");
    assert_eq!(placeholders(3), "?1, ?2, ?3");
    assert_eq!(placeholders(11).split(", ").last(), Some("?11"));
}

#[test]
fn a_tag_with_a_known_name_is_merged_into_the_local_one() {
    let tag = entity("tag").unwrap();
    let op = Op {
        seq: 1,
        device: "b".into(),
        lamport: 1,
        ts: "t".into(),
        entity: "tag".into(),
        uuid: "remote".into(),
        kind: OpKind::Upsert,
        fields: vec![("name".to_string(), FieldOp { v: Val::Text("home".into()), base: None })],
    };
    assert_eq!(tag_name(&tag, &op), Some("home".to_string()));
    assert_eq!(tag_name(&entity("list").unwrap(), &op), None);
    assert_eq!(adopted_uuid(Some("local".into()), "remote"), Some("local".to_string()));
    assert_eq!(adopted_uuid(Some("remote".into()), "remote"), None);
    assert_eq!(adopted_uuid(None, "remote"), None);
    assert_eq!(Applied::Landed { conflicts: 0 }, Applied::Landed { conflicts: 0 });
}
