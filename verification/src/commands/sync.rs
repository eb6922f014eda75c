//! What the sync screen shows.
use vstd::prelude::*;
use crate::sync::model::{entity, spec_entity, FieldKind, FieldKindView};
use crate::sync::op::{Val, ValView};
use crate::sync::store::DeviceMeta;
use crate::text::str_eq;

verus! {

#[derive(Debug, Clone)]
pub struct Peer {
    pub device_id: String,
    pub name: String,
    pub platform: String,
    pub last_seen: String,
}

#[derive(Debug, Clone)]
pub struct SyncStatus {
    pub folder: Option<String>,
    pub device_name: String,
    pub peers: Vec<Peer>,
    pub open_conflicts: i64,
    /// Ops still waiting for a row they depend on.
    pub waiting: i64,
}

#[derive(Debug, Clone)]
pub struct Conflict {
    pub id: i64,
    pub entity: String,
    pub uuid: String,
    pub field: String,
    /// Human-readable name of the row the conflict is on, e.g. the task title.
    pub subject: String,
    pub kept: String,
    pub discarded: String,
    pub detected_at: String,
}

/// How another device shows in the peer list.
pub fn peer_from_meta(m: DeviceMeta) -> (p: Peer)
    ensures
        p.device_id == m.device_id,
        p.name == m.name,
        p.platform == m.platform,
        p.last_seen == m.last_seen,
{
    Peer { device_id: m.device_id, name: m.name, platform: m.platform, last_seen: m.last_seen }
}

/// The column that names a row of an entity, so the user is shown a title
/// rather than a uuid: a tag's name, a list's or task's title. Other
/// entities are labelled by the entity name.
pub fn subject_column(entity: &str) -> (c: Option<&'static str>)
    ensures
        entity@ == "tag"@ ==> (c matches Some(x) && x@ == "name"@),
        (entity@ == "list"@ || entity@ == "task"@) ==> (c matches Some(x) && x@ == "title"@),
        !(entity@ == "tag"@ || entity@ == "list"@ || entity@ == "task"@) ==> c is None,
{
    proof {
        reveal_strlit("tag");
        reveal_strlit("list");
        reveal_strlit("task");
        assert("tag"@.len() == 3);
        assert("list"@.len() == 4);
        assert("task"@.len() == 4);
        assert("tag"@ != "list"@);
        assert("tag"@ != "task"@);
    }
    if str_eq(entity, "tag") {
        Some("name")
    } else if str_eq(entity, "list") || str_eq(entity, "task") {
        Some("title")
    } else {
        None
    }
}

/// The value a restored field is written with.
pub enum RestoreValue {
    /// Stored as it is.
    Direct(Val),
    /// The local row id of row `uuid` in `table`; the restore fails when
    /// that row is not on this device.
    LocalIdOf { table: &'static str, uuid: String },
}

/// Where restoring a discarded value writes, and what.
pub struct RestorePlan {
    pub table: &'static str,
    pub column: &'static str,
    pub value: RestoreValue,
}

/// How restoring a conflict's discarded value is done: as an ordinary edit
/// of the field's column, so it is captured and travels to the other
/// machine like any other change. A reference is written as the local id of
/// the row the uuid names; a reference that is not a uuid clears it.
pub fn restore_plan(entity_name: &str, field: &str, value: &Val) -> (r: Result<RestorePlan, &'static str>)
    ensures
        spec_entity(entity_name@) is None ==> (r matches Err(m) && m@ == "unknown entity"@),
        spec_entity(entity_name@) matches Some(e) ==> match e.field_named(field@) {
            None => r matches Err(m) && m@ == "unknown field"@,
            Some(f) => r matches Ok(p) && p.table@ == e.table && p.column@ == f.column && match f.kind {
                FieldKindView::Scalar => p.value matches RestoreValue::Direct(v) && v@ == value@,
                FieldKindView::Ref(t) => match value@ {
                    ValView::Text(u) => p.value matches RestoreValue::LocalIdOf { table, uuid } && uuid@ == u
                        && (spec_entity(t) matches Some(te) && table@ == te.table),
                    _ => p.value matches RestoreValue::Direct(v) && v@ == ValView::Null,
                },
            },
        },
        r matches Err(m) ==> (m@ == "unknown entity"@ || m@ == "unknown field"@),
{
    let spec = match entity(entity_name) {
        Some(s) => s,
        None => return Err("unknown entity"),
    };
    let f = match spec.field(field) {
        Some(f) => *f,
        None => return Err("unknown field"),
    };
    let value = match f.kind {
        FieldKind::Scalar => RestoreValue::Direct(value.duplicate()),
        FieldKind::Ref(target) => {
            let table = match entity(target) {
                Some(t) => t.table,
                None => return Err("unknown entity"),
            };
            match value {
                Val::Text(u) => RestoreValue::LocalIdOf { table, uuid: u.clone() },
                _ => RestoreValue::Direct(Val::Null),
            }
        },
    };
    Ok(RestorePlan { table: spec.table, column: f.column, value })
}

} // verus!
