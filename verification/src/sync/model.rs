//! Description of every table that takes part in sync.
//!
//! Sync logic is written once and driven by these specs rather than repeated
//! per table, so adding a synced column means adding one line here.
use vstd::prelude::*;
use crate::text::{str_eq, has_suffix};

verus! {

/// How a column's value travels between devices.
#[derive(Debug, Clone, Copy)]
pub enum FieldKind {
    /// Value is carried verbatim.
    Scalar,
    /// Column holds a local row id; the op carries the referenced row's uuid
    /// instead, because row ids are only meaningful on the device that minted
    /// them. The payload is the name of the referenced entity.
    Ref(&'static str),
}

pub enum FieldKindView {
    Scalar,
    Ref(Seq<char>),
}

impl View for FieldKind {
    type V = FieldKindView;

    open spec fn view(&self) -> FieldKindView {
        match self {
            FieldKind::Scalar => FieldKindView::Scalar,
            FieldKind::Ref(t) => FieldKindView::Ref(t@),
        }
    }
}

#[derive(Debug, Clone, Copy)]
pub struct FieldSpec {
    /// Name used inside ops. Ref fields are named `<column without _id>_uuid`.
    pub name: &'static str,
    pub column: &'static str,
    pub kind: FieldKind,
    /// Column is NOT NULL, so a row cannot be created without it. A required
    /// reference that has not arrived yet forces the op to be retried later.
    pub required: bool,
}

pub struct FieldSpecView {
    pub name: Seq<char>,
    pub column: Seq<char>,
    pub kind: FieldKindView,
    pub required: bool,
}

impl View for FieldSpec {
    type V = FieldSpecView;

    open spec fn view(&self) -> FieldSpecView {
        FieldSpecView { name: self.name@, column: self.column@, kind: self.kind@, required: self.required }
    }
}

/// How a row is identified across devices.
#[derive(Debug, Clone, Copy, PartialEq, Eq, Structural)]
pub enum Identity {
    /// Row carries its own `uuid` column.
    Uuid,
    /// Join row with no identity of its own; its uuid is `<a_uuid>:<b_uuid>`
    /// built from the two rows it links.
    Composite,
}

#[derive(Debug, Clone)]
pub struct EntitySpec {
    pub name: &'static str,
    pub table: &'static str,
    pub identity: Identity,
    pub fields: Vec<FieldSpec>,
}

pub struct EntitySpecView {
    pub name: Seq<char>,
    pub table: Seq<char>,
    pub identity: Identity,
    pub fields: Seq<FieldSpecView>,
}

impl View for EntitySpec {
    type V = EntitySpecView;

    open spec fn view(&self) -> EntitySpecView {
        EntitySpecView {
            name: self.name@,
            table: self.table@,
            identity: self.identity,
            fields: self.fields@.map_values(|f: FieldSpec| f@),
        }
    }
}

impl EntitySpecView {
    /// The first field with the given op name.
    pub open spec fn field_named(self, name: Seq<char>) -> Option<FieldSpecView> {
        if exists|i: int| 0 <= i < self.fields.len() && self.fields[i].name == name {
            let i = choose|i: int|
                0 <= i < self.fields.len() && self.fields[i].name == name && forall|j: int|
                    0 <= j < i ==> self.fields[j].name != name;
            Some(self.fields[i])
        } else {
            None
        }
    }
}

impl EntitySpec {
    /// The field this entity's ops call `name`.
    pub fn field(&self, name: &str) -> (r: Option<&FieldSpec>)
        ensures
            match r {
                Some(f) => self@.field_named(name@) == Some(f@),
                None => self@.field_named(name@) is None,
            },
    {
        let mut i: usize = 0;
        while i < self.fields.len()
            invariant
                i <= self.fields.len(),
                forall|j: int| 0 <= j < i ==> self@.fields[j].name != name@,
            decreases self.fields.len() - i,
        {
            if str_eq(self.fields[i].name, name) {
                proof {
                    let v = self@;
                    assert(v.fields[i as int] == self.fields@[i as int]@);
                    let w = choose|k: int|
                        0 <= k < v.fields.len() && v.fields[k].name == name@ && forall|j: int|
                            0 <= j < k ==> v.fields[j].name != name@;
                    assert(0 <= i < v.fields.len() && v.fields[i as int].name == name@ && forall|j: int|
                            0 <= j < i ==> v.fields[j].name != name@);
                    if w < i {
                    } else if w > i {
                        assert(v.fields[i as int].name != name@);
                    }
                }
                return Some(&self.fields[i]);
            }
            i = i + 1;
        }
        None
    }
}

pub open spec fn scalar_view(name: Seq<char>) -> FieldSpecView {
    FieldSpecView { name: name, column: name, kind: FieldKindView::Scalar, required: false }
}

pub open spec fn required_scalar_view(name: Seq<char>) -> FieldSpecView {
    FieldSpecView { name: name, column: name, kind: FieldKindView::Scalar, required: true }
}

pub open spec fn reference_view(name: Seq<char>, column: Seq<char>, entity: Seq<char>) -> FieldSpecView {
    FieldSpecView { name: name, column: column, kind: FieldKindView::Ref(entity), required: false }
}

pub open spec fn required_reference_view(
    name: Seq<char>,
    column: Seq<char>,
    entity: Seq<char>,
) -> FieldSpecView {
    FieldSpecView { name: name, column: column, kind: FieldKindView::Ref(entity), required: true }
}

fn scalar(name: &'static str) -> (f: FieldSpec)
    ensures
        f@ == scalar_view(name@),
{
    FieldSpec { name, column: name, kind: FieldKind::Scalar, required: false }
}

fn required_scalar(name: &'static str) -> (f: FieldSpec)
    ensures
        f@ == required_scalar_view(name@),
{
    FieldSpec { name, column: name, kind: FieldKind::Scalar, required: true }
}

fn reference(name: &'static str, column: &'static str, entity: &'static str) -> (f: FieldSpec)
    ensures
        f@ == reference_view(name@, column@, entity@),
{
    FieldSpec { name, column, kind: FieldKind::Ref(entity), required: false }
}

fn required_reference(name: &'static str, column: &'static str, entity: &'static str) -> (f: FieldSpec)
    ensures
        f@ == required_reference_view(name@, column@, entity@),
{
    FieldSpec { name, column, kind: FieldKind::Ref(entity), required: true }
}

pub open spec fn list_view() -> EntitySpecView {
    EntitySpecView {
        name: "list"@,
        table: "lists"@,
        identity: Identity::Uuid,
        fields: seq![
            required_scalar_view("title"@),
            scalar_view("color"@),
            scalar_view("position"@),
            scalar_view("created_at"@),
        ],
    }
}

pub open spec fn tag_view() -> EntitySpecView {
    EntitySpecView {
        name: "tag"@,
        table: "tags"@,
        identity: Identity::Uuid,
        fields: seq![required_scalar_view("name"@), scalar_view("color"@)],
    }
}

pub open spec fn task_view() -> EntitySpecView {
    EntitySpecView {
        name: "task"@,
        table: "tasks"@,
        identity: Identity::Uuid,
        fields: seq![
            required_reference_view("list_uuid"@, "list_id"@, "list"@),
            reference_view("parent_task_uuid"@, "parent_task_id"@, "task"@),
            required_scalar_view("title"@),
            scalar_view("description"@),
            scalar_view("priority"@),
            scalar_view("due_date"@),
            scalar_view("completed"@),
            scalar_view("completed_at"@),
            scalar_view("position"@),
            scalar_view("created_at"@),
            scalar_view("updated_at"@),
            scalar_view("status"@),
            scalar_view("is_subtask"@),
        ],
    }
}

pub open spec fn task_tag_view() -> EntitySpecView {
    EntitySpecView {
        name: "task_tag"@,
        table: "task_tags"@,
        identity: Identity::Composite,
        fields: seq![
            required_reference_view("task_uuid"@, "task_id"@, "task"@),
            required_reference_view("tag_uuid"@, "tag_id"@, "tag"@),
        ],
    }
}

pub open spec fn timer_session_view() -> EntitySpecView {
    EntitySpecView {
        name: "timer_session"@,
        table: "timer_sessions"@,
        identity: Identity::Uuid,
        fields: seq![
            required_reference_view("task_uuid"@, "task_id"@, "task"@),
            required_scalar_view("started_at"@),
            scalar_view("stopped_at"@),
            scalar_view("duration_seconds"@),
        ],
    }
}

/// Every synced entity, in dependency order: a row's referents always appear
/// before it, so a single forward pass applies most batches without
/// deferring anything.
pub open spec fn spec_entities() -> Seq<EntitySpecView> {
    seq![list_view(), tag_view(), task_view(), task_tag_view(), timer_session_view()]
}

/// The synced entities, in dependency order (see `spec_entities`).
pub fn entities() -> (es: Vec<EntitySpec>)
    ensures
        es@.map_values(|e: EntitySpec| e@) == spec_entities(),
{
    let mut list_fields: Vec<FieldSpec> = Vec::new();
    list_fields.push(required_scalar("title"));
    list_fields.push(scalar("color"));
    list_fields.push(scalar("position"));
    list_fields.push(scalar("created_at"));
    let list = EntitySpec { name: "list", table: "lists", identity: Identity::Uuid, fields: list_fields };
    assert(list@.fields =~= list_view().fields);

    let mut tag_fields: Vec<FieldSpec> = Vec::new();
    tag_fields.push(required_scalar("name"));
    tag_fields.push(scalar("color"));
    let tag = EntitySpec { name: "tag", table: "tags", identity: Identity::Uuid, fields: tag_fields };
    assert(tag@.fields =~= tag_view().fields);

    let mut task_fields: Vec<FieldSpec> = Vec::new();
    task_fields.push(required_reference("list_uuid", "list_id", "list"));
    task_fields.push(reference("parent_task_uuid", "parent_task_id", "task"));
    task_fields.push(required_scalar("title"));
    task_fields.push(scalar("description"));
    task_fields.push(scalar("priority"));
    task_fields.push(scalar("due_date"));
    task_fields.push(scalar("completed"));
    task_fields.push(scalar("completed_at"));
    task_fields.push(scalar("position"));
    task_fields.push(scalar("created_at"));
    task_fields.push(scalar("updated_at"));
    task_fields.push(scalar("status"));
    task_fields.push(scalar("is_subtask"));
    let task = EntitySpec { name: "task", table: "tasks", identity: Identity::Uuid, fields: task_fields };
    assert(task@.fields =~= task_view().fields);

    let mut link_fields: Vec<FieldSpec> = Vec::new();
    link_fields.push(required_reference("task_uuid", "task_id", "task"));
    link_fields.push(required_reference("tag_uuid", "tag_id", "tag"));
    let task_tag = EntitySpec {
        name: "task_tag",
        table: "task_tags",
        identity: Identity::Composite,
        fields: link_fields,
    };
    assert(task_tag@.fields =~= task_tag_view().fields);

    let mut session_fields: Vec<FieldSpec> = Vec::new();
    session_fields.push(required_reference("task_uuid", "task_id", "task"));
    session_fields.push(required_scalar("started_at"));
    session_fields.push(scalar("stopped_at"));
    session_fields.push(scalar("duration_seconds"));
    let timer_session = EntitySpec {
        name: "timer_session",
        table: "timer_sessions",
        identity: Identity::Uuid,
        fields: session_fields,
    };
    assert(timer_session@.fields =~= timer_session_view().fields);

    let mut es: Vec<EntitySpec> = Vec::new();
    es.push(list);
    es.push(tag);
    es.push(task);
    es.push(task_tag);
    es.push(timer_session);
    assert(es@.map_values(|e: EntitySpec| e@) =~= spec_entities());
    es
}

/// The first entity with the given name.
pub open spec fn spec_entity(name: Seq<char>) -> Option<EntitySpecView> {
    let es = spec_entities();
    if exists|i: int| 0 <= i < es.len() && es[i].name == name {
        let i = choose|i: int|
            0 <= i < es.len() && es[i].name == name && forall|j: int| 0 <= j < i ==> es[j].name != name;
        Some(es[i])
    } else {
        None
    }
}

/// The entity ops call `name`, if it is one that syncs.
pub fn entity(name: &str) -> (r: Option<EntitySpec>)
    ensures
        match r {
            Some(e) => spec_entity(name@) == Some(e@),
            None => spec_entity(name@) is None,
        },
{
    let mut es = entities();
    let ghost sv = spec_entities();
    let mut i: usize = 0;
    while i < es.len()
        invariant
            i <= es.len(),
            es@.map_values(|e: EntitySpec| e@) == sv,
            sv == spec_entities(),
            forall|j: int| 0 <= j < i ==> sv[j].name != name@,
        decreases es.len() - i,
    {
        if str_eq(es[i].name, name) {
            proof {
                assert(sv[i as int] == es@[i as int]@);
                let w = choose|k: int|
                    0 <= k < sv.len() && sv[k].name == name@ && forall|j: int| 0 <= j < k ==> sv[j].name != name@;
                assert(0 <= i < sv.len() && sv[i as int].name == name@ && forall|j: int|
                        0 <= j < i ==> sv[j].name != name@);
                if w < i {
                } else if w > i {
                    assert(sv[i as int].name != name@);
                }
            }
            let e = es.remove(i);
            return Some(e);
        }
        assert(sv[i as int] == es@[i as int]@);
        i = i + 1;
    }
    None
}

/// A reference field's target entity is declared no later than the entity
/// holding the field, so applying a batch in declaration order lands every
/// referent before the rows that point at it.
pub proof fn referents_are_declared_before_their_referrers()
    ensures
        forall|i: int, k: int|
            0 <= i < spec_entities().len() && 0 <= k < spec_entities()[i].fields.len()
                ==> ((#[trigger] spec_entities()[i].fields[k]).kind matches FieldKindView::Ref(t)
                ==> exists|j: int| 0 <= j <= i && spec_entities()[j].name == t),
{
    let es = spec_entities();
    assert forall|i: int, k: int|
        0 <= i < es.len() && 0 <= k < es[i].fields.len() implies ((#[trigger] es[i].fields[k]).kind matches FieldKindView::Ref(t)
            ==> exists|j: int| 0 <= j <= i && es[j].name == t) by {
        if i == 2 && k == 0 {
            assert(es[0].name == "list"@);
        } else if i == 2 && k == 1 {
            assert(es[2].name == "task"@);
        } else if i == 3 && k == 0 {
            assert(es[2].name == "task"@);
        } else if i == 3 && k == 1 {
            assert(es[1].name == "tag"@);
        } else if i == 4 && k == 0 {
            assert(es[2].name == "task"@);
        }
    }
}

/// Every reference field is named `..._uuid`, for the uuid it carries, and
/// stored in a column named `..._id`, for the row id the column holds.
pub proof fn reference_fields_are_named_for_uuids()
    ensures
        forall|i: int, k: int|
            0 <= i < spec_entities().len() && 0 <= k < spec_entities()[i].fields.len()
                && (#[trigger] spec_entities()[i].fields[k]).kind is Ref ==> has_suffix(
                spec_entities()[i].fields[k].name,
                "_uuid"@,
            ) && has_suffix(spec_entities()[i].fields[k].column, "_id"@),
{
    reveal_strlit("_uuid");
    reveal_strlit("_id");
    reveal_strlit("list_uuid");
    reveal_strlit("list_id");
    reveal_strlit("parent_task_uuid");
    reveal_strlit("parent_task_id");
    reveal_strlit("task_uuid");
    reveal_strlit("task_id");
    reveal_strlit("tag_uuid");
    reveal_strlit("tag_id");
    let es = spec_entities();
    assert forall|i: int, k: int|
        0 <= i < es.len() && 0 <= k < es[i].fields.len() && (#[trigger] es[i].fields[k]).kind is Ref implies has_suffix(
            es[i].fields[k].name,
            "_uuid"@,
        ) && has_suffix(es[i].fields[k].column, "_id"@) by {
        let f = es[i].fields[k];
        assert(f.name.skip(f.name.len() - 5) =~= "_uuid"@);
        assert(f.column.skip(f.column.len() - 3) =~= "_id"@);
    }
}

pub open spec fn field_names(fields: Seq<FieldSpecView>) -> Seq<Seq<char>> {
    fields.map_values(|f: FieldSpecView| f.name)
}

/// No synced entity has two fields of one name, so an op carries each of
/// its fields under a name of its own.
pub proof fn field_names_are_distinct()
    ensures
        forall|i: int| 0 <= i < spec_entities().len() ==> (#[trigger] field_names(spec_entities()[i].fields)).no_duplicates(),
{
    reveal_strlit("title");
    reveal_strlit("color");
    reveal_strlit("position");
    reveal_strlit("created_at");
    reveal_strlit("name");
    reveal_strlit("list_uuid");
    reveal_strlit("parent_task_uuid");
    reveal_strlit("description");
    reveal_strlit("priority");
    reveal_strlit("due_date");
    reveal_strlit("completed");
    reveal_strlit("completed_at");
    reveal_strlit("updated_at");
    reveal_strlit("status");
    reveal_strlit("is_subtask");
    reveal_strlit("task_uuid");
    reveal_strlit("tag_uuid");
    reveal_strlit("started_at");
    reveal_strlit("stopped_at");
    reveal_strlit("duration_seconds");
    let es = spec_entities();
    assert forall|i: int| 0 <= i < es.len() implies (#[trigger] field_names(es[i].fields)).no_duplicates() by {
        let ns = field_names(es[i].fields);
        assert forall|a: int, b: int| 0 <= a < ns.len() && 0 <= b < ns.len() && a != b implies ns[a] != ns[b] by {
            if ns[a].len() == ns[b].len() {
                assert(ns[a][0] != ns[b][0] || ns[a][1] != ns[b][1] || ns[a][2] != ns[b][2]);
            }
        }
    }
}

/// A join entity links exactly two rows: it has two fields, both required
/// references.
pub proof fn join_entities_link_two_rows()
    ensures
        forall|i: int| 0 <= i < spec_entities().len() && (#[trigger] spec_entities()[i]).identity == Identity::Composite
            ==> {
            &&& spec_entities()[i].fields.len() == 2
            &&& spec_entities()[i].fields[0].kind is Ref && spec_entities()[i].fields[0].required
            &&& spec_entities()[i].fields[1].kind is Ref && spec_entities()[i].fields[1].required
        },
{
}

} // verus!
