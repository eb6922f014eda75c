//! Deciding how another device's ops land in the local database.
//!
//! Merging is per field. For each field the op carries the revision it was
//! written on top of (`base`):
//!
//! * `base` matches the revision we hold  -> the writer had seen our value, so
//!   this is a clean successor and simply lands.
//! * `base` does not match               -> the two devices edited that field
//!   without knowing about each other. The higher revision wins so both
//!   machines end up identical, and the losing value is filed as a conflict
//!   for the user to look at.
//!
//! Sync therefore never stops to ask a question and never blocks on a conflict.
use vstd::prelude::*;
use crate::sync::model::{EntitySpec, EntitySpecView, FieldKind, FieldKindView, FieldSpecView};
use crate::sync::op::{FieldOpView, Op, OpView, Rev, RevView, Val, ValView, rev_lt, rev_order_is_strict_and_total};
use crate::text::{str_eq, owned};

verus! {

/// What became of one op.
#[derive(Debug, PartialEq, Eq)]
pub enum Applied {
    /// Landed, possibly after filing conflicts.
    Landed { conflicts: usize },
    /// A row it references has not arrived yet; retry on a later pass.
    Deferred(&'static str),
    /// Already superseded by something we hold.
    Ignored(&'static str),
}

/// What to do with one incoming field value.
#[derive(Debug, Clone, Copy, PartialEq, Eq, Structural)]
pub enum FieldMerge {
    /// The incoming value lands.
    Take,
    /// The incoming value lands over an independent local edit, which is
    /// filed as a conflict.
    TakeAndReport,
    /// Our value stands and nothing is reported.
    Keep,
}

/// The per-field merge rule.
///
/// * No revision held yet: take it.
/// * The revision held is this very one: it was already applied, so a
///   redelivered segment changes nothing.
/// * The writer built on the revision held: a clean successor, take it.
/// * Ours is the newer of two independent edits: ours stands, quietly; the
///   other machine learns of it when our value reaches it.
/// * Theirs is the newer of two independent edits: take it, and keep ours on
///   record as a conflict.
pub open spec fn merge_rule(ours: Option<RevView>, base: Option<RevView>, incoming: RevView) -> FieldMerge {
    match ours {
        None => FieldMerge::Take,
        Some(o) => if o == incoming {
            FieldMerge::Keep
        } else if base == Some(o) {
            FieldMerge::Take
        } else if rev_lt(incoming, o) {
            FieldMerge::Keep
        } else {
            FieldMerge::TakeAndReport
        },
    }
}

/// The revision held for a field once an incoming value has been merged.
pub open spec fn held_after(ours: Option<RevView>, base: Option<RevView>, incoming: RevView) -> Option<RevView> {
    if merge_rule(ours, base, incoming) == FieldMerge::Keep {
        ours
    } else {
        Some(incoming)
    }
}

pub open spec fn opt_rev_view(r: Option<Rev>) -> Option<RevView> {
    match r {
        Some(x) => Some(x@),
        None => None,
    }
}

/// Decides one field: `ours` is the revision held for it, `base` the
/// revision the writer built on, `incoming` the op's revision.
pub fn decide_field(ours: &Option<Rev>, base: &Option<Rev>, incoming: &Rev) -> (m: FieldMerge)
    ensures
        m == merge_rule(opt_rev_view(*ours), opt_rev_view(*base), incoming@),
{
    match ours {
        None => FieldMerge::Take,
        Some(o) => {
            if o.same(incoming) {
                FieldMerge::Keep
            } else {
                let builds_on_ours = match base {
                    Some(b) => b.same(o),
                    None => false,
                };
                if builds_on_ours {
                    FieldMerge::Take
                } else if incoming.precedes(o) {
                    FieldMerge::Keep
                } else {
                    FieldMerge::TakeAndReport
                }
            }
        },
    }
}

/// Receiving an op a second time changes nothing and reports nothing, so a
/// segment that is delivered again is harmless.
pub proof fn merging_is_idempotent(ours: Option<RevView>, base: Option<RevView>, incoming: RevView)
    ensures
        merge_rule(held_after(ours, base, incoming), base, incoming) == FieldMerge::Keep,
        held_after(held_after(ours, base, incoming), base, incoming) == held_after(ours, base, incoming),
{
    if merge_rule(ours, base, incoming) == FieldMerge::Keep {
        match ours {
            None => {},
            Some(o) => {
                rev_order_is_strict_and_total(incoming, o, incoming);
            },
        }
    }
}

/// Two machines that edited the same field independently, both on top of
/// `base`, end up holding the same revision, the higher of the two, whichever
/// order the edits meet in.
pub proof fn concurrent_edits_converge(base: Option<RevView>, mine: RevView, theirs: RevView)
    requires
        mine != theirs,
        base != Some(mine),
        base != Some(theirs),
    ensures
        held_after(Some(mine), base, theirs) == held_after(Some(theirs), base, mine),
        held_after(Some(mine), base, theirs) == (if rev_lt(mine, theirs) {
            Some(theirs)
        } else {
            Some(mine)
        }),
{
    rev_order_is_strict_and_total(mine, theirs, mine);
}

/// Of two independent edits to one field, exactly one machine files a
/// conflict: the one whose value is overridden, which is the older.
pub proof fn only_the_overridden_side_reports(base: Option<RevView>, mine: RevView, theirs: RevView)
    requires
        mine != theirs,
        base != Some(mine),
        base != Some(theirs),
    ensures
        (merge_rule(Some(mine), base, theirs) == FieldMerge::TakeAndReport) <==> rev_lt(mine, theirs),
        (merge_rule(Some(theirs), base, mine) == FieldMerge::TakeAndReport) <==> rev_lt(theirs, mine),
        (merge_rule(Some(mine), base, theirs) == FieldMerge::TakeAndReport) != (merge_rule(
            Some(theirs),
            base,
            mine,
        ) == FieldMerge::TakeAndReport),
{
    rev_order_is_strict_and_total(mine, theirs, mine);
}

/// A value written on top of the revision we hold lands without a conflict.
pub proof fn clean_successors_land(held: RevView, incoming: RevView)
    requires
        held != incoming,
    ensures
        merge_rule(Some(held), Some(held), incoming) == FieldMerge::Take,
        held_after(Some(held), Some(held), incoming) == Some(incoming),
{
}

/// Whether a remembered deletion outranks an upsert with counter `lamport`:
/// a delete that happened after a change must not be undone by it.
pub open spec fn spec_deleted_since(grave: Option<RevView>, lamport: u64) -> bool {
    match grave {
        Some(g) => g.lamport >= lamport,
        None => false,
    }
}

pub fn deleted_since(grave: &Option<Rev>, lamport: u64) -> (r: bool)
    ensures
        r == spec_deleted_since(opt_rev_view(*grave), lamport),
{
    match grave {
        Some(g) => g.lamport >= lamport,
        None => false,
    }
}

/// Where a column value comes from.
pub enum ColumnSource {
    /// The value lands as it is.
    Ready(Val),
    /// The value is the local row id of the row `uuid` of entity `target`,
    /// which has to be looked up; if that row is not here yet, the op waits.
    Lookup { target: &'static str, uuid: String },
}

/// How a field value in op form becomes the value its column takes.
/// Reference fields arrive as uuids; a null reference, or one that is not a
/// string, stores null.
pub fn column_source(kind: &FieldKind, value: &Val) -> (r: ColumnSource)
    ensures
        match kind@ {
            FieldKindView::Scalar => r matches ColumnSource::Ready(v) && v@ == value@,
            FieldKindView::Ref(t) => match value@ {
                ValView::Text(u) => r matches ColumnSource::Lookup { target, uuid } && target@ == t
                    && uuid@ == u,
                _ => r matches ColumnSource::Ready(v) && v@ == ValView::Null,
            },
        },
{
    match kind {
        FieldKind::Scalar => ColumnSource::Ready(value.duplicate()),
        FieldKind::Ref(target) => match value {
            Val::Text(u) => ColumnSource::Lookup { target: *target, uuid: u.clone() },
            _ => ColumnSource::Ready(Val::Null),
        },
    }
}

/// The value named `name` among `values`, if there is one.
pub open spec fn value_named(values: Seq<(Seq<char>, ValView)>, name: Seq<char>) -> Option<ValView> {
    if exists|i: int| 0 <= i < values.len() && values[i].0 == name {
        let i = choose|i: int|
            0 <= i < values.len() && values[i].0 == name && forall|j: int| 0 <= j < i ==> values[j].0 != name;
        Some(values[i].1)
    } else {
        None
    }
}

pub open spec fn values_view(values: Seq<(String, Val)>) -> Seq<(Seq<char>, ValView)> {
    values.map_values(|p: (String, Val)| (p.0@, p.1@))
}

/// Finds the value of field `name` in a row's field list.
pub fn lookup_value<'a>(values: &'a Vec<(String, Val)>, name: &str) -> (r: Option<&'a Val>)
    ensures
        match r {
            Some(v) => value_named(values_view(values@), name@) == Some(v@),
            None => value_named(values_view(values@), name@) is None,
        },
{
    let ghost vv = values_view(values@);
    let mut i: usize = 0;
    while i < values.len()
        invariant
            i <= values.len(),
            vv == values_view(values@),
            forall|j: int| 0 <= j < i ==> vv[j].0 != name@,
        decreases values.len() - i,
    {
        if str_eq(values[i].0.as_str(), name) {
            proof {
                let w = choose|k: int|
                    0 <= k < vv.len() && vv[k].0 == name@ && forall|j: int| 0 <= j < k ==> vv[j].0 != name@;
                assert(0 <= i < vv.len() && vv[i as int].0 == name@ && forall|j: int|
                        0 <= j < i ==> vv[j].0 != name@);
                if w < i {
                } else if w > i {
                    assert(vv[i as int].0 != name@);
                }
            }
            return Some(&values[i].1);
        }
        i = i + 1;
    }
    None
}

/// The columns an inserted row is given, in field order: each field the op
/// carries, and for a required field it does not carry an empty text
/// placeholder, since a NOT NULL column left out would abort the insert and
/// lose the row's other fields with it.
pub open spec fn insert_columns(fields: Seq<FieldSpecView>, values: Seq<(Seq<char>, ValView)>) -> Seq<
    (Seq<char>, ValView),
>
    decreases fields.len(),
{
    if fields.len() == 0 {
        Seq::empty()
    } else {
        let rest = insert_columns(fields.drop_last(), values);
        let f = fields.last();
        match value_named(values, f.name) {
            Some(v) => rest.push((f.column, v)),
            None => if f.required {
                rest.push((f.column, ValView::Text(Seq::empty())))
            } else {
                rest
            },
        }
    }
}

pub open spec fn columns_view(cols: Seq<(&'static str, Val)>) -> Seq<(Seq<char>, ValView)> {
    cols.map_values(|p: (&'static str, Val)| (p.0@, p.1@))
}

/// Columns and values for inserting a row that arrived from another device.
pub fn insert_plan(spec: &EntitySpec, values: &Vec<(String, Val)>) -> (cols: Vec<(&'static str, Val)>)
    ensures
        columns_view(cols@) == insert_columns(spec@.fields, values_view(values@)),
{
    let mut cols: Vec<(&'static str, Val)> = Vec::new();
    let mut i: usize = 0;
    while i < spec.fields.len()
        invariant
            i <= spec.fields.len(),
            columns_view(cols@) == insert_columns(spec@.fields.take(i as int), values_view(values@)),
        decreases spec.fields.len() - i,
    {
        let f = spec.fields[i];
        proof {
            assert(spec@.fields.take(i + 1).drop_last() =~= spec@.fields.take(i as int));
            assert(spec@.fields.take(i + 1).last() == f@);
        }
        match lookup_value(values, f.name) {
            Some(v) => {
                cols.push((f.column, v.duplicate()));
            },
            None => {
                if f.required {
                    cols.push((f.column, Val::Text(String::new())));
                }
            },
        }
        proof {
            assert(columns_view(cols@) =~= insert_columns(spec@.fields.take(i + 1), values_view(values@)));
        }
        i = i + 1;
    }
    assert(spec@.fields.take(spec.fields.len() as int) =~= spec@.fields);
    cols
}

/// The column updates for the winning fields: each value whose name is a
/// field of the entity, in the order given; unknown names are skipped.
pub open spec fn update_columns(spec: EntitySpecView, values: Seq<(Seq<char>, ValView)>) -> Seq<
    (Seq<char>, ValView),
>
    decreases values.len(),
{
    if values.len() == 0 {
        Seq::empty()
    } else {
        let rest = update_columns(spec, values.drop_last());
        match spec.field_named(values.last().0) {
            Some(f) => rest.push((f.column, values.last().1)),
            None => rest,
        }
    }
}

/// Columns and values for updating a row's winning fields.
pub fn update_plan(spec: &EntitySpec, values: &Vec<(String, Val)>) -> (cols: Vec<(&'static str, Val)>)
    ensures
        columns_view(cols@) == update_columns(spec@, values_view(values@)),
{
    let mut cols: Vec<(&'static str, Val)> = Vec::new();
    let ghost vv = values_view(values@);
    let mut i: usize = 0;
    while i < values.len()
        invariant
            i <= values.len(),
            vv == values_view(values@),
            columns_view(cols@) == update_columns(spec@, vv.take(i as int)),
        decreases values.len() - i,
    {
        proof {
            assert(vv.take(i + 1).drop_last() =~= vv.take(i as int));
            assert(vv.take(i + 1).last() == vv[i as int]);
        }
        match spec.field(values[i].0.as_str()) {
            Some(f) => {
                cols.push((f.column, values[i].1.duplicate()));
            },
            None => {},
        }
        proof {
            assert(columns_view(cols@) =~= update_columns(spec@, vv.take(i + 1)));
        }
        i = i + 1;
    }
    assert(vv.take(values.len() as int) =~= vv);
    cols
}

/// `?1, ?2, ..., ?n`.
pub open spec fn placeholder_list(n: nat) -> Seq<char>
    decreases n,
{
    if n == 0 {
        Seq::empty()
    } else if n == 1 {
        seq!['?', '1']
    } else {
        placeholder_list((n - 1) as nat) + seq![',', ' ', '?'] + crate::text::decimal(n)
    }
}

/// The SQL parameter list for `n` values.
pub fn placeholders(n: u64) -> (s: String)
    ensures
        s@ == placeholder_list(n as nat),
{
    let mut s = String::new();
    let mut i: u64 = 0;
    while i < n
        invariant
            i <= n,
            s@ == placeholder_list(i as nat),
        decreases n - i,
    {
        i = i + 1;
        if i > 1 {
            s.append(", ?");
            let d = crate::text::u64_text(i);
            s.append(d.as_str());
            proof {
                reveal_strlit(", ?");
            }
        } else {
            s.append("?1");
            proof {
                reveal_strlit("?1");
            }
        }
        assert(s@ =~= placeholder_list(i as nat));
    }
    s
}

/// A tag created on another device under a name we already have is merged
/// into ours. This is the name to look for: the op's `name` when the op is
/// for a tag and carries it as text.
pub open spec fn tag_name_to_match(spec: EntitySpecView, op: OpView) -> Option<Seq<char>> {
    if spec.name != "tag"@ {
        None
    } else {
        match value_named(fields_values(op.fields), "name"@) {
            Some(ValView::Text(n)) => Some(n),
            _ => None,
        }
    }
}

pub open spec fn fields_values(fields: Seq<(Seq<char>, FieldOpView)>) -> Seq<(Seq<char>, ValView)> {
    fields.map_values(|p: (Seq<char>, FieldOpView)| (p.0, p.1.v))
}

/// The field op named `name` in an op, if the op carries it.
pub fn op_field<'a>(op: &'a Op, name: &str) -> (r: Option<&'a crate::sync::op::FieldOp>)
    ensures
        match r {
            Some(f) => value_named(fields_values(op@.fields), name@) == Some(f.v@)
                && exists|i: int| 0 <= i < op.fields.len() && op.fields@[i].1 == *f && op@.fields[i].0 == name@,
            None => value_named(fields_values(op@.fields), name@) is None,
        },
{
    let ghost vv = fields_values(op@.fields);
    let mut i: usize = 0;
    while i < op.fields.len()
        invariant
            i <= op.fields.len(),
            vv == fields_values(op@.fields),
            forall|j: int| 0 <= j < i ==> vv[j].0 != name@,
        decreases op.fields.len() - i,
    {
        if str_eq(op.fields[i].0.as_str(), name) {
            proof {
                let w = choose|k: int|
                    0 <= k < vv.len() && vv[k].0 == name@ && forall|j: int| 0 <= j < k ==> vv[j].0 != name@;
                assert(0 <= i < vv.len() && vv[i as int].0 == name@ && forall|j: int|
                        0 <= j < i ==> vv[j].0 != name@);
                if w < i {
                } else if w > i {
                    assert(vv[i as int].0 != name@);
                }
            }
            return Some(&op.fields[i].1);
        }
        i = i + 1;
    }
    None
}

pub fn tag_name(spec: &EntitySpec, op: &Op) -> (r: Option<String>)
    ensures
        match r {
            Some(n) => tag_name_to_match(spec@, op@) == Some(n@),
            None => tag_name_to_match(spec@, op@) is None,
        },
{
    if !str_eq(spec.name, "tag") {
        return None;
    }
    match op_field(op, "name") {
        Some(f) => match &f.v {
            Val::Text(n) => Some(n.clone()),
            _ => None,
        },
        None => None,
    }
}

/// Given the uuid of the local tag already holding that name, the uuid the
/// incoming tag is merged into: the local one, unless it is the incoming
/// uuid itself.
pub fn adopted_uuid(existing: Option<String>, uuid: &str) -> (r: Option<String>)
    ensures
        match existing {
            Some(l) => if l@ != uuid@ {
                r matches Some(x) && x@ == l@
            } else {
                r is None
            },
            None => r is None,
        },
{
    match existing {
        Some(local) => {
            if str_eq(local.as_str(), uuid) {
                None
            } else {
                Some(local)
            }
        },
        None => None,
    }
}

/// A field value that lost to a newer independent edit, kept on record for
/// the user.
pub struct ConflictRecord {
    pub field: String,
    /// The value that now stands, and its revision.
    pub kept: Val,
    pub kept_rev: Rev,
    /// The local value it replaced, and the revision that value had.
    pub discarded: Val,
    pub discarded_rev: Rev,
}

/// What merging an op into an existing row does: the fields whose incoming
/// value lands, in op order, and the conflicts to file.
pub struct MergePlan {
    pub winning: Vec<(String, Val)>,
    pub conflicts: Vec<ConflictRecord>,
}

pub open spec fn op_base(op: OpView, name: Seq<char>) -> Option<RevView> {
    if exists|i: int| 0 <= i < op.fields.len() && op.fields[i].0 == name {
        let i = choose|i: int|
            0 <= i < op.fields.len() && op.fields[i].0 == name && forall|j: int|
                0 <= j < i ==> op.fields[j].0 != name;
        op.fields[i].1.base
    } else {
        None
    }
}

fn base_of(op: &Op, name: &str) -> (b: Option<Rev>)
    ensures
        opt_rev_view(b) == op_base(op@, name@),
{
    let ghost vv = op@.fields;
    let mut i: usize = 0;
    while i < op.fields.len()
        invariant
            i <= op.fields.len(),
            vv == op@.fields,
            forall|j: int| 0 <= j < i ==> vv[j].0 != name@,
        decreases op.fields.len() - i,
    {
        if str_eq(op.fields[i].0.as_str(), name) {
            proof {
                let w = choose|k: int|
                    0 <= k < vv.len() && vv[k].0 == name@ && forall|j: int| 0 <= j < k ==> vv[j].0 != name@;
                assert(0 <= i < vv.len() && vv[i as int].0 == name@ && forall|j: int|
                        0 <= j < i ==> vv[j].0 != name@);
                if w < i {
                } else if w > i {
                    assert(vv[i as int].0 != name@);
                }
                assert(vv[i as int].1 == op.fields@[i as int].1@);
            }
            return match &op.fields[i].1.base {
                Some(r) => Some(r.duplicate()),
                None => None,
            };
        }
        i = i + 1;
    }
    None
}

/// The merge decision for the `i`th resolved field.
pub open spec fn decision_at(
    resolved: Seq<(Seq<char>, ValView)>,
    ours: Seq<Option<RevView>>,
    op: OpView,
    i: int,
) -> FieldMerge {
    merge_rule(ours[i], op_base(op, resolved[i].0), RevView { lamport: op.lamport, device: op.device })
}

/// The resolved fields whose incoming value lands, in order.
pub open spec fn winning_fields(
    resolved: Seq<(Seq<char>, ValView)>,
    ours: Seq<Option<RevView>>,
    op: OpView,
    n: int,
) -> Seq<(Seq<char>, ValView)>
    decreases n,
{
    if n <= 0 {
        Seq::empty()
    } else {
        let rest = winning_fields(resolved, ours, op, n - 1);
        if decision_at(resolved, ours, op, n - 1) != FieldMerge::Keep {
            rest.push(resolved[n - 1])
        } else {
            rest
        }
    }
}

/// The conflicts filed, in order: for each field where a newer independent
/// edit lands, the field name, the incoming value and revision, and our
/// value (null when the row has none) with the revision it had.
pub open spec fn filed_conflicts(
    resolved: Seq<(Seq<char>, ValView)>,
    ours: Seq<Option<RevView>>,
    op: OpView,
    current: Seq<(Seq<char>, ValView)>,
    n: int,
) -> Seq<(Seq<char>, ValView, RevView, ValView, RevView)>
    decreases n,
{
    if n <= 0 {
        Seq::empty()
    } else {
        let rest = filed_conflicts(resolved, ours, op, current, n - 1);
        if decision_at(resolved, ours, op, n - 1) == FieldMerge::TakeAndReport {
            let name = resolved[n - 1].0;
            rest.push(
                (
                    name,
                    resolved[n - 1].1,
                    RevView { lamport: op.lamport, device: op.device },
                    match value_named(current, name) {
                        Some(v) => v,
                        None => ValView::Null,
                    },
                    ours[n - 1]->Some_0,
                ),
            )
        } else {
            rest
        }
    }
}

pub open spec fn conflict_view(c: ConflictRecord) -> (Seq<char>, ValView, RevView, ValView, RevView) {
    (c.field@, c.kept@, c.kept_rev@, c.discarded@, c.discarded_rev@)
}

pub open spec fn opt_revs_view(s: Seq<Option<Rev>>) -> Seq<Option<RevView>> {
    s.map_values(|r: Option<Rev>| opt_rev_view(r))
}

/// Merges an op's resolved fields into an existing row, given the revision
/// held for each field (in the same order) and the row's current values.
#[verifier::rlimit(50)]
pub fn merge_fields(
    resolved: &Vec<(String, Val)>,
    ours: &Vec<Option<Rev>>,
    op: &Op,
    current: &Vec<(String, Val)>,
) -> (plan: MergePlan)
    requires
        ours.len() == resolved.len(),
    ensures
        values_view(plan.winning@) == winning_fields(
            values_view(resolved@),
            opt_revs_view(ours@),
            op@,
            resolved.len() as int,
        ),
        plan.conflicts@.map_values(|c: ConflictRecord| conflict_view(c)) == filed_conflicts(
            values_view(resolved@),
            opt_revs_view(ours@),
            op@,
            values_view(current@),
            resolved.len() as int,
        ),
{
    let ghost rv = values_view(resolved@);
    let ghost ov = opt_revs_view(ours@);
    let incoming = op.rev();
    let mut winning: Vec<(String, Val)> = Vec::new();
    let mut conflicts: Vec<ConflictRecord> = Vec::new();
    let mut i: usize = 0;
    while i < resolved.len()
        invariant
            i <= resolved.len(),
            ours.len() == resolved.len(),
            rv == values_view(resolved@),
            ov == opt_revs_view(ours@),
            incoming@ == (RevView { lamport: op.lamport, device: op.device@ }),
            values_view(winning@) == winning_fields(rv, ov, op@, i as int),
            conflicts@.map_values(|c: ConflictRecord| conflict_view(c)) == filed_conflicts(
                rv,
                ov,
                op@,
                values_view(current@),
                i as int,
            ),
        decreases resolved.len() - i,
    {
        let name = &resolved[i].0;
        let value = &resolved[i].1;
        let base = base_of(op, name.as_str());
        let m = decide_field(&ours[i], &base, &incoming);
        assert(ov[i as int] == opt_rev_view(ours@[i as int]));
        assert(rv[i as int] == (name@, value@));
        assert(m == decision_at(rv, ov, op@, i as int));
        if m == FieldMerge::TakeAndReport {
            let mine = match lookup_value(current, name.as_str()) {
                Some(v) => v.duplicate(),
                None => Val::Null,
            };
            let held = match &ours[i] {
                Some(o) => o.duplicate(),
                None => incoming.duplicate(),
            };
            conflicts.push(
                ConflictRecord {
                    field: name.clone(),
                    kept: value.duplicate(),
                    kept_rev: incoming.duplicate(),
                    discarded: mine,
                    discarded_rev: held,
                },
            );
        }
        if m != FieldMerge::Keep {
            winning.push((name.clone(), value.duplicate()));
        }
        assert(values_view(winning@) =~= winning_fields(rv, ov, op@, i + 1));
        assert(conflicts@.map_values(|c: ConflictRecord| conflict_view(c)) =~= filed_conflicts(
            rv,
            ov,
            op@,
            values_view(current@),
            i + 1,
        ));
        i = i + 1;
    }
    MergePlan { winning, conflicts }
}

/// How each field an op carries is resolved before it can land, in op
/// order; fields the entity does not have are left out.
pub open spec fn resolution_of(spec: EntitySpecView, fields: Seq<(Seq<char>, FieldOpView)>) -> Seq<
    (Seq<char>, FieldKindView, ValView),
>
    decreases fields.len(),
{
    if fields.len() == 0 {
        Seq::empty()
    } else {
        let rest = resolution_of(spec, fields.drop_last());
        match spec.field_named(fields.last().0) {
            Some(f) => rest.push((fields.last().0, f.kind, fields.last().1.v)),
            None => rest,
        }
    }
}

/// The fields of an op the entity knows, each with where its column value
/// comes from (see `column_source`).
pub fn resolution_plan(spec: &EntitySpec, op: &Op) -> (plan: Vec<(String, ColumnSource)>)
    ensures
        plan.len() == resolution_of(spec@, op@.fields).len(),
        forall|k: int| 0 <= k < plan.len() ==> {
            let (name, kind, v) = #[trigger] resolution_of(spec@, op@.fields)[k];
            &&& plan@[k].0@ == name
            &&& match kind {
                FieldKindView::Scalar => plan@[k].1 matches ColumnSource::Ready(x) && x@ == v,
                FieldKindView::Ref(t) => match v {
                    ValView::Text(u) => plan@[k].1 matches ColumnSource::Lookup { target, uuid } && target@ == t
                        && uuid@ == u,
                    _ => plan@[k].1 matches ColumnSource::Ready(x) && x@ == ValView::Null,
                },
            }
        },
{
    let ghost fv = op@.fields;
    let mut plan: Vec<(String, ColumnSource)> = Vec::new();
    let mut i: usize = 0;
    while i < op.fields.len()
        invariant
            i <= op.fields.len(),
            fv == op@.fields,
            plan.len() == resolution_of(spec@, fv.take(i as int)).len(),
            forall|k: int| 0 <= k < plan.len() ==> {
                let (name, kind, v) = #[trigger] resolution_of(spec@, fv.take(i as int))[k];
                &&& plan@[k].0@ == name
                &&& match kind {
                    FieldKindView::Scalar => plan@[k].1 matches ColumnSource::Ready(x) && x@ == v,
                    FieldKindView::Ref(t) => match v {
                        ValView::Text(u) => plan@[k].1 matches ColumnSource::Lookup { target, uuid } && target@
                            == t && uuid@ == u,
                        _ => plan@[k].1 matches ColumnSource::Ready(x) && x@ == ValView::Null,
                    },
                }
            },
        decreases op.fields.len() - i,
    {
        let ghost before = resolution_of(spec@, fv.take(i as int));
        proof {
            assert(fv.take(i + 1).drop_last() =~= fv.take(i as int));
            assert(fv.take(i + 1).last() == fv[i as int]);
            assert(fv[i as int] == (op.fields@[i as int].0@, op.fields@[i as int].1@));
        }
        let name = &op.fields[i].0;
        match spec.field(name.as_str()) {
            Some(f) => {
                let src = column_source(&f.kind, &op.fields[i].1.v);
                plan.push((name.clone(), src));
                proof {
                    let after = resolution_of(spec@, fv.take(i + 1));
                    assert(after == before.push((name@, f@.kind, op.fields@[i as int].1.v@)));
                    assert forall|k: int| 0 <= k < plan.len() implies {
                        let (nm, kind, v) = #[trigger] resolution_of(spec@, fv.take(i + 1))[k];
                        &&& plan@[k].0@ == nm
                        &&& match kind {
                            FieldKindView::Scalar => plan@[k].1 matches ColumnSource::Ready(x) && x@ == v,
                            FieldKindView::Ref(t) => match v {
                                ValView::Text(u) => plan@[k].1 matches ColumnSource::Lookup { target, uuid }
                                    && target@ == t && uuid@ == u,
                                _ => plan@[k].1 matches ColumnSource::Ready(x) && x@ == ValView::Null,
                            },
                        }
                    } by {
                        if k < plan.len() - 1 {
                            assert(after[k] == before[k]);
                        }
                    }
                }
            },
            None => {},
        }
        i = i + 1;
    }
    assert(fv.take(op.fields.len() as int) =~= fv);
    plan
}

/// The revisions held for an op's resolved fields once it has been merged:
/// for each field, the incoming revision where its value landed, and the
/// revision held before where it did not (for a row the op created, every
/// field's revision is the incoming one, as from no revision at all).
pub open spec fn revs_after_merge(
    resolved: Seq<(Seq<char>, ValView)>,
    ours: Seq<Option<RevView>>,
    op: OpView,
) -> Seq<Option<RevView>> {
    Seq::new(
        resolved.len(),
        |i: int| held_after(ours[i], op_base(op, resolved[i].0), RevView { lamport: op.lamport, device: op.device }),
    )
}

/// Delivering an op a second time, after it has been merged, lands no field
/// and files no conflict, whatever the row holds: seeing the same op twice
/// is not a disagreement.
pub proof fn a_second_delivery_changes_nothing(
    resolved: Seq<(Seq<char>, ValView)>,
    ours: Seq<Option<RevView>>,
    op: OpView,
    current: Seq<(Seq<char>, ValView)>,
)
    requires
        ours.len() == resolved.len(),
    ensures
        winning_fields(resolved, revs_after_merge(resolved, ours, op), op, resolved.len() as int).len() == 0,
        filed_conflicts(resolved, revs_after_merge(resolved, ours, op), op, current, resolved.len() as int).len()
            == 0,
{
    lemma_second_delivery_upto(resolved, ours, op, current, resolved.len() as int);
}

proof fn lemma_second_delivery_upto(
    resolved: Seq<(Seq<char>, ValView)>,
    ours: Seq<Option<RevView>>,
    op: OpView,
    current: Seq<(Seq<char>, ValView)>,
    n: int,
)
    requires
        ours.len() == resolved.len(),
        n <= resolved.len(),
    ensures
        winning_fields(resolved, revs_after_merge(resolved, ours, op), op, n).len() == 0,
        filed_conflicts(resolved, revs_after_merge(resolved, ours, op), op, current, n).len() == 0,
    decreases n,
{
    if n > 0 {
        lemma_second_delivery_upto(resolved, ours, op, current, n - 1);
        let incoming = RevView { lamport: op.lamport, device: op.device };
        let base = op_base(op, resolved[n - 1].0);
        merging_is_idempotent(ours[n - 1], base, incoming);
        assert(revs_after_merge(resolved, ours, op)[n - 1] == held_after(ours[n - 1], base, incoming));
        assert(decision_at(resolved, revs_after_merge(resolved, ours, op), op, n - 1) == FieldMerge::Keep);
    }
}

/// Whether a value's name is a field of the entity.
pub open spec fn is_known_field(spec: EntitySpecView) -> spec_fn((Seq<char>, ValView)) -> bool {
    |v: (Seq<char>, ValView)| spec.field_named(v.0) is Some
}

/// An update writes every winning value the entity knows, and only those:
/// the plan has one column per value with a known name, in the order given,
/// each that field's column with that value; so every known value given
/// appears in it.
pub proof fn every_known_value_is_written(spec: EntitySpecView, values: Seq<(Seq<char>, ValView)>)
    ensures
        update_columns(spec, values).len() == values.filter(is_known_field(spec)).len(),
        forall|k: int| 0 <= k < update_columns(spec, values).len() ==> #[trigger] update_columns(spec, values)[k] == (
            spec.field_named(values.filter(is_known_field(spec))[k].0)->Some_0.column,
            values.filter(is_known_field(spec))[k].1,
        ),
        forall|i: int| 0 <= i < values.len() && spec.field_named(#[trigger] values[i].0) is Some ==> update_columns(
            spec,
            values,
        ).contains((spec.field_named(values[i].0)->Some_0.column, values[i].1)),
    decreases values.len(),
{
    let p = is_known_field(spec);
    if values.len() == 0 {
        assert(values.filter(p) =~= Seq::<(Seq<char>, ValView)>::empty());
    } else {
        let init = values.drop_last();
        let x = values.last();
        every_known_value_is_written(spec, init);
        assert(values =~= init.push(x));
        init.lemma_filter_push(x, p);
        let rest = update_columns(spec, init);
        let out = update_columns(spec, values);
        if p(x) {
            assert(out == rest.push((spec.field_named(x.0)->Some_0.column, x.1)));
            assert(values.filter(p) == init.filter(p).push(x));
        } else {
            assert(out == rest);
            assert(values.filter(p) == init.filter(p));
        }
        assert forall|k: int| 0 <= k < out.len() implies #[trigger] out[k] == (
            spec.field_named(values.filter(p)[k].0)->Some_0.column,
            values.filter(p)[k].1,
        ) by {
            if k < rest.len() {
                assert(out[k] == rest[k]);
                assert(values.filter(p)[k] == init.filter(p)[k]);
            }
        }
        assert forall|i: int| 0 <= i < values.len() && spec.field_named(#[trigger] values[i].0) is Some implies out.contains(
            (spec.field_named(values[i].0)->Some_0.column, values[i].1),
        ) by {
            if i < init.len() {
                assert(values[i] == init[i]);
                assert(spec.field_named(init[i].0) is Some);
                let w = choose|w: int| 0 <= w < rest.len() && rest[w] == (
                    spec.field_named(init[i].0)->Some_0.column,
                    init[i].1,
                );
                assert(out[w] == rest[w]);
            } else {
                assert(values[i] == x);
                assert(out[out.len() - 1] == (spec.field_named(x.0)->Some_0.column, x.1));
            }
        }
    }
}

} // verus!
