//! Turning locally captured changes into ops.
//!
//! The database triggers only record *that* a row changed. Working out *what*
//! changed happens here, by diffing the row against the shadow copy of the
//! last value we know is shared. Sending only the fields that actually moved
//! is what lets two devices edit different fields of one task without
//! fighting.
use vstd::prelude::*;
use crate::sync::apply::{lookup_value, value_named, values_view};
use crate::sync::model::{field_names, EntitySpec, EntitySpecView, FieldSpecView, Identity};
use crate::sync::op::{fields_named_once, FieldOp, FieldOpView, Rev, RevView, Val, ValView};
use crate::sync::apply::opt_rev_view;
use crate::text::{decimal, lemma_parse_decimal, parse_u64, spec_parse_u64, str_eq};

verus! {

pub const NEXT_SEQ: &'static str = "next_seq";

/// The next sequence number as stored: its value when it reads as a number,
/// else 1.
pub open spec fn spec_stored_seq(stored: Option<Seq<char>>) -> u64 {
    match stored {
        Some(s) => match spec_parse_u64(s) {
            Some(v) => v,
            None => 1,
        },
        None => 1,
    }
}

pub fn stored_seq(stored: &Option<String>) -> (n: u64)
    ensures
        n == spec_stored_seq(match stored {
            Some(s) => Some(s@),
            None => None,
        }),
{
    match stored {
        Some(s) => match parse_u64(s.as_str()) {
            Some(v) => v,
            None => 1,
        },
        None => 1,
    }
}

/// Sequence numbers never repeat or go backwards: once `seq` is handed out,
/// `seq + 1` is stored as its decimal text, which reads back as `seq + 1`.
pub proof fn sequence_numbers_read_back(seq: u64)
    requires
        seq < u64::MAX,
    ensures
        spec_stored_seq(Some(decimal((seq + 1) as nat))) == seq + 1,
        spec_stored_seq(Some(decimal((seq + 1) as nat))) > seq,
{
    lemma_parse_decimal((seq + 1) as u64);
}

/// The names of the fields whose value differs from the shadow copy, in
/// field order; every field when there is no shadow copy yet.
pub open spec fn changed_names(
    fields: Seq<FieldSpecView>,
    previous: Option<Seq<(Seq<char>, ValView)>>,
    current: Seq<(Seq<char>, ValView)>,
) -> Seq<Seq<char>>
    decreases fields.len(),
{
    if fields.len() == 0 {
        Seq::empty()
    } else {
        let rest = changed_names(fields.drop_last(), previous, current);
        let name = fields.last().name;
        let changed = match previous {
            Some(prev) => value_named(prev, name) != value_named(current, name),
            None => true,
        };
        if changed {
            rest.push(name)
        } else {
            rest
        }
    }
}

pub open spec fn opt_values_view(v: Option<Vec<(String, Val)>>) -> Option<Seq<(Seq<char>, ValView)>> {
    match v {
        Some(x) => Some(values_view(x@)),
        None => None,
    }
}

pub open spec fn names_view(s: Seq<&'static str>) -> Seq<Seq<char>> {
    s.map_values(|n: &'static str| n@)
}

fn same_entry(a: Option<&Val>, b: Option<&Val>) -> (r: bool)
    ensures
        r == (match a {
            Some(x) => Some(x@),
            None => None::<ValView>,
        } == match b {
            Some(x) => Some(x@),
            None => None::<ValView>,
        }),
{
    match (a, b) {
        (Some(x), Some(y)) => x.same(y),
        (None, None) => true,
        _ => false,
    }
}

proof fn lemma_changed_names_distinct(
    fields: Seq<FieldSpecView>,
    previous: Option<Seq<(Seq<char>, ValView)>>,
    current: Seq<(Seq<char>, ValView)>,
)
    ensures
        forall|x: Seq<char>| changed_names(fields, previous, current).contains(x) ==> field_names(fields).contains(x),
        field_names(fields).no_duplicates() ==> changed_names(fields, previous, current).no_duplicates(),
    decreases fields.len(),
{
    if fields.len() > 0 {
        let init = fields.drop_last();
        lemma_changed_names_distinct(init, previous, current);
        let names = field_names(fields);
        assert(field_names(init) =~= names.drop_last());
        let rest = changed_names(init, previous, current);
        let last = fields.last().name;
        assert(names[names.len() - 1] == last);
        assert forall|x: Seq<char>| changed_names(fields, previous, current).contains(x) implies names.contains(x) by {
            if rest.contains(x) {
                assert(field_names(init).contains(x));
                let k = choose|k: int| 0 <= k < field_names(init).len() && field_names(init)[k] == x;
                assert(names[k] == x);
            } else {
                assert(x == last);
                assert(names.contains(names[names.len() - 1]));
            }
        }
        if names.no_duplicates() {
            assert(!field_names(init).contains(last)) by {
                if field_names(init).contains(last) {
                    let k = choose|k: int| 0 <= k < field_names(init).len() && field_names(init)[k] == last;
                    assert(names[k] == names[names.len() - 1]);
                }
            }
            assert(field_names(init).no_duplicates()) by {
                assert forall|a: int, b: int| 0 <= a < field_names(init).len() && 0 <= b < field_names(init).len()
                    && a != b implies field_names(init)[a] != field_names(init)[b] by {
                    assert(field_names(init)[a] == names[a]);
                    assert(field_names(init)[b] == names[b]);
                }
            }
        }
    }
}

/// Which fields of a row an edit touched.
pub fn changed_fields(
    spec: &EntitySpec,
    previous: &Option<Vec<(String, Val)>>,
    current: &Vec<(String, Val)>,
) -> (names: Vec<&'static str>)
    ensures
        names_view(names@) == changed_names(spec@.fields, opt_values_view(*previous), values_view(current@)),
        field_names(spec@.fields).no_duplicates() ==> names_view(names@).no_duplicates(),
{
    proof {
        lemma_changed_names_distinct(spec@.fields, opt_values_view(*previous), values_view(current@));
    }
    let mut names: Vec<&'static str> = Vec::new();
    let mut i: usize = 0;
    while i < spec.fields.len()
        invariant
            i <= spec.fields.len(),
            names_view(names@) == changed_names(
                spec@.fields.take(i as int),
                opt_values_view(*previous),
                values_view(current@),
            ),
        decreases spec.fields.len() - i,
    {
        let name = spec.fields[i].name;
        proof {
            assert(spec@.fields.take(i + 1).drop_last() =~= spec@.fields.take(i as int));
            assert(spec@.fields.take(i + 1).last() == spec.fields@[i as int]@);
        }
        let changed = match previous {
            Some(prev) => !same_entry(lookup_value(prev, name), lookup_value(current, name)),
            None => true,
        };
        if changed {
            names.push(name);
        }
        assert(names_view(names@) =~= changed_names(
            spec@.fields.take(i + 1),
            opt_values_view(*previous),
            values_view(current@),
        ));
        i = i + 1;
    }
    assert(spec@.fields.take(spec.fields.len() as int) =~= spec@.fields);
    names
}

/// A write that leaves every field as it was produces no op.
pub proof fn unchanged_rows_send_nothing(fields: Seq<FieldSpecView>, row: Seq<(Seq<char>, ValView)>)
    ensures
        changed_names(fields, Some(row), row).len() == 0,
    decreases fields.len(),
{
    if fields.len() > 0 {
        unchanged_rows_send_nothing(fields.drop_last(), row);
    }
}

/// A row seen for the first time sends every field.
pub proof fn new_rows_send_every_field(fields: Seq<FieldSpecView>, row: Seq<(Seq<char>, ValView)>)
    ensures
        changed_names(fields, None, row) == fields.map_values(|f: FieldSpecView| f.name),
    decreases fields.len(),
{
    if fields.len() > 0 {
        new_rows_send_every_field(fields.drop_last(), row);
        assert(fields.map_values(|f: FieldSpecView| f.name) =~= fields.drop_last().map_values(
            |f: FieldSpecView| f.name,
        ).push(fields.last().name));
    } else {
        assert(fields.map_values(|f: FieldSpecView| f.name) =~= Seq::<Seq<char>>::empty());
    }
}

/// The value an op carries for a changed field: the row's value, or null.
pub fn carried_value(current: &Vec<(String, Val)>, name: &str) -> (v: Val)
    ensures
        v@ == match value_named(values_view(current@), name@) {
            Some(x) => x,
            None => ValView::Null,
        },
{
    match lookup_value(current, name) {
        Some(x) => x.duplicate(),
        None => Val::Null,
    }
}

/// One queued change, with its row identified: (entity, uuid, kind).
pub type QueuedRow = (String, String, String);

pub open spec fn row_key(r: (Seq<char>, Seq<char>, Seq<char>)) -> (Seq<char>, Seq<char>) {
    (r.0, r.1)
}

pub open spec fn queued_view(s: Seq<QueuedRow>) -> Seq<(Seq<char>, Seq<char>, Seq<char>)> {
    s.map_values(|r: QueuedRow| (r.0@, r.1@, r.2@))
}

/// The rows touched among the first `n` queued changes, each once, in the
/// order they were first touched.
pub open spec fn touched_rows(rows: Seq<(Seq<char>, Seq<char>, Seq<char>)>, n: int) -> Seq<(Seq<char>, Seq<char>)>
    decreases n,
{
    if n <= 0 {
        Seq::empty()
    } else {
        let rest = touched_rows(rows, n - 1);
        if rest.contains(row_key(rows[n - 1])) {
            rest
        } else {
            rest.push(row_key(rows[n - 1]))
        }
    }
}

/// The kind of the last change queued for a row among the first `n`.
pub open spec fn last_kind(rows: Seq<(Seq<char>, Seq<char>, Seq<char>)>, n: int, key: (Seq<char>, Seq<char>)) -> Seq<char>
    decreases n,
{
    if n <= 0 {
        Seq::empty()
    } else if row_key(rows[n - 1]) == key {
        rows[n - 1].2
    } else {
        last_kind(rows, n - 1, key)
    }
}

pub open spec fn keys_view(s: Seq<(String, String)>) -> Seq<(Seq<char>, Seq<char>)> {
    s.map_values(|k: (String, String)| (k.0@, k.1@))
}

proof fn lemma_touched_rows_distinct(rows: Seq<(Seq<char>, Seq<char>, Seq<char>)>, n: int)
    ensures
        touched_rows(rows, n).no_duplicates(),
    decreases n,
{
    if n > 0 {
        lemma_touched_rows_distinct(rows, n - 1);
    }
}

/// The queued changes, one entry per row, in the order the rows were first
/// touched, each with the kind of the last change queued for it.
pub fn dedup_pending(rows: Vec<QueuedRow>) -> (r: (Vec<(String, String)>, Vec<String>))
    ensures
        keys_view(r.0@) == touched_rows(queued_view(rows@), rows.len() as int),
        keys_view(r.0@).no_duplicates(),
        r.1.len() == r.0.len(),
        forall|m: int| 0 <= m < r.1.len() ==> #[trigger] r.1@[m]@ == last_kind(
            queued_view(rows@),
            rows.len() as int,
            keys_view(r.0@)[m],
        ),
{
    let ghost s = queued_view(rows@);
    let n = rows.len();
    let mut order: Vec<(String, String)> = Vec::new();
    let mut kinds: Vec<String> = Vec::new();
    for row in it: rows
        invariant
            it.seq() == rows@,
            s == queued_view(it.seq()),
            n == s.len(),
            keys_view(order@) == touched_rows(s, it.index() as int),
            kinds.len() == order.len(),
            forall|m: int| 0 <= m < kinds.len() ==> #[trigger] kinds@[m]@ == last_kind(
                s,
                it.index() as int,
                keys_view(order@)[m],
            ),
    {
        let ghost i = it.index();
        let ghost korder = keys_view(order@);
        assert(s[i] == (row.0@, row.1@, row.2@));
        proof {
            lemma_touched_rows_distinct(s, i);
        }
        let (entity, uuid, kind) = row;
        let mut m: usize = 0;
        while m < order.len() && !(order[m].0 == entity && order[m].1 == uuid)
            invariant
                m <= order.len(),
                korder == keys_view(order@),
                forall|q: int| 0 <= q < m ==> korder[q] != (entity@, uuid@),
            decreases order.len() - m,
        {
            m = m + 1;
        }
        if m < order.len() {
            proof {
                assert(korder[m as int] == (entity@, uuid@));
                assert(korder.contains(row_key(s[i])));
            }
            kinds.set(m, kind);
            proof {
                assert forall|q: int| 0 <= q < kinds.len() implies #[trigger] kinds@[q]@ == last_kind(
                    s,
                    i + 1,
                    keys_view(order@)[q],
                ) by {
                    if q != m {
                        assert(korder.no_duplicates());
                    }
                }
            }
        } else {
            proof {
                assert(!korder.contains(row_key(s[i])));
            }
            order.push((entity, uuid));
            kinds.push(kind);
            proof {
                assert(keys_view(order@) =~= korder.push(row_key(s[i])));
                assert forall|q: int| 0 <= q < kinds.len() implies #[trigger] kinds@[q]@ == last_kind(
                    s,
                    i + 1,
                    keys_view(order@)[q],
                ) by {
                    if q < kinds.len() - 1 {
                        assert(keys_view(order@)[q] == korder[q]);
                        assert(korder[q] != row_key(s[i]));
                    }
                }
            }
        }
    }
    proof {
        lemma_touched_rows_distinct(s, n as int);
    }
    (order, kinds)
}

/// Whether a queued change is a deletion.
pub fn is_delete(kind: &str) -> (r: bool)
    ensures
        r == (kind@ == "delete"@),
{
    str_eq(kind, "delete")
}

/// The fields of an upsert op: each changed field's current value, with the
/// revision it was written on top of, in the order given.
pub fn upsert_fields(names: &Vec<&'static str>, current: &Vec<(String, Val)>, bases: Vec<Option<Rev>>) -> (fields: Vec<
    (String, FieldOp),
>)
    requires
        bases.len() == names.len(),
    ensures
        fields.len() == names.len(),
        names_view(names@).no_duplicates() ==> fields_named_once(
            fields@.map_values(|p: (String, FieldOp)| (p.0@, p.1@)),
        ),
        forall|k: int| 0 <= k < fields.len() ==> {
            &&& #[trigger] fields@[k].0@ == names@[k]@
            &&& fields@[k].1@ == FieldOpView {
                v: match value_named(values_view(current@), names@[k]@) {
                    Some(x) => x,
                    None => ValView::Null,
                },
                base: opt_rev_view(bases@[k]),
            }
        },
{
    let ghost bs = bases@;
    let mut fields: Vec<(String, FieldOp)> = Vec::new();
    let mut k: usize = 0;
    for base in it: bases
        invariant
            it.seq() == bs,
            bs.len() == names.len(),
            k == it.index(),
            fields.len() == k,
            forall|q: int| 0 <= q < k ==> {
                &&& #[trigger] fields@[q].0@ == names@[q]@
                &&& fields@[q].1@ == FieldOpView {
                    v: match value_named(values_view(current@), names@[q]@) {
                        Some(x) => x,
                        None => ValView::Null,
                    },
                    base: opt_rev_view(bs[q]),
                }
            },
    {
        let name = names[k];
        let v = carried_value(current, name);
        let ghost before = fields@;
        let entry = (crate::text::owned(name), FieldOp { v, base });
        assert(entry.1@ == FieldOpView {
            v: match value_named(values_view(current@), names@[k as int]@) {
                Some(x) => x,
                None => ValView::Null,
            },
            base: opt_rev_view(bs[k as int]),
        });
        fields.push(entry);
        assert(fields@ == before.push(entry));
        assert forall|q: int| 0 <= q < k + 1 implies {
            &&& #[trigger] fields@[q].0@ == names@[q]@
            &&& fields@[q].1@ == FieldOpView {
                v: match value_named(values_view(current@), names@[q]@) {
                    Some(x) => x,
                    None => ValView::Null,
                },
                base: opt_rev_view(bs[q]),
            }
        } by {
            if q < k {
                assert(fields@[q] == before[q]);
            }
        }
        k = k + 1;
    }
    proof {
        let fv = fields@.map_values(|p: (String, FieldOp)| (p.0@, p.1@));
        if names_view(names@).no_duplicates() {
            assert forall|a: int, b: int| 0 <= a < fv.len() && 0 <= b < fv.len() && a != b implies fv[a].0 != fv[b].0 by {
                assert(fv[a].0 == names_view(names@)[a]);
                assert(fv[b].0 == names_view(names@)[b]);
            }
        }
    }
    fields
}

/// What capturing one queued row publishes.
pub enum CaptureStep {
    /// The row was deleted: publish the deletion.
    Delete,
    /// Nothing new to publish: the row is gone since, a join row already
    /// published, or no field moved.
    Skip,
    /// A join row not yet published: publish that it exists.
    Link,
    /// Publish these fields, whose values moved.
    Upsert(Vec<&'static str>),
}

/// The step for one queued row: `deleted` is whether its last queued change
/// was a deletion, `current` its values now (`None` when it is gone), and
/// `previous` its shadow copy, the last values published.
pub open spec fn capture_rule(
    spec: EntitySpecView,
    deleted: bool,
    current: Option<Seq<(Seq<char>, ValView)>>,
    previous: Option<Seq<(Seq<char>, ValView)>>,
) -> Option<Seq<Seq<char>>> {
    // `Some(names)`: an upsert of `names`; `None`: anything else.
    if deleted || current is None {
        None
    } else if spec.identity == Identity::Composite {
        None
    } else if changed_names(spec.fields, previous, current->Some_0).len() == 0 {
        None
    } else {
        Some(changed_names(spec.fields, previous, current->Some_0))
    }
}

/// Decides what capturing one queued row publishes.
pub fn capture_step(
    spec: &EntitySpec,
    deleted: bool,
    current: &Option<Vec<(String, Val)>>,
    previous: &Option<Vec<(String, Val)>>,
) -> (step: CaptureStep)
    ensures
        deleted ==> step is Delete,
        !deleted && current is None ==> step is Skip,
        !deleted && current is Some && spec@.identity == Identity::Composite ==> (if previous is Some {
            step is Skip
        } else {
            step is Link
        }),
        !deleted && current is Some && spec@.identity == Identity::Uuid ==> match capture_rule(
            spec@,
            deleted,
            opt_values_view(*current),
            opt_values_view(*previous),
        ) {
            Some(names) => step matches CaptureStep::Upsert(n) && names_view(n@) == names,
            None => step is Skip,
        },
{
    if deleted {
        return CaptureStep::Delete;
    }
    match current {
        None => CaptureStep::Skip,
        Some(row) => {
            if spec.identity == Identity::Composite {
                if previous.is_some() {
                    CaptureStep::Skip
                } else {
                    CaptureStep::Link
                }
            } else {
                let names = changed_fields(spec, previous, row);
                if names.len() == 0 {
                    CaptureStep::Skip
                } else {
                    CaptureStep::Upsert(names)
                }
            }
        },
    }
}

/// Once a row has been published its shadow copy is its current value, so
/// capturing it again, with nothing changed, publishes nothing: a second
/// drain right after the first sends no op.
pub proof fn a_published_row_is_not_sent_again(spec: EntitySpecView, row: Seq<(Seq<char>, ValView)>)
    ensures
        capture_rule(spec, false, Some(row), Some(row)) is None,
{
    unchanged_rows_send_nothing(spec.fields, row);
}

} // verus!
