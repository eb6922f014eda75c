//! Reading and writing a synced row as a field map.
//!
//! Ops speak in uuids, the database speaks in row ids. What maps
//! between the two lives here so the merge logic never has to think about
//! local ids.
use vstd::prelude::*;
use crate::sync::model::{entity, spec_entity, EntitySpec, EntitySpecView, FieldKind, FieldKindView, FieldSpecView};
use crate::sync::op::Val;
use crate::text::{chars_of, find_char, first_index_of, owned};

verus! {

broadcast use vstd::string::group_string_axioms;

/// A row's current values, keyed by op field name, each name once.
pub type Fields = Vec<(String, Val)>;

/// The two uuids a composite uuid `<a>:<b>` links: everything before the
/// first `:`, and everything after it.
pub open spec fn spec_split_composite(uuid: Seq<char>) -> Option<(Seq<char>, Seq<char>)> {
    match first_index_of(uuid, ':') {
        Some(k) => Some((uuid.take(k), uuid.skip(k + 1))),
        None => None,
    }
}

/// The two uuids a composite row links.
pub fn split_composite(uuid: &str) -> (r: Option<(&str, &str)>)
    ensures
        match r {
            Some((a, b)) => spec_split_composite(uuid@) == Some((a@, b@)),
            None => spec_split_composite(uuid@) is None,
        },
{
    let cs = chars_of(uuid);
    match find_char(cs.as_slice(), ':') {
        None => None,
        Some(k) => {
            let n = uuid.unicode_len();
            let a = uuid.substring_char(0, k);
            let b = uuid.substring_char(k + 1, n);
            assert(a@ =~= uuid@.take(k as int));
            assert(b@ =~= uuid@.skip(k + 1));
            Some((a, b))
        },
    }
}

/// Whether a field kind points at an entity that syncs.
pub open spec fn known_ref(kind: FieldKindView) -> bool {
    match kind {
        FieldKindView::Ref(t) => spec_entity(t) is Some,
        FieldKindView::Scalar => false,
    }
}

/// The table a reference field's target lives in.
pub open spec fn spec_ref_table(kind: FieldKindView) -> Seq<char> {
    match kind {
        FieldKindView::Ref(t) => match spec_entity(t) {
            Some(e) => e.table,
            None => Seq::empty(),
        },
        FieldKindView::Scalar => Seq::empty(),
    }
}

/// The table a reference field points into.
pub fn ref_table(kind: &FieldKind) -> (t: &'static str)
    requires
        known_ref(kind@),
    ensures
        t@ == spec_ref_table(kind@),
{
    match kind {
        FieldKind::Ref(target) => {
            match entity(target) {
                Some(e) => e.table,
                None => "",
            }
        },
        FieldKind::Scalar => "",
    }
}

/// Whether every reference field of an entity points at an entity that
/// syncs.
pub open spec fn refs_known(spec: EntitySpecView) -> bool {
    forall|i: int| 0 <= i < spec.fields.len() && (#[trigger] spec.fields[i]).kind is Ref ==> known_ref(
        spec.fields[i].kind,
    )
}

/// How one column appears in the row query: scalars as they are, references
/// as the uuid of the row they point at.
pub open spec fn select_item(f: FieldSpecView) -> Seq<char> {
    match f.kind {
        FieldKindView::Scalar => "t."@ + f.column,
        FieldKindView::Ref(_) => "(SELECT uuid FROM "@ + spec_ref_table(f.kind) + " WHERE id = t."@ + f.column
            + ")"@,
    }
}

/// The query's column list: each field's item, separated by `, `.
pub open spec fn select_items(fields: Seq<FieldSpecView>) -> Seq<char>
    decreases fields.len(),
{
    if fields.len() == 0 {
        Seq::empty()
    } else if fields.len() == 1 {
        select_item(fields[0])
    } else {
        select_items(fields.drop_last()) + ", "@ + select_item(fields.last())
    }
}

fn select_item_text(f: &crate::sync::model::FieldSpec) -> (s: String)
    requires
        f@.kind is Ref ==> known_ref(f@.kind),
    ensures
        s@ == select_item(f@),
{
    let mut s = String::new();
    match f.kind {
        FieldKind::Scalar => {
            s.append("t.");
            s.append(f.column);
        },
        FieldKind::Ref(_) => {
            let table = ref_table(&f.kind);
            s.append("(SELECT uuid FROM ");
            s.append(table);
            s.append(" WHERE id = t.");
            s.append(f.column);
            s.append(")");
        },
    }
    s
}

/// SELECT list that yields uuids in place of row ids for reference columns.
pub fn select_list(spec: &EntitySpec) -> (s: String)
    requires
        refs_known(spec@),
    ensures
        s@ == select_items(spec@.fields),
{
    let mut s = String::new();
    let mut i: usize = 0;
    while i < spec.fields.len()
        invariant
            i <= spec.fields.len(),
            refs_known(spec@),
            s@ == select_items(spec@.fields.take(i as int)),
        decreases spec.fields.len() - i,
    {
        let f = &spec.fields[i];
        proof {
            assert(spec@.fields.take(i + 1).drop_last() =~= spec@.fields.take(i as int));
            assert(spec@.fields.take(i + 1).last() == f@);
            assert(spec@.fields[i as int] == f@);
            assert(spec@.fields.take(i + 1).len() == i + 1);
            if i == 0 {
                assert(spec@.fields.take(1)[0] == f@);
            }
        }
        let item = select_item_text(f);
        if i > 0 {
            s.append(", ");
        }
        s.append(item.as_str());
        i = i + 1;
    }
    assert(spec@.fields.take(spec.fields.len() as int) =~= spec@.fields);
    s
}

/// Every reference field of every synced entity points at an entity that
/// syncs, so looking up a referenced table never fails.
pub proof fn references_resolve()
    ensures
        forall|i: int| 0 <= i < crate::sync::model::spec_entities().len() ==> #[trigger] refs_known(
            crate::sync::model::spec_entities()[i],
        ),
{
    let es = crate::sync::model::spec_entities();
    crate::sync::model::referents_are_declared_before_their_referrers();
    assert forall|i: int| 0 <= i < es.len() implies #[trigger] refs_known(es[i]) by {
        assert forall|k: int| 0 <= k < es[i].fields.len() && (#[trigger] es[i].fields[k]).kind is Ref implies known_ref(
            es[i].fields[k].kind,
        ) by {
            let t = es[i].fields[k].kind->Ref_0;
            assert(exists|j: int| 0 <= j <= i && es[j].name == t);
            let j = choose|j: int| 0 <= j <= i && es[j].name == t;
            assert(0 <= j < es.len() && es[j].name == t);
        }
    }
}

/// A composite uuid built from two uuids splits back into them, provided
/// the first holds no `:` (uuids are hex, so they never do).
pub proof fn composite_uuids_split_back(a: Seq<char>, b: Seq<char>)
    requires
        !a.contains(':'),
    ensures
        spec_split_composite(a + seq![':'] + b) == Some((a, b)),
{
    let u = a + seq![':'] + b;
    assert(u[a.len() as int] == ':');
    assert forall|j: int| 0 <= j < a.len() implies u[j] != ':' by {
        assert(u[j] == a[j]);
        if a[j] == ':' {
            assert(a.contains(a[j]));
        }
    }
    let w = choose|i: int| 0 <= i < u.len() && u[i] == ':' && forall|j: int| 0 <= j < i ==> u[j] != ':';
    assert(0 <= a.len() < u.len() && u[a.len() as int] == ':' && forall|j: int| 0 <= j < a.len() ==> u[j] != ':');
    if w < a.len() {
        assert(u[w] != ':');
    } else if w > a.len() {
        assert(u[a.len() as int] != ':');
    }
    assert(first_index_of(u, ':') == Some(a.len() as int));
    assert(u.take(a.len() as int) =~= a);
    assert(u.skip(a.len() as int + 1) =~= b);
}

} // verus!
