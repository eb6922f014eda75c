//! The unit of replication: one change to one row, as written to a device's log.
use vstd::prelude::*;
use crate::text::{
    chars_of, concat2, decimal, find_char, first_index_of, lemma_decimal, lemma_decimal_no_char,
    lemma_seq_lt_asymmetric, lemma_seq_lt_irreflexive, lemma_seq_lt_total,
    lemma_seq_lt_transitive, owned, parse_u64, seq_lt, spec_parse_u64, str_lt, string_of_range,
    u64_text, is_digit, unsigned_body, all_digits, digits_value,
};

verus! {

/// A revision stamp: a Lamport counter plus the device that produced it.
///
/// Revisions are ordered by counter, then by device id, so two devices
/// comparing the same pair of revisions always pick the same winner and
/// therefore converge on the same row. The derived `Ord` compares the same
/// way (`String` orders by code point).
#[derive(Debug, Clone, PartialEq, Eq, PartialOrd, Ord)]
pub struct Rev {
    pub lamport: u64,
    pub device: String,
}

pub struct RevView {
    pub lamport: u64,
    pub device: Seq<char>,
}

impl View for Rev {
    type V = RevView;

    open spec fn view(&self) -> RevView {
        RevView { lamport: self.lamport, device: self.device@ }
    }
}

/// The order revisions are merged by.
pub open spec fn rev_lt(a: RevView, b: RevView) -> bool {
    a.lamport < b.lamport || (a.lamport == b.lamport && seq_lt(a.device, b.device))
}

/// A revision's text form, `<lamport>@<device>`.
pub open spec fn rev_text(r: RevView) -> Seq<char> {
    decimal(r.lamport as nat) + seq!['@'] + r.device
}

/// What parsing `<lamport>@<device>` yields: the counter is everything
/// before the first `@` and must parse as a `u64`; the device is the rest.
pub open spec fn spec_parse_rev(s: Seq<char>) -> Option<RevView> {
    match first_index_of(s, '@') {
        None => None,
        Some(k) => match spec_parse_u64(s.take(k)) {
            None => None,
            Some(l) => Some(RevView { lamport: l, device: s.skip(k + 1) }),
        },
    }
}

impl Rev {
    pub fn new(lamport: u64, device: &str) -> (r: Rev)
        ensures
            r@ == (RevView { lamport, device: device@ }),
    {
        Rev { lamport, device: owned(device) }
    }

    /// A copy of this revision.
    pub fn duplicate(&self) -> (r: Rev)
        ensures
            r@ == self@,
    {
        Rev { lamport: self.lamport, device: self.device.clone() }
    }

    /// Whether both stamps name the same revision.
    pub fn same(&self, other: &Rev) -> (r: bool)
        ensures
            r == (self@ == other@),
    {
        self.lamport == other.lamport && self.device == other.device
    }

    /// Whether `self` sorts strictly before `other`.
    pub fn precedes(&self, other: &Rev) -> (r: bool)
        ensures
            r == rev_lt(self@, other@),
    {
        if self.lamport != other.lamport {
            self.lamport < other.lamport
        } else {
            str_lt(self.device.as_str(), other.device.as_str())
        }
    }

    /// `<lamport>@<device>`, the form a revision is stored and sent in.
    pub fn to_text(&self) -> (s: String)
        ensures
            s@ == rev_text(self@),
    {
        let mut s = u64_text(self.lamport);
        s.push('@');
        s.append(self.device.as_str());
        s
    }

    /// Reads the `<lamport>@<device>` form back.
    pub fn parse(s: &str) -> (r: Result<Rev, String>)
        ensures
            match r {
                Ok(rev) => spec_parse_rev(s@) == Some(rev@),
                Err(msg) => spec_parse_rev(s@) is None && msg@ == "bad rev: "@ + s@,
            },
    {
        let cs = chars_of(s);
        match find_char(cs.as_slice(), '@') {
            None => Err(concat2("bad rev: ", s)),
            Some(k) => {
                let head = string_of_range(cs.as_slice(), 0, k);
                assert(head@ =~= s@.take(k as int));
                match parse_u64(head.as_str()) {
                    None => Err(concat2("bad rev: ", s)),
                    Some(l) => {
                        let device = string_of_range(cs.as_slice(), k + 1, cs.len());
                        assert(device@ =~= s@.skip(k + 1));
                        Ok(Rev { lamport: l, device })
                    },
                }
            },
        }
    }
}

impl std::str::FromStr for Rev {
    type Err = String;

    fn from_str(s: &str) -> (r: Result<Rev, String>)
        ensures
            match r {
                Ok(rev) => spec_parse_rev(s@) == Some(rev@),
                Err(msg) => spec_parse_rev(s@) is None && msg@ == "bad rev: "@ + s@,
            },
    {
        Rev::parse(s)
    }
}

/// Revisions are strictly and totally ordered: no revision precedes itself,
/// of two distinct revisions exactly one precedes the other, and the order
/// is transitive. This is what lets every device pick the same winner.
pub proof fn rev_order_is_strict_and_total(a: RevView, b: RevView, c: RevView)
    ensures
        !rev_lt(a, a),
        !(rev_lt(a, b) && rev_lt(b, a)),
        a != b ==> rev_lt(a, b) || rev_lt(b, a),
        rev_lt(a, b) && rev_lt(b, c) ==> rev_lt(a, c),
{
    lemma_seq_lt_irreflexive(a.device);
    lemma_seq_lt_asymmetric(a.device, b.device);
    if a != b && a.lamport == b.lamport {
        lemma_seq_lt_total(a.device, b.device);
    }
    if rev_lt(a, b) && rev_lt(b, c) && a.lamport == b.lamport && b.lamport == c.lamport {
        lemma_seq_lt_transitive(a.device, b.device, c.device);
    }
}

/// A revision read back from its text form is the revision written.
pub proof fn rev_text_round_trips(r: RevView)
    ensures
        spec_parse_rev(rev_text(r)) == Some(r),
{
    let d = decimal(r.lamport as nat);
    let s = rev_text(r);
    lemma_decimal(r.lamport as nat);
    lemma_decimal_no_char(r.lamport as nat, '@');
    assert(s[d.len() as int] == '@');
    assert forall|j: int| 0 <= j < d.len() implies s[j] != '@' by {
        assert(s[j] == d[j]);
        assert(d.contains(d[j]));
    }
    let w = choose|i: int| 0 <= i < s.len() && s[i] == '@' && forall|j: int| 0 <= j < i ==> s[j] != '@';
    assert(0 <= d.len() < s.len() && s[d.len() as int] == '@' && forall|j: int| 0 <= j < d.len() ==> s[j] != '@');
    if w < d.len() {
        assert(s[w] != '@');
    } else if w > d.len() {
        assert(s[d.len() as int] != '@');
    }
    assert(first_index_of(s, '@') == Some(d.len() as int));
    assert(s.take(d.len() as int) =~= d);
    assert(is_digit(d[0]));
    assert(unsigned_body(d) == d);
    assert(s.skip(d.len() as int + 1) =~= r.device);
}

/// Whether an op creates or updates a row, or deletes it.
#[derive(Debug, Clone, Copy, PartialEq, Eq, Structural)]
pub enum OpKind {
    Upsert,
    Delete,
}

/// A field value as ops carry it. Numbers that are not 64-bit integers, and
/// arrays or objects, are held as their JSON text in `Other`.
#[derive(Debug, Clone, PartialEq)]
pub enum Val {
    Null,
    Bool(bool),
    Int(i64),
    Text(String),
    Other(String),
}

pub enum ValView {
    Null,
    Bool(bool),
    Int(i64),
    Text(Seq<char>),
    Other(Seq<char>),
}

impl View for Val {
    type V = ValView;

    open spec fn view(&self) -> ValView {
        match self {
            Val::Null => ValView::Null,
            Val::Bool(b) => ValView::Bool(*b),
            Val::Int(i) => ValView::Int(*i),
            Val::Text(s) => ValView::Text(s@),
            Val::Other(s) => ValView::Other(s@),
        }
    }
}

impl Val {
    /// A copy of this value.
    pub fn duplicate(&self) -> (r: Val)
        ensures
            r@ == self@,
    {
        match self {
            Val::Null => Val::Null,
            Val::Bool(b) => Val::Bool(*b),
            Val::Int(i) => Val::Int(*i),
            Val::Text(s) => Val::Text(s.clone()),
            Val::Other(s) => Val::Other(s.clone()),
        }
    }

    /// Whether both values are the same.
    pub fn same(&self, other: &Val) -> (r: bool)
        ensures
            r == (self@ == other@),
    {
        match (self, other) {
            (Val::Null, Val::Null) => true,
            (Val::Bool(a), Val::Bool(b)) => *a == *b,
            (Val::Int(a), Val::Int(b)) => *a == *b,
            (Val::Text(a), Val::Text(b)) => *a == *b,
            (Val::Other(a), Val::Other(b)) => *a == *b,
            _ => false,
        }
    }
}

/// One field's new value, plus the revision it was written on top of.
///
/// `base` is what makes conflict detection possible: if it matches the
/// revision we already hold for that field, the writer had seen our value and
/// the change is a clean successor. If it does not, the two edits were made
/// independently and the user needs to know.
#[derive(Debug, Clone)]
pub struct FieldOp {
    pub v: Val,
    pub base: Option<Rev>,
}

pub struct FieldOpView {
    pub v: ValView,
    pub base: Option<RevView>,
}

impl View for FieldOp {
    type V = FieldOpView;

    open spec fn view(&self) -> FieldOpView {
        FieldOpView {
            v: self.v@,
            base: match self.base {
                Some(r) => Some(r@),
                None => None,
            },
        }
    }
}

#[derive(Debug, Clone)]
pub struct Op {
    /// Monotonic within the writing device's log; readers track it as a cursor.
    pub seq: u64,
    pub device: String,
    pub lamport: u64,
    pub ts: String,
    pub entity: String,
    pub uuid: String,
    pub kind: OpKind,
    /// Changed fields by name, each name at most once (`fields_named_once`).
    pub fields: Vec<(String, FieldOp)>,
}

pub struct OpView {
    pub seq: u64,
    pub device: Seq<char>,
    pub lamport: u64,
    pub ts: Seq<char>,
    pub entity: Seq<char>,
    pub uuid: Seq<char>,
    pub kind: OpKind,
    pub fields: Seq<(Seq<char>, FieldOpView)>,
}

impl View for Op {
    type V = OpView;

    open spec fn view(&self) -> OpView {
        OpView {
            seq: self.seq,
            device: self.device@,
            lamport: self.lamport,
            ts: self.ts@,
            entity: self.entity@,
            uuid: self.uuid@,
            kind: self.kind,
            fields: self.fields@.map_values(|p: (String, FieldOp)| (p.0@, p.1@)),
        }
    }
}

/// An op carries each field under a name of its own: no two of its fields
/// share a name.
pub open spec fn fields_named_once(fields: Seq<(Seq<char>, FieldOpView)>) -> bool {
    forall|a: int, b: int| 0 <= a < fields.len() && 0 <= b < fields.len() && a != b ==> fields[a].0 != fields[b].0
}

impl Op {
    /// The revision this op writes.
    pub fn rev(&self) -> (r: Rev)
        ensures
            r@ == (RevView { lamport: self.lamport, device: self.device@ }),
    {
        Rev::new(self.lamport, self.device.as_str())
    }
}

} // verus!
