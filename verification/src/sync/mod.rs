//! File-based sync between devices over a shared cloud folder.
//!
//! The database itself stays local on every machine. What travels through the
//! cloud folder is an append-only log of changes, split so that each device
//! only ever writes its own files. Nothing has two writers, so the cloud
//! provider has nothing to conflict over and no database file is ever open
//! across machines.

pub mod apply;
pub mod capture;
pub mod meta;
pub mod model;
pub mod op;
pub mod row;
pub mod schema;
pub mod store;

use vstd::prelude::*;
use crate::sync::apply::Applied;
use crate::sync::op::{Op, OpKind, OpView};
use crate::text::{chars_of, join_path, joined, str_eq, trim, trim_bounds, string_of_range};

verus! {

pub open spec fn ops_view(s: Seq<Op>) -> Seq<OpView> {
    s.map_values(|o: Op| o@)
}

/// Whether two ops are about the same row.
pub open spec fn same_row(a: OpView, b: OpView) -> bool {
    a.entity == b.entity && a.uuid == b.uuid
}

/// Whether an upsert sets the field `m`. An op that sets no fields (a join
/// row's upsert) counts as setting the field with the empty name.
pub open spec fn sets(op: OpView, m: Seq<char>) -> bool {
    (op.fields.len() == 0 && m.len() == 0) || exists|k: int|
        0 <= k < op.fields.len() && op.fields[k].0 == m
}

/// Whether a later op deletes the row op `i` is about.
pub open spec fn deleted_later(s: Seq<OpView>, i: int) -> bool {
    exists|j: int| i < j < s.len() && s[j].kind == OpKind::Delete && same_row(s[j], s[i])
}

/// Whether a later upsert of the same row sets field `m` again.
pub open spec fn set_later(s: Seq<OpView>, i: int, m: Seq<char>) -> bool {
    exists|j: int| i < j < s.len() && s[j].kind == OpKind::Upsert && same_row(s[j], s[i]) && sets(s[j], m)
}

/// Whether op `i` still tells a reader something: it is not followed by a
/// delete of its row, and it is a delete or sets some field that no later op
/// sets again.
pub open spec fn survives(s: Seq<OpView>, i: int) -> bool {
    !deleted_later(s, i) && (s[i].kind == OpKind::Delete || exists|m: Seq<char>|
        sets(s[i], m) && !set_later(s, i, m))
}

/// The ops among the first `n` that survive, in log order.
pub open spec fn survivors_upto(s: Seq<OpView>, n: int) -> Seq<OpView>
    decreases n,
{
    if n <= 0 {
        Seq::empty()
    } else if survives(s, n - 1) {
        survivors_upto(s, n - 1).push(s[n - 1])
    } else {
        survivors_upto(s, n - 1)
    }
}

pub open spec fn pruned(s: Seq<OpView>) -> Seq<OpView> {
    survivors_upto(s, s.len() as int)
}

fn same_row_ops(a: &Op, b: &Op) -> (r: bool)
    ensures
        r == same_row(a@, b@),
{
    a.entity == b.entity && a.uuid == b.uuid
}

fn sets_field(op: &Op, m: &str) -> (r: bool)
    ensures
        r == sets(op@, m@),
{
    if op.fields.len() == 0 {
        return m.is_empty();
    }
    let mut k: usize = 0;
    while k < op.fields.len()
        invariant
            k <= op.fields.len(),
            op.fields.len() > 0,
            forall|q: int| 0 <= q < k ==> op@.fields[q].0 != m@,
        decreases op.fields.len() - k,
    {
        if str_eq(op.fields[k].0.as_str(), m) {
            assert(op@.fields[k as int].0 == m@);
            return true;
        }
        k = k + 1;
    }
    false
}

fn set_again_later(ops: &Vec<Op>, i: usize, m: &str) -> (r: bool)
    requires
        i < ops.len(),
    ensures
        r == set_later(ops_view(ops@), i as int, m@),
{
    let ghost s = ops_view(ops@);
    let mut j: usize = i + 1;
    while j < ops.len()
        invariant
            i < j <= ops.len(),
            s == ops_view(ops@),
            forall|q: int| i < q < j ==> !(s[q].kind == OpKind::Upsert && same_row(s[q], s[i as int]) && sets(s[q], m@)),
        decreases ops.len() - j,
    {
        if ops[j].kind == OpKind::Upsert && same_row_ops(&ops[j], &ops[i]) && sets_field(&ops[j], m) {
            assert(s[j as int] == ops@[j as int]@);
            assert(s[i as int] == ops@[i as int]@);
            return true;
        }
        j = j + 1;
    }
    false
}

fn survives_at(ops: &Vec<Op>, i: usize) -> (r: bool)
    requires
        i < ops.len(),
    ensures
        r == survives(ops_view(ops@), i as int),
{
    let ghost s = ops_view(ops@);
    let mut j: usize = i + 1;
    while j < ops.len()
        invariant
            i < j <= ops.len(),
            s == ops_view(ops@),
            forall|q: int| i < q < j ==> !(s[q].kind == OpKind::Delete && same_row(s[q], s[i as int])),
        decreases ops.len() - j,
    {
        if ops[j].kind == OpKind::Delete && same_row_ops(&ops[j], &ops[i]) {
            assert(s[j as int] == ops@[j as int]@);
            assert(s[i as int] == ops@[i as int]@);
            return false;
        }
        j = j + 1;
    }
    assert(!deleted_later(s, i as int));
    let op = &ops[i];
    if op.kind == OpKind::Delete {
        return true;
    }
    if op.fields.len() == 0 {
        let fresh = !set_again_later(ops, i, "");
        proof {
            reveal_strlit("");
            if fresh {
                assert(sets(s[i as int], ""@));
            } else {
                assert forall|m: Seq<char>| sets(s[i as int], m) implies set_later(s, i as int, m) by {
                    assert(m =~= ""@);
                }
            }
        }
        return fresh;
    }
    let mut k: usize = 0;
    while k < op.fields.len()
        invariant
            k <= op.fields.len(),
            i < ops.len(),
            op == &ops[i as int],
            s == ops_view(ops@),
            op.fields.len() > 0,
            !deleted_later(s, i as int),
            s[i as int].kind != OpKind::Delete,
            forall|q: int| 0 <= q < k ==> set_later(s, i as int, #[trigger] s[i as int].fields[q].0),
        decreases op.fields.len() - k,
    {
        if !set_again_later(ops, i, op.fields[k].0.as_str()) {
            assert(sets(s[i as int], s[i as int].fields[k as int].0) && !set_later(s, i as int, s[i as int].fields[k as int].0));
            return true;
        }
        k = k + 1;
    }
    proof {
        assert forall|m: Seq<char>| sets(s[i as int], m) implies set_later(s, i as int, m) by {
            let q = choose|q: int| 0 <= q < s[i as int].fields.len() && s[i as int].fields[q].0 == m;
            assert(set_later(s, i as int, s[i as int].fields[q].0));
        }
    }
    false
}

/// Drops ops from our own log that nothing can learn from any more.
///
/// An op survives only if it still sets at least one field that no later op
/// overwrites; a delete makes everything before it for that row redundant.
pub fn prune(ops: Vec<Op>) -> (kept: Vec<Op>)
    ensures
        ops_view(kept@) == pruned(ops_view(ops@)),
{
    let ghost s = ops_view(ops@);
    let mut flags: Vec<bool> = Vec::new();
    let mut i: usize = 0;
    while i < ops.len()
        invariant
            i <= ops.len(),
            s == ops_view(ops@),
            flags.len() == i,
            forall|q: int| 0 <= q < i ==> flags@[q] == survives(s, q),
        decreases ops.len() - i,
    {
        flags.push(survives_at(&ops, i));
        i = i + 1;
    }
    let mut kept: Vec<Op> = Vec::new();
    let n = ops.len();
    let mut idx: usize = 0;
    for op in it: ops
        invariant
            n == s.len(),
            idx == it.index(),
            flags.len() == n,
            it.seq() == ops@,
            s == ops_view(it.seq()),
            forall|q: int| 0 <= q < n ==> flags@[q] == survives(s, q),
            ops_view(kept@) == survivors_upto(s, it.index() as int),
    {
        assert(op == it.seq()[idx as int]);
        if flags[idx] {
            kept.push(op);
        }
        assert(ops_view(kept@) =~= survivors_upto(s, idx + 1));
        idx = idx + 1;
    }
    kept
}

/// Whether ops are in ascending `seq` order.
pub open spec fn sorted_by_seq(s: Seq<OpView>) -> bool {
    forall|i: int, j: int| 0 <= i < j < s.len() ==> s[i].seq <= s[j].seq
}

/// The ops carrying sequence number `k`, in order.
pub open spec fn with_seq(s: Seq<OpView>, k: u64) -> Seq<OpView> {
    s.filter(|o: OpView| o.seq == k)
}

proof fn lemma_with_seq_insert(a: Seq<OpView>, p: int, x: OpView, k: u64)
    requires
        0 <= p <= a.len(),
        forall|q: int| p <= q < a.len() ==> a[q].seq > x.seq,
    ensures
        with_seq(a.insert(p, x), k) == (if x.seq == k {
            with_seq(a, k).push(x)
        } else {
            with_seq(a, k)
        }),
{
    let pred = |o: OpView| o.seq == k;
    let front = a.take(p);
    let back = a.skip(p);
    assert(a =~= front + back);
    assert(a.insert(p, x) =~= front.push(x) + back);
    Seq::filter_distributes_over_add(front, back, pred);
    Seq::filter_distributes_over_add(front.push(x), back, pred);
    front.lemma_filter_push(x, pred);
    if x.seq == k {
        assert(back.all(|o: OpView| !pred(o)));
        back.lemma_all_neg_filter_empty(pred);
        assert(back.filter(pred) =~= Seq::<OpView>::empty());
        assert(front.filter(pred) + back.filter(pred) =~= front.filter(pred));
        assert(front.filter(pred).push(x) + back.filter(pred) =~= front.filter(pred).push(x));
    }
}

/// Orders ops by sequence number, keeping ops with equal numbers in the
/// order they came in (a stable sort).
pub fn sort_by_seq(ops: Vec<Op>) -> (out: Vec<Op>)
    ensures
        sorted_by_seq(ops_view(out@)),
        forall|k: u64| #[trigger] with_seq(ops_view(out@), k) == with_seq(ops_view(ops@), k),
        out.len() == ops.len(),
{
    let ghost s = ops_view(ops@);
    let mut out: Vec<Op> = Vec::new();
    let n = ops.len();
    for op in it: ops
        invariant
            n == s.len(),
            it.seq() == ops@,
            s == ops_view(it.seq()),
            out.len() == it.index(),
            sorted_by_seq(ops_view(out@)),
            forall|k: u64| #[trigger] with_seq(ops_view(out@), k) == with_seq(s.take(it.index() as int), k),
    {
        let ghost i = it.index();
        assert(op@ == s[i]);
        let mut p: usize = out.len();
        while p > 0 && out[p - 1].seq > op.seq
            invariant
                p <= out.len(),
                sorted_by_seq(ops_view(out@)),
                forall|q: int| p <= q < out.len() ==> out@[q].seq > op.seq,
            decreases p,
        {
            p = p - 1;
        }
        let ghost before = ops_view(out@);
        proof {
            assert forall|q: int| p <= q < before.len() implies before[q].seq > op@.seq by {
                assert(before[q] == out@[q]@);
            }
            assert forall|q: int| 0 <= q < p implies before[q].seq <= op@.seq by {
                if p > 0 {
                    assert(before[p - 1] == out@[p - 1]@);
                    assert(before[q].seq <= before[p - 1].seq);
                }
            }
        }
        out.insert(p, op);
        proof {
            let after = ops_view(out@);
            assert(after =~= before.insert(p as int, s[i]));
            assert(s.take(i + 1) =~= s.take(i).push(s[i]));
            assert forall|k: u64| #[trigger] with_seq(after, k) == with_seq(s.take(i + 1), k) by {
                lemma_with_seq_insert(before, p as int, s[i], k);
                s.take(i).lemma_filter_push(s[i], |o: OpView| o.seq == k);
            }
            assert forall|a: int, b: int| 0 <= a < b < after.len() implies after[a].seq <= after[b].seq by {
                if b < p {
                } else if b == p {
                } else if a < p {
                    assert(after[b] == before[b - 1]);
                } else if a == p {
                    assert(after[b] == before[b - 1]);
                } else {
                    assert(after[a] == before[a - 1]);
                    assert(after[b] == before[b - 1]);
                }
            }
        }
    }
    proof {
        assert(s.take(n as int) =~= s);
    }
    out
}

/// An op is dropped after this many failed passes. Reaching it means the row
/// it points at was never going to arrive (usually because the peer's log
/// was reset) and retrying forever would just grow the table.
pub const MAX_DEFER_ATTEMPTS: i64 = 50;

/// Rewrite our own log once it holds at least this many ops.
pub const COMPACT_THRESHOLD: usize = 2000;

/// Name of the file, next to the database, that records the sync folder.
pub const POINTER_FILE: &'static str = "sync-dir.txt";

/// What one sync pass did.
#[derive(Debug, Clone, Copy, PartialEq, Eq, Structural)]
pub struct SyncReport {
    pub pushed: usize,
    pub applied: usize,
    pub conflicts: usize,
    pub waiting: usize,
}

impl Default for SyncReport {
    fn default() -> (r: SyncReport)
        ensures
            r == (SyncReport { pushed: 0, applied: 0, conflicts: 0, waiting: 0 }),
    {
        SyncReport { pushed: 0, applied: 0, conflicts: 0, waiting: 0 }
    }
}

/// Whether counting `outcome` into `report` stays within `usize`.
pub open spec fn can_count(report: SyncReport, outcome: Applied) -> bool {
    match outcome {
        Applied::Landed { conflicts } => report.applied < usize::MAX && report.conflicts + conflicts
            <= usize::MAX,
        _ => true,
    }
}

/// `report` with `outcome` counted in: a landed op adds one applied op and
/// the conflicts it filed; an op that waits or is ignored adds nothing.
pub open spec fn counted(report: SyncReport, outcome: Applied) -> SyncReport {
    match outcome {
        Applied::Landed { conflicts } => SyncReport {
            applied: (report.applied + 1) as usize,
            conflicts: (report.conflicts + conflicts) as usize,
            ..report
        },
        _ => report,
    }
}

impl SyncReport {
    /// Counts one applied op's outcome into the report.
    pub fn count(&mut self, outcome: &Applied)
        requires
            can_count(*old(self), *outcome),
        ensures
            *final(self) == counted(*old(self), *outcome),
    {
        match outcome {
            Applied::Landed { conflicts } => {
                self.applied = self.applied + 1;
                self.conflicts = self.conflicts + *conflicts;
            },
            _ => {},
        }
    }
}

/// What becomes of a deferred op after another attempt.
#[derive(Debug, Clone, Copy, PartialEq, Eq, Structural)]
pub enum RetryStep {
    /// Still waiting on its row: keep it, one attempt more.
    KeepWaiting,
    /// Landed, ignored, or out of attempts: remove it.
    Finish,
}

/// An op that is still deferred stays queued until it has used up its
/// attempts; anything else leaves the queue.
pub fn retry_step(outcome: &Applied, attempts: i64) -> (r: RetryStep)
    ensures
        r == (if outcome is Deferred && attempts < MAX_DEFER_ATTEMPTS {
            RetryStep::KeepWaiting
        } else {
            RetryStep::Finish
        }),
{
    match outcome {
        Applied::Deferred(_) => {
            if attempts < MAX_DEFER_ATTEMPTS {
                RetryStep::KeepWaiting
            } else {
                RetryStep::Finish
            }
        },
        _ => RetryStep::Finish,
    }
}

/// A segment is read again only when its size or timestamp has changed
/// since the last read (both as stored, in signed 64-bit form).
pub fn segment_unchanged(cached: Option<(i64, i64)>, size: u64, mtime: i64) -> (r: bool)
    ensures
        r == (cached == Some((size as i64, mtime))),
{
    match cached {
        Some((c_size, c_mtime)) => c_size == size as i64 && c_mtime == mtime,
        None => false,
    }
}

/// The highest sequence number among `ops`, or 0 when there are none.
pub open spec fn spec_max_seq(s: Seq<OpView>) -> u64
    decreases s.len(),
{
    if s.len() == 0 {
        0
    } else {
        let rest = spec_max_seq(s.drop_last());
        if s.last().seq > rest {
            s.last().seq
        } else {
            rest
        }
    }
}

pub fn max_seq(ops: &Vec<Op>) -> (m: u64)
    ensures
        m == spec_max_seq(ops_view(ops@)),
{
    let ghost s = ops_view(ops@);
    let mut m: u64 = 0;
    let mut i: usize = 0;
    while i < ops.len()
        invariant
            i <= ops.len(),
            s == ops_view(ops@),
            m == spec_max_seq(s.take(i as int)),
        decreases ops.len() - i,
    {
        assert(s.take(i + 1).drop_last() =~= s.take(i as int));
        if ops[i].seq > m {
            m = ops[i].seq;
        }
        i = i + 1;
    }
    assert(s.take(ops.len() as int) =~= s);
    m
}

/// The log a compaction writes, or `None` when the log is still short
/// enough to be left alone: the ops in sequence order, pruned.
pub fn compaction_plan(ops: Vec<Op>) -> (r: Option<Vec<Op>>)
    ensures
        ops.len() < COMPACT_THRESHOLD ==> r is None,
        ops.len() >= COMPACT_THRESHOLD ==> (r matches Some(out) && exists|sorted: Seq<OpView>|
            sorted_by_seq(sorted) && sorted.len() == ops.len()
            && (forall|k: u64| #[trigger] with_seq(sorted, k) == with_seq(ops_view(ops@), k))
            && ops_view(out@) == pruned(sorted)),
{
    if ops.len() < COMPACT_THRESHOLD {
        return None;
    }
    let sorted = sort_by_seq(ops);
    let ghost sv = ops_view(sorted@);
    let out = prune(sorted);
    assert(sv.len() == ops.len());
    Some(out)
}

/// Where the pointer to the sync folder lives. Kept next to the database
/// rather than inside it, because it has to be readable before anything is
/// open.
pub fn pointer_path(config_dir: &str) -> (p: String)
    ensures
        p@ == joined(config_dir@, POINTER_FILE@),
{
    join_path(config_dir, POINTER_FILE)
}

/// The directory a pointer file names: its trimmed contents, unless empty.
pub fn parse_pointer(raw: &str) -> (r: Option<String>)
    ensures
        trim(raw@).len() == 0 ==> r is None,
        trim(raw@).len() > 0 ==> (r matches Some(d) && d@ == trim(raw@)),
{
    let cs = chars_of(raw);
    let (a, b) = trim_bounds(cs.as_slice());
    if a == b {
        None
    } else {
        Some(string_of_range(cs.as_slice(), a, b))
    }
}

/// Whether an op settles field `m` of row `row`: it deletes the row, or
/// writes that field of it.
pub open spec fn settles(x: OpView, row: (Seq<char>, Seq<char>), m: Seq<char>) -> bool {
    x.entity == row.0 && x.uuid == row.1 && (x.kind == OpKind::Delete || sets(x, m))
}

/// What a reader replaying `s` ends up with for field `m` of a row: the last
/// op that settles it (a delete, or the write whose value stands), or `None`
/// when no op does.
pub open spec fn settled_by(s: Seq<OpView>, row: (Seq<char>, Seq<char>), m: Seq<char>) -> Option<OpView>
    decreases s.len(),
{
    if s.len() == 0 {
        None
    } else if settles(s.last(), row, m) {
        Some(s.last())
    } else {
        settled_by(s.drop_last(), row, m)
    }
}

proof fn lemma_settled_by_concat(a: Seq<OpView>, b: Seq<OpView>, row: (Seq<char>, Seq<char>), m: Seq<char>)
    ensures
        settled_by(a + b, row, m) == (if settled_by(b, row, m) is Some {
            settled_by(b, row, m)
        } else {
            settled_by(a, row, m)
        }),
    decreases b.len(),
{
    if b.len() == 0 {
        assert(a + b =~= a);
    } else {
        assert((a + b).drop_last() =~= a + b.drop_last());
        assert((a + b).last() == b.last());
        lemma_settled_by_concat(a, b.drop_last(), row, m);
    }
}

proof fn lemma_settled_by_none(s: Seq<OpView>, row: (Seq<char>, Seq<char>), m: Seq<char>)
    ensures
        settled_by(s, row, m) is None <==> forall|j: int| 0 <= j < s.len() ==> !settles(#[trigger] s[j], row, m),
    decreases s.len(),
{
    if s.len() > 0 {
        lemma_settled_by_none(s.drop_last(), row, m);
        if settled_by(s, row, m) is None {
            assert forall|j: int| 0 <= j < s.len() implies !settles(#[trigger] s[j], row, m) by {
                if j < s.len() - 1 {
                    assert(s[j] == s.drop_last()[j]);
                }
            }
        } else {
            if !settles(s.last(), row, m) {
                let j = choose|j: int| 0 <= j < s.drop_last().len() && settles(#[trigger] s.drop_last()[j], row, m);
                assert(s[j] == s.drop_last()[j]);
            }
        }
    }
}

proof fn lemma_survives_shift(s: Seq<OpView>, i: int)
    requires
        s.len() > 0,
        0 <= i < s.len() - 1,
    ensures
        survives(s, i + 1) == survives(s.drop_first(), i),
{
    let t = s.drop_first();
    assert(t[i] == s[i + 1]);
    assert(deleted_later(s, i + 1) == deleted_later(t, i)) by {
        if deleted_later(s, i + 1) {
            let j = choose|j: int| i + 1 < j < s.len() && s[j].kind == OpKind::Delete && same_row(s[j], s[i + 1]);
            assert(t[j - 1] == s[j]);
        }
        if deleted_later(t, i) {
            let j = choose|j: int| i < j < t.len() && t[j].kind == OpKind::Delete && same_row(t[j], t[i]);
            assert(t[j] == s[j + 1]);
        }
    }
    assert forall|m: Seq<char>| set_later(s, i + 1, m) == set_later(t, i, m) by {
        if set_later(s, i + 1, m) {
            let j = choose|j: int|
                i + 1 < j < s.len() && s[j].kind == OpKind::Upsert && same_row(s[j], s[i + 1]) && sets(s[j], m);
            assert(t[j - 1] == s[j]);
        }
        if set_later(t, i, m) {
            let j = choose|j: int| i < j < t.len() && t[j].kind == OpKind::Upsert && same_row(t[j], t[i]) && sets(t[j], m);
            assert(t[j] == s[j + 1]);
        }
    }
    if s[i + 1].kind != OpKind::Delete {
        if exists|m: Seq<char>| #[trigger] sets(s[i + 1], m) && !set_later(s, i + 1, m) {
            let m = choose|m: Seq<char>| #[trigger] sets(s[i + 1], m) && !set_later(s, i + 1, m);
            assert(sets(t[i], m) && !set_later(t, i, m));
        }
        if exists|m: Seq<char>| #[trigger] sets(t[i], m) && !set_later(t, i, m) {
            let m = choose|m: Seq<char>| #[trigger] sets(t[i], m) && !set_later(t, i, m);
            assert(sets(s[i + 1], m) && !set_later(s, i + 1, m));
        }
    }
}

proof fn lemma_survivors_split(s: Seq<OpView>, n: int)
    requires
        s.len() > 0,
        1 <= n <= s.len(),
    ensures
        survivors_upto(s, n) == (if survives(s, 0) {
            seq![s[0]]
        } else {
            Seq::empty()
        }) + survivors_upto(s.drop_first(), n - 1),
    decreases n,
{
    let head = if survives(s, 0) {
        seq![s[0]]
    } else {
        Seq::<OpView>::empty()
    };
    if n == 1 {
        assert(survivors_upto(s, 0) =~= Seq::<OpView>::empty());
        assert(survivors_upto(s.drop_first(), 0) =~= Seq::<OpView>::empty());
        assert(head + Seq::<OpView>::empty() =~= head);
        if survives(s, 0) {
            assert(Seq::<OpView>::empty().push(s[0]) =~= head);
        }
    } else {
        lemma_survivors_split(s, n - 1);
        lemma_survives_shift(s, n - 2);
        assert(s.drop_first()[n - 2] == s[n - 1]);
        if survives(s, n - 1) {
            assert(head + survivors_upto(s.drop_first(), n - 2).push(s[n - 1]) =~= (head + survivors_upto(
                s.drop_first(),
                n - 2,
            )).push(s[n - 1]));
        }
    }
}

/// Pruning loses nothing a reader can learn: for every row and field, the
/// op that settles it (the last delete of the row, or the last write of the
/// field after it) is the same in the pruned log as in the full one. In
/// particular, everything before a row's deletion may go, and the newest
/// value of each field stays.
pub proof fn pruning_keeps_what_replay_sees(s: Seq<OpView>, row: (Seq<char>, Seq<char>), m: Seq<char>)
    ensures
        settled_by(pruned(s), row, m) == settled_by(s, row, m),
    decreases s.len(),
{
    if s.len() > 0 {
        let t = s.drop_first();
        let x = s[0];
        pruning_keeps_what_replay_sees(t, row, m);
        lemma_survivors_split(s, s.len() as int);
        let head = if survives(s, 0) {
            seq![x]
        } else {
            Seq::<OpView>::empty()
        };
        assert(pruned(s) == head + pruned(t));
        lemma_settled_by_concat(head, pruned(t), row, m);
        assert(s =~= seq![x] + t);
        lemma_settled_by_concat(seq![x], t, row, m);
        assert(seq![x].drop_last() =~= Seq::<OpView>::empty());
        if settled_by(t, row, m) is None && settles(x, row, m) {
            lemma_settled_by_none(t, row, m);
            assert(!deleted_later(s, 0)) by {
                if deleted_later(s, 0) {
                    let j = choose|j: int| 0 < j < s.len() && s[j].kind == OpKind::Delete && same_row(s[j], s[0]);
                    assert(t[j - 1] == s[j]);
                    assert(settles(t[j - 1], row, m));
                }
            }
            if x.kind != OpKind::Delete {
                assert(sets(x, m));
                assert(!set_later(s, 0, m)) by {
                    if set_later(s, 0, m) {
                        let j = choose|j: int|
                            0 < j < s.len() && s[j].kind == OpKind::Upsert && same_row(s[j], s[0]) && sets(s[j], m);
                        assert(t[j - 1] == s[j]);
                        assert(settles(t[j - 1], row, m));
                    }
                }
            }
            assert(survives(s, 0));
        }
    } else {
        assert(pruned(s) =~= Seq::<OpView>::empty());
    }
}

/// A deletion makes every earlier op for its row redundant.
pub proof fn pruning_drops_everything_before_a_deletion(s: Seq<OpView>, i: int, j: int)
    requires
        0 <= i < j < s.len(),
        s[j].kind == OpKind::Delete,
        same_row(s[j], s[i]),
    ensures
        !survives(s, i),
{
}

proof fn lemma_survivors_from(s: Seq<OpView>, n: int)
    requires
        0 <= n <= s.len(),
    ensures
        forall|k: int| 0 <= k < survivors_upto(s, n).len() ==> exists|j: int| 0 <= j < n && #[trigger] survivors_upto(
            s,
            n,
        )[k] == s[j],
    decreases n,
{
    if n > 0 {
        lemma_survivors_from(s, n - 1);
        let prev = survivors_upto(s, n - 1);
        if survives(s, n - 1) {
            assert forall|k: int| 0 <= k < survivors_upto(s, n).len() implies exists|j: int|
                0 <= j < n && #[trigger] survivors_upto(s, n)[k] == s[j] by {
                if k < prev.len() {
                    assert(survivors_upto(s, n)[k] == prev[k]);
                    let j = choose|j: int| 0 <= j < n - 1 && prev[k] == s[j];
                } else {
                    assert(survivors_upto(s, n)[k] == s[n - 1]);
                }
            }
        }
    }
}

/// Pruning a pruned log changes nothing: every op that survives pruning
/// still survives among the survivors.
pub proof fn pruning_twice_is_pruning_once(s: Seq<OpView>)
    ensures
        pruned(pruned(s)) == pruned(s),
    decreases s.len(),
{
    if s.len() == 0 {
        assert(pruned(s) =~= Seq::<OpView>::empty());
        assert(pruned(Seq::<OpView>::empty()) =~= Seq::<OpView>::empty());
    } else {
        let t = s.drop_first();
        let x = s[0];
        pruning_twice_is_pruning_once(t);
        lemma_survivors_split(s, s.len() as int);
        let q = pruned(t);
        lemma_survivors_from(t, t.len() as int);
        if survives(s, 0) {
            let p = seq![x] + q;
            assert(pruned(s) == p);
            lemma_survivors_split(p, p.len() as int);
            assert(p.drop_first() =~= q);
            assert(p[0] == x);
            assert(!deleted_later(p, 0)) by {
                if deleted_later(p, 0) {
                    let j = choose|j: int| 0 < j < p.len() && p[j].kind == OpKind::Delete && same_row(p[j], p[0]);
                    assert(p[j] == q[j - 1]);
                    let jj = choose|jj: int| 0 <= jj < t.len() && #[trigger] q[j - 1] == t[jj];
                    assert(s[jj + 1] == t[jj]);
                    assert(deleted_later(s, 0));
                }
            }
            if x.kind != OpKind::Delete {
                let m = choose|m: Seq<char>| sets(s[0], m) && !set_later(s, 0, m);
                assert(!set_later(p, 0, m)) by {
                    if set_later(p, 0, m) {
                        let j = choose|j: int|
                            0 < j < p.len() && p[j].kind == OpKind::Upsert && same_row(p[j], p[0]) && sets(p[j], m);
                        assert(p[j] == q[j - 1]);
                        let jj = choose|jj: int| 0 <= jj < t.len() && #[trigger] q[j - 1] == t[jj];
                        assert(s[jj + 1] == t[jj]);
                        assert(set_later(s, 0, m));
                    }
                }
                assert(sets(p[0], m));
            }
            assert(survives(p, 0));
            assert(pruned(p) == seq![x] + pruned(q));
        } else {
            assert(pruned(s) =~= q);
        }
    }
}

} // verus!
