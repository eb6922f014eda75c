//! Tasks, their tags, and the dashboard.
use vstd::prelude::*;
use crate::text::{chars_of, owned, str_eq, str_lt, seq_lt, lemma_seq_lt_irreflexive, lemma_seq_lt_asymmetric, lemma_seq_lt_transitive, lemma_seq_lt_total};

verus! {

#[derive(Debug, Clone)]
pub struct Tag {
    pub id: i64,
    pub name: String,
    pub color: Option<String>,
}

#[derive(Debug, Clone)]
pub struct Task {
    pub id: i64,
    pub list_id: i64,
    pub title: String,
    pub description: Option<String>,
    pub priority: String,
    pub due_date: Option<String>,
    pub completed: bool,
    pub completed_at: Option<String>,
    pub position: i64,
    pub created_at: String,
    pub updated_at: String,
    pub parent_task_id: Option<i64>,
    pub is_subtask: bool,
    pub status: String,
    pub tags: Vec<Tag>,
    pub total_seconds: i64,
}

#[derive(Debug, Clone)]
pub struct DashboardData {
    pub overdue: Vec<Task>,
    pub high_priority: Vec<Task>,
    pub upcoming: Vec<Task>,
}

/// The columns a task is read with, in the order the app reads them.
pub const TASK_COLS: &'static str = "id,list_id,title,description,priority,due_date,completed,completed_at,position,created_at,updated_at,parent_task_id,is_subtask,status";

/// A new task's priority: as given, else `normal`.
pub fn priority_or_default(priority: Option<String>) -> (p: String)
    ensures
        p@ == match priority {
            Some(x) => x@,
            None => "normal"@,
        },
{
    match priority {
        Some(x) => x,
        None => owned("normal"),
    }
}

/// A due date as stored: an empty one clears it.
pub fn due_date_value(v: String) -> (d: Option<String>)
    ensures
        v@.len() == 0 ==> d is None,
        v@.len() > 0 ==> d == Some(v),
{
    if chars_of(v.as_str()).len() == 0 {
        None
    } else {
        Some(v)
    }
}

/// How an edit to a task's status or completion sets both, keeping them in
/// step: a status sets `completed` to whether it is `done`; otherwise a
/// completion flag sets the status to `done` or `todo`. The status wins
/// when both are given.
pub fn completion_change(status: Option<String>, completed: Option<bool>) -> (r: Option<(String, bool)>)
    ensures
        match status {
            Some(s) => r matches Some((st, done)) && st@ == s@ && done == (s@ == "done"@),
            None => match completed {
                Some(c) => r matches Some((st, done)) && done == c && st@ == (if c {
                    "done"@
                } else {
                    "todo"@
                }),
                None => r is None,
            },
        },
{
    match status {
        Some(s) => {
            let done = str_eq(s.as_str(), "done");
            Some((s, done))
        },
        None => match completed {
            Some(c) => {
                let st = if c {
                    owned("done")
                } else {
                    owned("todo")
                };
                Some((st, c))
            },
            None => None,
        },
    }
}

/// The ids of a list of tasks, in order.
pub fn task_ids(tasks: &Vec<Task>) -> (ids: Vec<i64>)
    ensures
        ids@ == tasks@.map_values(|t: Task| t.id),
{
    let mut ids: Vec<i64> = Vec::new();
    let mut i: usize = 0;
    while i < tasks.len()
        invariant
            i <= tasks.len(),
            ids@ == tasks@.take(i as int).map_values(|t: Task| t.id),
        decreases tasks.len() - i,
    {
        ids.push(tasks[i].id);
        assert(tasks@.take(i + 1) =~= tasks@.take(i as int).push(tasks@[i as int]));
        assert(ids@ =~= tasks@.take(i + 1).map_values(|t: Task| t.id));
        i = i + 1;
    }
    assert(tasks@.take(tasks.len() as int) =~= tasks@);
    ids
}

pub open spec fn not_listed(ids: Seq<i64>) -> spec_fn(Task) -> bool {
    |t: Task| !ids.contains(t.id)
}

/// The tasks whose ids are not among `ids`, in order. The dashboard shows
/// an overdue task only under "overdue", not again under the other headings.
pub fn without_ids(tasks: Vec<Task>, ids: &Vec<i64>) -> (out: Vec<Task>)
    ensures
        out@ == tasks@.filter(not_listed(ids@)),
{
    let ghost s = tasks@;
    let mut out: Vec<Task> = Vec::new();
    for t in it: tasks
        invariant
            it.seq() == s,
            out@ == s.take(it.index() as int).filter(not_listed(ids@)),
    {
        let ghost i = it.index();
        let mut listed = false;
        let mut k: usize = 0;
        while k < ids.len()
            invariant
                k <= ids.len(),
                listed == exists|q: int| 0 <= q < k && ids@[q] == t.id,
            decreases ids.len() - k,
        {
            if ids[k] == t.id {
                listed = true;
            }
            k = k + 1;
        }
        assert(listed == ids@.contains(t.id));
        proof {
            assert(s.take(i + 1) =~= s.take(i).push(t));
            s.take(i).lemma_filter_push(t, not_listed(ids@));
        }
        if !listed {
            out.push(t);
        }
    }
    assert(s.take(s.len() as int) =~= s);
    out
}

pub open spec fn ids_of(tasks: Seq<Task>) -> Seq<i64> {
    tasks.map_values(|t: Task| t.id)
}


/// A task's priority as a rank: high priority first.
pub open spec fn priority_rank(t: Task) -> nat {
    if t.priority@ == "high"@ {
        0
    } else {
        1
    }
}

pub open spec fn due_view(t: Task) -> Option<Seq<char>> {
    match t.due_date {
        Some(d) => Some(d@),
        None => None,
    }
}

/// Due-date order, as the database orders dates written `YYYY-MM-DD`: no
/// date first, then by the text.
pub open spec fn due_lt(a: Option<Seq<char>>, b: Option<Seq<char>>) -> bool {
    match (a, b) {
        (None, Some(_)) => true,
        (Some(x), Some(y)) => seq_lt(x, y),
        _ => false,
    }
}

/// Whether `a` may come before `b` in the "due today or overdue" section:
/// the earlier due date first (so overdue tasks come before today's), and
/// on the same date, high priority first.
pub open spec fn due_first(a: Task, b: Task) -> bool {
    due_lt(due_view(a), due_view(b)) || (due_view(a) == due_view(b) && priority_rank(a) <= priority_rank(b))
}

proof fn lemma_due_first_order(a: Task, b: Task, c: Task)
    ensures
        due_first(a, a),
        due_first(a, b) || due_first(b, a),
        due_first(a, b) && due_first(b, c) ==> due_first(a, c),
{
    match (due_view(a), due_view(b)) {
        (Some(x), Some(y)) => {
            lemma_seq_lt_asymmetric(x, y);
            if x != y {
                lemma_seq_lt_total(x, y);
            }
        },
        _ => {},
    }
    if due_first(a, b) && due_first(b, c) {
        match (due_view(a), due_view(b), due_view(c)) {
            (Some(x), Some(y), Some(z)) => {
                if seq_lt(x, y) && seq_lt(y, z) {
                    lemma_seq_lt_transitive(x, y, z);
                }
            },
            _ => {},
        }
    }
}

fn is_high(t: &Task) -> (r: bool)
    ensures
        r == (priority_rank(*t) == 0),
{
    str_eq(t.priority.as_str(), "high")
}

fn due_first_exec(a: &Task, b: &Task) -> (r: bool)
    ensures
        r == due_first(*a, *b),
{
    let lt = match (&a.due_date, &b.due_date) {
        (None, Some(_)) => true,
        (Some(x), Some(y)) => str_lt(x.as_str(), y.as_str()),
        _ => false,
    };
    if lt {
        return true;
    }
    let same = match (&a.due_date, &b.due_date) {
        (None, None) => true,
        (Some(x), Some(y)) => str_eq(x.as_str(), y.as_str()),
        _ => false,
    };
    same && (is_high(a) || !is_high(b))
}

pub open spec fn sorted_due_first(s: Seq<Task>) -> bool {
    forall|i: int, j: int| 0 <= i < j < s.len() ==> due_first(s[i], s[j])
}

/// The "due today or overdue" section in display order: overdue tasks
/// first (earlier due dates first), then by priority, high first.
pub fn order_due_first(tasks: Vec<Task>) -> (out: Vec<Task>)
    ensures
        sorted_due_first(out@),
        out@.to_multiset() == tasks@.to_multiset(),
{
    broadcast use vstd::seq_lib::group_to_multiset_ensures;
    let ghost s = tasks@;
    let mut out: Vec<Task> = Vec::new();
    proof {
        assert(s.take(0) =~= Seq::<Task>::empty());
        assert(out@ =~= Seq::<Task>::empty());
        assert(Seq::<Task>::empty().to_multiset() =~= vstd::multiset::Multiset::<Task>::empty()) by {
            broadcast use vstd::multiset::group_multiset_axioms;
        }
    }
    for t in it: tasks
        invariant
            it.seq() == s,
            sorted_due_first(out@),
            out@.to_multiset() == s.take(it.index() as int).to_multiset(),
    {
        let ghost i = it.index();
        let mut p: usize = out.len();
        while p > 0 && !due_first_exec(&out[p - 1], &t)
            invariant
                p <= out.len(),
                sorted_due_first(out@),
                forall|q: int| p <= q < out.len() ==> !due_first(out@[q], t),
            decreases p,
        {
            p = p - 1;
        }
        let ghost before = out@;
        proof {
            assert forall|q: int| 0 <= q < p implies due_first(before[q], t) by {
                lemma_due_first_order(before[q], before[p - 1], t);
            }
            assert forall|q: int| p <= q < before.len() implies due_first(t, before[q]) by {
                lemma_due_first_order(t, before[q], t);
            }
        }
        out.insert(p, t);
        proof {
            assert(out@ == before.insert(p as int, t));
            assert(s.take(i + 1) =~= s.take(i).push(t));
            vstd::seq_lib::to_multiset_insert(before, p as int, t);
            vstd::seq_lib::to_multiset_build(s.take(i), t);
            assert(out@.to_multiset() == before.to_multiset().insert(t));
            assert(s.take(i + 1).to_multiset() == s.take(i).to_multiset().insert(t));
            assert forall|a: int, b: int| 0 <= a < b < out@.len() implies due_first(out@[a], out@[b]) by {
                if b < p {
                } else if b == p {
                } else if a < p {
                    assert(out@[b] == before[b - 1]);
                    lemma_due_first_order(out@[a], t, out@[b]);
                } else if a == p {
                    assert(out@[b] == before[b - 1]);
                } else {
                    assert(out@[a] == before[a - 1]);
                    assert(out@[b] == before[b - 1]);
                }
            }
        }
    }
    proof {
        assert(s.take(s.len() as int) =~= s);
    }
    out
}

/// The dashboard's three sections, from the tasks each section's query
/// found: "due today or overdue", ordered overdue first and then by
/// priority; "high priority" without the tasks already in the first
/// section; "upcoming" without the tasks in either section above it.
pub fn dashboard_from(overdue: Vec<Task>, high: Vec<Task>, upcoming: Vec<Task>) -> (d: DashboardData)
    ensures
        sorted_due_first(d.overdue@),
        d.overdue@.to_multiset() == overdue@.to_multiset(),
        d.high_priority@ == high@.filter(not_listed(ids_of(overdue@))),
        d.upcoming@ == upcoming@.filter(not_listed(ids_of(overdue@))).filter(
            not_listed(ids_of(high@.filter(not_listed(ids_of(overdue@))))),
        ),
{
    let first = task_ids(&overdue);
    let high_priority = without_ids(high, &first);
    let second = task_ids(&high_priority);
    let upcoming = without_ids(without_ids(upcoming, &first), &second);
    let overdue = order_due_first(overdue);
    DashboardData { overdue, high_priority, upcoming }
}

} // verus!
