//! Task timers.
use vstd::prelude::*;
use vstd::std_specs::iter::IteratorSpec;
use std::collections::HashMap;
use std::time::Instant;

verus! {

/// `std::time::Instant`, a reading of the monotonic clock. Opaque here: only
/// the app reads the clock.
#[verifier::external_type_specification]
#[verifier::external_body]
pub struct ExInstant(Instant);

/// A running timer.
pub struct TimerEntry {
    pub start_instant: Instant,
    pub started_at: String,
}

#[derive(Debug, Clone)]
pub struct TimerSession {
    pub id: i64,
    pub task_id: i64,
    pub started_at: String,
    pub stopped_at: Option<String>,
    pub duration_seconds: Option<i64>,
}

#[derive(Debug, Clone, Copy, PartialEq, Eq, Structural)]
pub struct ActiveTimer {
    pub task_id: i64,
    pub elapsed_seconds: u64,
}

#[derive(Debug, Clone, Copy, PartialEq, Eq, Structural)]
pub struct StartTimerResult {
    /// The task whose timer was stopped to make room, if one was running:
    /// only one timer runs at a time.
    pub stopped_task_id: Option<i64>,
}

/// Starting a timer stops the one already running, if any.
pub fn start_result(running: Option<i64>) -> (r: StartTimerResult)
    ensures
        r.stopped_task_id == running,
{
    StartTimerResult { stopped_task_id: running }
}

/// The running timers, by task. Starting a timer stops the one already
/// running, so at most one ever runs.
pub struct Timers {
    running: HashMap<i64, TimerEntry>,
}

impl View for Timers {
    type V = Map<i64, TimerEntry>;

    closed spec fn view(&self) -> Map<i64, TimerEntry> {
        self.running@
    }
}

impl Timers {
    #[verifier::type_invariant]
    closed spec fn at_most_one(&self) -> bool {
        &&& self.running@.dom().finite()
        &&& self.running@.dom().len() <= 1
    }
}

proof fn lemma_single_key(m: Map<i64, TimerEntry>, k: i64)
    requires
        m.dom().finite(),
        m.dom().len() <= 1,
        m.contains_key(k),
    ensures
        m.dom() == set![k],
        m == map![k => m[k]],
        m.remove(k) == Map::<i64, TimerEntry>::empty(),
{
    assert forall|j: i64| m.contains_key(j) implies j == k by {
        if j != k {
            vstd::set_lib::lemma_len_subset(set![k, j], m.dom());
            assert(set![k, j].len() == 2) by {
                assert(set![k, j] == set![k].insert(j));
            }
        }
    }
    assert(m.dom() =~= set![k]);
    assert(m =~= map![k => m[k]]);
    assert(m.remove(k) =~= Map::<i64, TimerEntry>::empty());
}

impl Timers {
    /// No timer running.
    pub fn new() -> (t: Timers)
        ensures
            t@ == Map::<i64, TimerEntry>::empty(),
    {
        broadcast use vstd::std_specs::hash::group_hash_axioms;
        let running: HashMap<i64, TimerEntry> = HashMap::new();
        assert(running@.dom() =~= Set::<i64>::empty());
        Timers { running }
    }

    /// The task whose timer is running, if any.
    fn running_task(&self) -> (r: Option<i64>)
        ensures
            match r {
                Some(k) => self@.contains_key(k) && self@ == map![k => self@[k]],
                None => self@ == Map::<i64, TimerEntry>::empty(),
            },
    {
        broadcast use vstd::std_specs::hash::group_hash_axioms;
        proof {
            use_type_invariant(self);
        }
        let ghost ks = vstd::std_specs::hash::spec_keys_iter(&self.running).remaining();
        assert(ks.unref().to_set() == self.running@.dom());
        let mut found: Option<i64> = None;
        for k in it: self.running.keys()
            invariant
                it.seq() == ks,
                ks.unref().to_set() == self.running@.dom(),
                ks.len() == self.running@.dom().len(),
                found is Some ==> self.running@.contains_key(found->Some_0),
                it.index() > 0 ==> found is Some,
        {
            assert(ks.unref()[it.index() as int] == *k);
            assert(ks.unref().contains(*k));
            assert(self.running@.dom().contains(*k));
            found = Some(*k);
        }
        match found {
            Some(k) => {
                proof {
                    lemma_single_key(self.running@, k);
                }
                Some(k)
            },
            None => {
                assert(self.running@.dom().len() == 0);
                assert(self.running@.dom() =~= Set::<i64>::empty()) by {
                    self.running@.dom().lemma_len0_is_empty();
                }
                assert(self.running@ =~= Map::<i64, TimerEntry>::empty());
                None
            },
        }
    }

    /// The running timer, if any, with its task. Only one timer runs at a
    /// time: whatever the timers are, they are none or a single one.
    pub fn running(&self) -> (r: Option<(i64, &TimerEntry)>)
        ensures
            match r {
                Some((task_id, entry)) => self@ == map![task_id => *entry],
                None => self@ == Map::<i64, TimerEntry>::empty(),
            },
    {
        broadcast use vstd::std_specs::hash::group_hash_axioms;
        match self.running_task() {
            Some(k) => match self.running.get(&k) {
                Some(e) => Some((k, e)),
                None => None,
            },
            None => None,
        }
    }

    /// Stops whichever timer is running and hands it back, to be recorded as
    /// a session before another starts.
    pub fn take_running(&mut self) -> (r: Option<(i64, TimerEntry)>)
        ensures
            final(self)@ == Map::<i64, TimerEntry>::empty(),
            match r {
                Some((task_id, entry)) => old(self)@ == map![task_id => entry],
                None => old(self)@ == Map::<i64, TimerEntry>::empty(),
            },
    {
        broadcast use vstd::std_specs::hash::group_hash_axioms;
        match self.running_task() {
            Some(k) => {
                proof {
                    use_type_invariant(&*self);
                    lemma_single_key(self.running@, k);
                }
                let mut m: HashMap<i64, TimerEntry> = HashMap::new();
                std::mem::swap(&mut m, &mut self.running);
                let removed = m.remove(&k);
                assert(m@.dom() =~= Set::<i64>::empty());
                self.running = m;
                match removed {
                    Some(e) => Some((k, e)),
                    None => None,
                }
            },
            None => None,
        }
    }

    /// Starts a timer for a task while none is running.
    pub fn begin(&mut self, task_id: i64, entry: TimerEntry)
        requires
            old(self)@ == Map::<i64, TimerEntry>::empty(),
        ensures
            final(self)@ == map![task_id => entry],
    {
        broadcast use vstd::std_specs::hash::group_hash_axioms;
        let mut m: HashMap<i64, TimerEntry> = HashMap::new();
        std::mem::swap(&mut m, &mut self.running);
        m.insert(task_id, entry);
        assert(m@ =~= map![task_id => entry]);
        assert(m@.dom() =~= set![task_id]);
        self.running = m;
    }

    /// Stops a task's timer: hands back its entry when that task's timer is
    /// the one running, and otherwise changes nothing.
    pub fn stop(&mut self, task_id: i64) -> (r: Option<TimerEntry>)
        ensures
            final(self)@ == old(self)@.remove(task_id),
            final(self)@.dom().len() <= 1,
            r == (if old(self)@.contains_key(task_id) {
                Some(old(self)@[task_id])
            } else {
                None::<TimerEntry>
            }),
    {
        broadcast use vstd::std_specs::hash::group_hash_axioms;
        proof {
            use_type_invariant(&*self);
        }
        let mut m: HashMap<i64, TimerEntry> = HashMap::new();
        std::mem::swap(&mut m, &mut self.running);
        let r = m.remove(&task_id);
        proof {
            vstd::set_lib::lemma_len_subset(m@.dom(), old(self).running@.dom());
        }
        self.running = m;
        r
    }
}

} // verus!
