//! Weekly productivity figures.
use vstd::prelude::*;

verus! {

#[derive(Debug, Clone, Copy, PartialEq, Eq, Structural)]
pub struct ProductivityStats {
    /// Top-level tasks completed in the last seven days.
    pub tasks_completed_week: i64,
    /// Seconds tracked by timer sessions started in the last seven days.
    pub total_seconds_week: i64,
    /// Of the week's completed top-level tasks with a due date, those
    /// finished on or before it.
    pub on_time_count: i64,
    /// ... and those finished after it.
    pub late_count: i64,
}

} // verus!
