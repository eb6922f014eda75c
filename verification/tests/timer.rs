use smart_todo::commands::timer::{start_result, TimerEntry, Timers};
use std::collections::HashMap;
use std::time::Instant;

#[test]
fn test_active_timers_tracks_elapsed() {
    let mut map: HashMap<i64, TimerEntry> = HashMap::new();
    map.insert(42, TimerEntry { start_instant: Instant::now(), started_at: "2026-06-20T10:00:00".to_string() });
    assert!(map.contains_key(&42));
    assert!(map[&42].start_instant.elapsed().as_secs() < 5);
}

#[test]
fn starting_a_timer_reports_the_one_it_stopped() {
    assert_eq!(start_result(Some(7)).stopped_task_id, Some(7));
    assert_eq!(start_result(None).stopped_task_id, None);
}

fn entry(at: &str) -> TimerEntry {
    TimerEntry { start_instant: Instant::now(), started_at: at.to_string() }
}

#[test]
fn starting_a_second_timer_stops_the_first() {
    let mut timers = Timers::new();
    assert!(timers.running().is_none());
    assert!(timers.take_running().is_none());
    timers.begin(1, entry("2026-06-20T10:00:00"));
    let stopped = timers.take_running().unwrap();
    assert_eq!(stopped.0, 1);
    assert_eq!(stopped.1.started_at, "2026-06-20T10:00:00");
    timers.begin(2, entry("2026-06-20T10:05:00"));
    let (task, e) = timers.running().unwrap();
    assert_eq!(task, 2);
    assert_eq!(e.started_at, "2026-06-20T10:05:00");
}

#[test]
fn stopping_a_timer_that_is_not_running_changes_nothing() {
    let mut timers = Timers::new();
    timers.begin(3, entry("2026-06-20T11:00:00"));
    assert!(timers.stop(4).is_none());
    assert_eq!(timers.running().map(|(t, _)| t), Some(3));
    assert_eq!(timers.stop(3).map(|e| e.started_at), Some("2026-06-20T11:00:00".to_string()));
    assert!(timers.running().is_none());
}
