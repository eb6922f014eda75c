use smart_todo::sync::meta::{observed, pick_device_name, stored_clock, ticked};
use smart_todo::text::u64_text;

#[test]
fn clock_advances_on_every_local_write() {
    let clock = stored_clock(&None);
    let first = ticked(clock);
    assert_eq!(first, 1);
    assert_eq!(ticked(first), 2);
}

#[test]
fn a_remote_revision_pushes_the_clock_forward_but_never_back() {
    let mut clock = ticked(stored_clock(&None));
    if let Some(v) = observed(clock, 50) {
        clock = v;
    }
    clock = ticked(clock);
    assert_eq!(clock, 51);
    assert_eq!(observed(clock, 3), None);
    assert_eq!(ticked(clock), 52);
}

#[test]
fn a_stored_clock_that_does_not_read_as_a_number_starts_over() {
    assert_eq!(stored_clock(&Some("17".to_string())), 17);
    assert_eq!(stored_clock(&Some("x17".to_string())), 0);
    assert_eq!(stored_clock(&Some(String::new())), 0);
}

#[test]
fn the_device_is_named_after_the_first_host_name_that_is_set() {
    let none = vec![None, Some("  ".to_string()), None];
    assert_eq!(pick_device_name(&none, "linux"), "linux");
    let some = vec![None, Some("desk".to_string()), Some("other".to_string())];
    assert_eq!(pick_device_name(&some, "linux"), "desk");
}

#[test]
fn the_stored_clock_reads_back_as_written() {
    for clock in [0u64, 9, 99, 12345, u64::MAX - 1] {
        let next = ticked(clock);
        assert_eq!(stored_clock(&Some(u64_text(next))), next);
        assert!(next > clock);
    }
}
