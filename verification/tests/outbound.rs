use arora_behavior::outbound::{Outbound, StateChange};
use arora_behavior::value::Value;

fn set(key: &str, value: i64) -> StateChange {
    StateChange::set(key, Value::I64(value))
}

fn unset(key: &str) -> StateChange {
    let mut change = StateChange::new();
    change.unset_key(key);
    change
}

#[test]
fn a_key_written_twice_before_the_drain_keeps_only_the_newest_value() {
    let mut outbound = Outbound::new();
    outbound.merge(&set("rig/jaw", 1));
    outbound.merge(&set("rig/jaw", 2));
    outbound.merge(&set("rig/brow", 9));

    let drained = outbound.take();
    assert_eq!(drained.set_len(), 2, "one entry per key, not per write");
    assert_eq!(drained.get("rig/jaw"), Some(&Some(Value::I64(2))), "the later write wins");
    assert_eq!(drained.get("rig/brow"), Some(&Some(Value::I64(9))));
}

#[test]
fn a_set_and_an_unset_of_one_key_resolve_to_whichever_came_last() {
    let mut outbound = Outbound::new();
    outbound.merge(&set("rig/jaw", 1));
    outbound.merge(&unset("rig/jaw"));
    let drained = outbound.take();
    assert_eq!(drained.set_len(), 0, "the unset erased the pending set");
    assert!(drained.is_unset("rig/jaw"));

    let mut outbound = Outbound::new();
    outbound.merge(&unset("rig/jaw"));
    outbound.merge(&set("rig/jaw", 3));
    let drained = outbound.take();
    assert_eq!(drained.unset_len(), 0, "the set erased the pending unset");
    assert_eq!(drained.get("rig/jaw"), Some(&Some(Value::I64(3))));
}

#[test]
fn taking_the_pending_change_leaves_the_seam_empty() {
    let mut outbound = Outbound::new();
    outbound.merge(&set("rig/jaw", 1));
    assert!(!outbound.take().is_empty());
    assert!(outbound.take().is_empty());
}

#[test]
fn falling_behind_is_reported_once() {
    let mut outbound = Outbound::new();
    assert!(!outbound.merge(&set("rig/jaw", 1)), "nothing was pending");
    assert!(outbound.merge(&set("rig/jaw", 2)), "a pending value was replaced");
    assert!(!outbound.merge(&set("rig/jaw", 3)), "already reported");
    assert!(outbound.fell_behind());
    outbound.take();
    assert!(outbound.fell_behind(), "draining does not forget it");
}

#[test]
fn within_one_change_the_unset_comes_after_the_set() {
    let mut change = StateChange::new();
    change.set_key("a", Some(Value::U8(1)));
    change.unset_key("a");
    change.set_key("b", None);
    let mut outbound = Outbound::new();
    outbound.merge(&change);
    let drained = outbound.take();
    assert!(drained.is_unset("a"));
    assert_eq!(drained.get("a"), None);
    assert_eq!(drained.get("b"), Some(&None), "a key set to nothing is still set");
}

#[test]
fn setting_a_key_twice_in_one_change_keeps_one_entry() {
    let mut change = StateChange::new();
    change.set_key("a", Some(Value::U8(1)));
    change.set_key("a", Some(Value::U8(2)));
    assert_eq!(change.set_len(), 1);
    assert_eq!(change.set_count(), 1);
    assert_eq!(change.get("a"), Some(&Some(Value::U8(2))));
}
