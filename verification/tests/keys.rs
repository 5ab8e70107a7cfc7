use arora_behavior::keys::{action_name, is_built_in, is_golden, service_name, topic_name, DT, PREFIX, TIME};

#[test]
fn built_in_keys_share_the_reserved_prefix() {
    assert!(is_built_in(TIME));
    assert!(is_built_in(DT));
    assert!(TIME.starts_with(PREFIX));
    assert!(DT.starts_with(PREFIX));
}

#[test]
fn ordinary_keys_are_not_built_in() {
    assert!(!is_built_in("sensor/x"));
    assert!(!is_built_in("actuator/y"));
    // A key that merely mentions "arora" later in the path is not reserved.
    assert!(!is_built_in("device/arora/time"));
}

#[test]
fn golden_keys_share_the_reserved_prefix() {
    assert!(is_golden(TIME));
    assert!(is_golden(DT));
    assert!(TIME.starts_with(PREFIX));
    assert!(DT.starts_with(PREFIX));
}

#[test]
fn ordinary_keys_are_not_golden() {
    assert!(!is_golden("sensor/x"));
    assert!(!is_golden("actuator/y"));
    assert!(!is_golden("device/arora/time"));
}

#[test]
fn topic_name_follows_the_keys_convention() {
    assert_eq!(topic_name("robot", "face/mouth"), "/robot/keys/face/mouth");
    assert_eq!(topic_name("robot", "enabled"), "/robot/keys/enabled");
}

#[test]
fn service_name_follows_the_methods_convention() {
    assert_eq!(service_name("robot", "speak"), "/robot/methods/speak");
}

#[test]
fn action_name_follows_the_actions_convention() {
    assert_eq!(action_name("robot", "look_at"), "/robot/actions/look_at");
}

#[test]
fn the_reserved_prefix_alone_is_built_in_and_a_near_miss_is_not() {
    assert!(is_built_in("arora/"));
    assert!(!is_built_in("arora"));
    assert!(!is_golden(""));
}
