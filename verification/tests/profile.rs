use arora_behavior::msg_types::{ros_msg_kind, Bool, RosMsgKind, String as RosString};
use arora_behavior::profile::{glob_match, ExposureProfile, Flow, Include, Qos};
use arora_behavior::value::Value;

#[test]
fn globs_match_segments_and_tails() {
    assert!(glob_match("standard/ros4hri/**", "standard/ros4hri/au/12"));
    assert!(glob_match("standard/ros4hri/**", "standard/ros4hri"));
    assert!(glob_match("standard/*/gaze/target", "standard/ros4hri/gaze/target"));
    assert!(!glob_match("standard/*/gaze", "standard/ros4hri/gaze/target"));
    assert!(!glob_match("standard/ros4hri/**", "standard/vizij/x"));
    assert!(!glob_match("standard/ros4hri", "standard/ros4hri/x"));
}

#[test]
fn includes_rewrite_prefixes() {
    let inc = Include {
        glob: "standard/ros4hri/viseme/**".into(),
        strip: "standard/ros4hri/".into(),
        prefix: "/robot_face/state/".into(),
        flow: Flow::Out,
    };
    assert_eq!(
        inc.rewrite("standard/ros4hri/viseme/aa").as_deref(),
        Some("/robot_face/state/viseme/aa"),
    );
    assert_eq!(inc.rewrite("standard/vizij/viseme/aa"), None);
}

#[test]
fn ros4hri_preset_serves_both_name_sets() {
    let profile = ExposureProfile::ros4hri();
    let topics: Vec<&str> = profile.endpoints.iter().map(|e| e.topic.as_str()).collect();
    for expected in [
        "/robot_face/expression",
        "/robot_face/look_at",
        "/expressive_face/look_at",
        "/robot_face/tts",
        "/expressive_face/speech",
    ] {
        assert!(topics.contains(&expected), "missing {expected}");
    }
    assert!(profile.endpoints.iter().all(|e| e.flow == Flow::In));
}

#[test]
fn ros4hri_preset_binds_the_look_at_skill() {
    let profile = ExposureProfile::ros4hri();
    let [binding] = profile.actions.as_slice() else {
        panic!("one skill binding, got {:?}", profile.actions);
    };
    assert_eq!(binding.action, "/skill/look_at");
    assert_eq!(binding.ros_type, "interaction_skills/LookAt");
    assert_eq!(binding.function, "look_at");
    let params: Vec<&str> = binding.goal_routes.iter().map(|r| r.key.as_str()).collect();
    assert_eq!(params, ["policy", "target", "frame"]);
}

#[test]
fn coverage_reports_unserved_surfaces() {
    let profile = ExposureProfile::ros4hri();
    // A face serving every route key and the look_at method covers the
    // preset fully.
    let keys: Vec<String> = profile
        .endpoints
        .iter()
        .flat_map(|e| e.routes.iter().map(|r| r.key.clone()))
        .collect();
    let all: Vec<&str> = keys.iter().map(String::as_str).collect();
    assert!(profile.coverage(&all, &["look_at"]).is_empty());
    // Dropping the gaze target surfaces exactly the look_at holes.
    let partial: Vec<&str> = keys
        .iter()
        .map(String::as_str)
        .filter(|k| !k.ends_with("gaze/target"))
        .collect();
    let missing = profile.coverage(&partial, &["look_at"]);
    assert_eq!(missing.len(), 2, "{missing:?}");
    assert!(missing.iter().all(|m| m.contains("gaze/target")));
    // A device without the look_at method misses the skill plane.
    let missing = profile.coverage(&all, &[]);
    assert_eq!(missing.len(), 1, "{missing:?}");
    assert!(missing[0].contains("/skill/look_at"));
}

#[test]
fn coverage_reports_an_include_matching_no_key() {
    let profile = ExposureProfile {
        name: "bulk".into(),
        endpoints: vec![],
        includes: vec![Include {
            glob: "standard/ros4hri/viseme/**".into(),
            strip: "standard/ros4hri/".into(),
            prefix: "/robot_face/state/".into(),
            flow: Flow::Out,
        }],
        actions: vec![],
    };
    assert!(profile.coverage(&["standard/ros4hri/viseme/aa"], &[]).is_empty());
    let missing = profile.coverage(&["standard/vizij/viseme/aa"], &[]);
    assert_eq!(missing.len(), 1, "{missing:?}");
    assert!(missing[0].contains("standard/ros4hri/viseme/**"));
}

#[test]
fn state_flows_out_best_effort_and_commands_come_in_reliable() {
    assert_eq!(Qos::default_for(Flow::Out), Qos::SensorData);
    assert_eq!(Qos::default_for(Flow::In), Qos::Reliable);
}

#[test]
fn std_msgs_type_names_are_correct() {
    assert_eq!(Bool::message_type_str(), "std_msgs/Bool");
    assert_eq!(RosString::message_type_str(), "std_msgs/String");
}

#[test]
fn ros_msg_kind_maps_scalars_to_std_msgs() {
    assert_eq!(ros_msg_kind(&Value::I64(1)), RosMsgKind::I64);
    assert_eq!(ros_msg_kind(&Value::I32(1)), RosMsgKind::I32);
    assert_eq!(ros_msg_kind(&Value::U64(1)), RosMsgKind::U64);
    assert_eq!(ros_msg_kind(&Value::U32(1)), RosMsgKind::U32);
    assert_eq!(ros_msg_kind(&Value::Boolean(true)), RosMsgKind::Bool);
    assert_eq!(ros_msg_kind(&Value::String("x".into())), RosMsgKind::Str);
}

#[test]
fn ros_msg_kind_falls_back_to_json_for_non_scalars() {
    assert_eq!(ros_msg_kind(&Value::Unit), RosMsgKind::Json);
    assert_eq!(ros_msg_kind(&Value::U8(3)), RosMsgKind::Json);
}
