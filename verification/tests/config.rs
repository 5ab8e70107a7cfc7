use arora_behavior::config::{input_kind, is_echo, out_topic, typed_output_topic, Ros2BridgeConfig, ValueType};
use arora_behavior::msg_types::RosMsgKind;
use arora_behavior::profile::{ExposureProfile, Endpoint, FieldRoute, Flow, Include};

#[test]
fn the_builders_declare_inputs_and_typed_bindings() {
    let config = Ros2BridgeConfig::new("robot", 7)
        .with_input("face/mouth", ValueType::F64)
        .with_typed_input("face/expr", "hri_msgs/Expression")
        .with_typed_input_on("gaze", "geometry_msgs/PointStamped", "/robot_face/look_at")
        .with_typed_output("camera", "sensor_msgs/CompressedImage")
        .with_typed_output_on("diag", "std_msgs/String", "/diagnostics");
    assert_eq!(config.namespace, "robot");
    assert_eq!(config.domain_id, 7);
    assert_eq!(config.inputs.len(), 1);
    assert_eq!(config.inputs[0].path, "face/mouth");
    assert_eq!(config.typed_inputs[0].topic, None);
    assert_eq!(config.typed_inputs[1].topic.as_deref(), Some("/robot_face/look_at"));
    assert_eq!(config.outputs[0].topic, None);
    assert_eq!(config.outputs[1].topic.as_deref(), Some("/diagnostics"));
    assert_eq!(typed_output_topic("robot", &config.outputs[0]), "/robot/keys/camera");
    assert_eq!(typed_output_topic("robot", &config.outputs[1]), "/diagnostics");
}

#[test]
fn a_profile_becomes_typed_inputs_and_outputs() {
    let mut profile = ExposureProfile::ros4hri();
    let inbound = profile.endpoints.len();
    profile.endpoints.push(Endpoint {
        topic: "/robot_face/image".into(),
        ros_type: "sensor_msgs/CompressedImage".into(),
        flow: Flow::Out,
        routes: vec![FieldRoute { field: "".into(), key: "face/image".into() }],
    });
    profile.endpoints.push(Endpoint {
        topic: "/robot_face/nothing".into(),
        ros_type: "std_msgs/String".into(),
        flow: Flow::Out,
        routes: vec![],
    });
    let config = Ros2BridgeConfig::new("robot", 0).with_profile(profile);
    assert_eq!(config.typed_inputs.len(), inbound);
    assert!(config.typed_inputs.iter().all(|t| t.topic.as_deref() == Some(t.path.as_str())));
    assert_eq!(config.outputs.len(), 1, "an outbound endpoint without a route publishes nothing");
    assert_eq!(config.outputs[0].path, "face/image");
    assert_eq!(config.outputs[0].topic.as_deref(), Some("/robot_face/image"));
    assert_eq!(config.action_bindings.len(), 1);
}

#[test]
fn an_untyped_output_publishes_under_the_first_matching_outbound_include() {
    let includes = vec![
        Include {
            glob: "standard/ros4hri/**".into(),
            strip: "standard/ros4hri/".into(),
            prefix: "/in_only/".into(),
            flow: Flow::In,
        },
        Include {
            glob: "standard/ros4hri/viseme/**".into(),
            strip: "standard/ros4hri/".into(),
            prefix: "/robot_face/state/".into(),
            flow: Flow::Out,
        },
        Include {
            glob: "standard/**".into(),
            strip: "standard/".into(),
            prefix: "/late/".into(),
            flow: Flow::Out,
        },
    ];
    assert_eq!(out_topic("robot", "standard/ros4hri/viseme/aa", &includes), "/robot_face/state/viseme/aa");
    assert_eq!(out_topic("robot", "standard/vizij/x", &includes), "/late/vizij/x");
    assert_eq!(out_topic("robot", "battery/level", &includes), "/robot/keys/battery/level");
}

#[test]
fn a_subscribed_topic_is_never_echoed_back() {
    let subscribed = vec!["/robot/keys/face/mouth".to_string()];
    assert!(is_echo("/robot/keys/face/mouth", &subscribed));
    assert!(!is_echo("/robot/keys/face/eyes", &subscribed));
}

#[test]
fn input_types_select_their_std_msgs_topic() {
    assert_eq!(input_kind(ValueType::F64), RosMsgKind::F64);
    assert_eq!(input_kind(ValueType::Boolean), RosMsgKind::Bool);
    assert_eq!(input_kind(ValueType::String), RosMsgKind::Str);
    assert_eq!(input_kind(ValueType::Other), RosMsgKind::Json);
}
