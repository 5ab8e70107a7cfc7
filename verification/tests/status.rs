use arora_behavior::status::{
    BehaviorError, Status, STATUS_ENUMERATION_ID, STATUS_FAILURE_VARIANT_ID,
    STATUS_RUNNING_VARIANT_ID, STATUS_SUCCESS_VARIANT_ID,
};
use arora_behavior::value::{Enumeration, Value};

#[test]
fn status_round_trips_through_value() {
    for status in [Status::Success, Status::Failure, Status::Running] {
        let value: Value = status.to_value();
        let Value::Enumeration(ref enumeration) = value else {
            panic!("a Status is an enumeration value");
        };
        assert_eq!(enumeration.id, STATUS_ENUMERATION_ID);
        assert_eq!(*enumeration.value, Value::Unit);
        assert_eq!(Status::from_value(&value).unwrap(), status);
    }
}

#[test]
fn each_status_has_its_pinned_variant_id() {
    let variant = |s: Status| match s.to_value() {
        Value::Enumeration(e) => e.variant_id,
        _ => panic!("a Status is an enumeration value"),
    };
    assert_eq!(variant(Status::Success), STATUS_SUCCESS_VARIANT_ID);
    assert_eq!(variant(Status::Failure), STATUS_FAILURE_VARIANT_ID);
    assert_eq!(variant(Status::Running), STATUS_RUNNING_VARIANT_ID);
}

#[test]
fn foreign_values_are_not_statuses() {
    assert!(Status::from_value(&Value::U8(1)).is_err());
    let other_enum = Value::Enumeration(Enumeration {
        id: 0x1234,
        variant_id: STATUS_SUCCESS_VARIANT_ID,
        value: Box::new(Value::Unit),
    });
    assert!(Status::from_value(&other_enum).is_err());
    let unknown_variant = Value::Enumeration(Enumeration {
        id: STATUS_ENUMERATION_ID,
        variant_id: 0x5,
        value: Box::new(Value::Unit),
    });
    assert!(Status::from_value(&unknown_variant).is_err());
}

#[test]
fn a_behavior_error_displays_its_message() {
    let e = BehaviorError { message: "boom".to_string() };
    assert_eq!(e.to_string(), "boom");
}
