use arora_behavior::bridge::{BridgeError, DeviceInfo, FakeBridge};
use arora_behavior::outbound::StateChange;
use arora_behavior::type_hash::Error as TypeHashError;

#[test]
fn the_fake_bridge_has_no_identity_and_echoes_updates() {
    let bridge = FakeBridge::new();
    assert_eq!(bridge.get_device_info(), Ok(None));
    assert_eq!(bridge.device_id(), None);
    let info = DeviceInfo::default();
    assert_eq!(bridge.update_device_info(Some(info.clone())), Ok(Some(info)));
}

#[test]
fn bridge_errors_display_their_message() {
    let e = BridgeError::Other("boom".to_string());
    assert!(e.to_string().contains("boom"));
}

#[test]
fn disconnection_and_unregistration_have_their_own_messages() {
    assert_eq!(BridgeError::Disconnected("eof".to_string()).to_string(), "bridge disconnected: eof");
    assert_eq!(BridgeError::Unregistered.to_string(), "device unregistered from the remote");
}

#[test]
fn the_fake_bridge_drops_what_it_is_sent() {
    let mut bridge = FakeBridge::new();
    bridge.try_send(&StateChange::new());
    assert_eq!(bridge.get_device_info(), Ok(None));
}

#[test]
fn a_type_hash_error_displays_its_cause() {
    let e = TypeHashError::new("type \"x\" is not a structure".to_string());
    assert_eq!(e.to_string(), "ros type hash: type \"x\" is not a structure");
}
