//! The bridge vocabulary: device metadata, bridge errors, access decisions,
//! and the no-op bridge used offline.
use vstd::prelude::*;
use crate::text::cat;
use crate::outbound::StateChange;

verus! {

/// Neutral device metadata the bridge syncs with the remote.
#[derive(Debug, Clone, Default, PartialEq, Eq)]
pub struct DeviceInfo {
    pub name: Option<String>,
    pub description: Option<String>,
    pub model_family: Option<String>,
    pub hardware_version: Option<String>,
    pub software_version: Option<String>,
    pub owners: Vec<String>,
}

/// Something went wrong on the bridge.
#[derive(Debug, Clone, PartialEq, Eq)]
pub enum BridgeError {
    /// The link to the remote dropped.
    Disconnected(String),
    /// The device was unregistered from the remote — the runtime should stop.
    Unregistered,
    /// Anything else, with a message.
    Other(String),
}

impl BridgeError {
    /// The message, as `Display` would render it.
    pub fn to_string(&self) -> (s: String)
        ensures
            s@ == match self {
                BridgeError::Disconnected(m) => "bridge disconnected: "@ + m@,
                BridgeError::Unregistered => "device unregistered from the remote"@,
                BridgeError::Other(m) => m@,
            },
    {
        match self {
            BridgeError::Disconnected(m) => cat("bridge disconnected: ", m.as_str()),
            BridgeError::Unregistered => String::from_str("device unregistered from the remote"),
            BridgeError::Other(m) => m.clone(),
        }
    }
}

/// The device operator's answer to an access request.
#[derive(Debug, Clone, Copy, PartialEq, Eq, Structural)]
pub enum AccessDecision {
    Allowed,
    Rejected,
}

/// A no-op bridge for tests and offline runs: never registers, never emits
/// inbound events, and accepts (drops) any data sent.
#[derive(Debug, Clone, Copy, Default)]
pub struct FakeBridge;

impl FakeBridge {
    /// The no-op bridge.
    pub fn new() -> (r: FakeBridge)
        ensures
            r == FakeBridge,
    {
        FakeBridge
    }

    /// Never registered: no device info.
    pub fn get_device_info(&self) -> (r: Result<Option<DeviceInfo>, BridgeError>)
        ensures
            r == Ok::<Option<DeviceInfo>, BridgeError>(None),
    {
        Ok(None)
    }

    /// Accepts the update and hands it back as the merged result.
    pub fn update_device_info(&self, info: Option<DeviceInfo>) -> (r: Result<Option<DeviceInfo>, BridgeError>)
        ensures
            r == Ok::<Option<DeviceInfo>, BridgeError>(info),
    {
        Ok(info)
    }

    /// Accepts (drops) an outbound change: nothing is sent and nothing
    /// changes.
    pub fn try_send(&mut self, change: &StateChange)
        ensures
            *final(self) == *old(self),
    {
    }

    /// No backend identity.
    pub fn device_id(&self) -> (r: Option<String>)
        ensures
            r is None,
    {
        None
    }
}

} // verus!
