//! `std_msgs` scalar messages and how a value picks its message type.
use vstd::prelude::*;
use crate::value::Value;

verus! {

/// `std_msgs/Int64`
#[derive(Debug, Clone, Copy, PartialEq, Eq, Default)]
pub struct Int64 {
    pub data: i64,
}

/// `std_msgs/Int32`
#[derive(Debug, Clone, Copy, PartialEq, Eq, Default)]
pub struct Int32 {
    pub data: i32,
}

/// `std_msgs/UInt64`
#[derive(Debug, Clone, Copy, PartialEq, Eq, Default)]
pub struct UInt64 {
    pub data: u64,
}

/// `std_msgs/UInt32`
#[derive(Debug, Clone, Copy, PartialEq, Eq, Default)]
pub struct UInt32 {
    pub data: u32,
}

/// `std_msgs/Bool`
#[derive(Debug, Clone, Copy, PartialEq, Eq, Default)]
pub struct Bool {
    pub data: bool,
}

/// `std_msgs/String`
#[derive(Debug, Clone, PartialEq, Eq, Default)]
pub struct String {
    pub data: std::string::String,
}

impl Int64 {
    /// The ROS 2 message type name.
    pub fn message_type_str() -> (r: &'static str)
        ensures
            r@ == "std_msgs/Int64"@,
    {
        "std_msgs/Int64"
    }
}

impl Int32 {
    /// The ROS 2 message type name.
    pub fn message_type_str() -> (r: &'static str)
        ensures
            r@ == "std_msgs/Int32"@,
    {
        "std_msgs/Int32"
    }
}

impl UInt64 {
    /// The ROS 2 message type name.
    pub fn message_type_str() -> (r: &'static str)
        ensures
            r@ == "std_msgs/UInt64"@,
    {
        "std_msgs/UInt64"
    }
}

impl UInt32 {
    /// The ROS 2 message type name.
    pub fn message_type_str() -> (r: &'static str)
        ensures
            r@ == "std_msgs/UInt32"@,
    {
        "std_msgs/UInt32"
    }
}

impl Bool {
    /// The ROS 2 message type name.
    pub fn message_type_str() -> (r: &'static str)
        ensures
            r@ == "std_msgs/Bool"@,
    {
        "std_msgs/Bool"
    }
}

impl String {
    /// The ROS 2 message type name.
    pub fn message_type_str() -> (r: &'static str)
        ensures
            r@ == "std_msgs/String"@,
    {
        "std_msgs/String"
    }
}

/// Which `std_msgs` message type a value is published as.
#[derive(Debug, Clone, Copy, PartialEq, Eq, Structural)]
pub enum RosMsgKind {
    F64,
    F32,
    I64,
    I32,
    U64,
    U32,
    Bool,
    /// A `std_msgs/String` carrying the string verbatim.
    Str,
    /// A `std_msgs/String` carrying a JSON encoding of the value.
    Json,
}

/// The message type a value rides: scalars their native `std_msgs` type,
/// anything else JSON in a `std_msgs/String`.
pub open spec fn msg_kind_of(value: Value) -> RosMsgKind {
    match value {
        Value::I64(_) => RosMsgKind::I64,
        Value::I32(_) => RosMsgKind::I32,
        Value::U64(_) => RosMsgKind::U64,
        Value::U32(_) => RosMsgKind::U32,
        Value::Boolean(_) => RosMsgKind::Bool,
        Value::String(_) => RosMsgKind::Str,
        _ => RosMsgKind::Json,
    }
}

/// Pick the ROS 2 message type for a value.
pub fn ros_msg_kind(value: &Value) -> (r: RosMsgKind)
    ensures
        r == msg_kind_of(*value),
{
    match value {
        Value::I64(_) => RosMsgKind::I64,
        Value::I32(_) => RosMsgKind::I32,
        Value::U64(_) => RosMsgKind::U64,
        Value::U32(_) => RosMsgKind::U32,
        Value::Boolean(_) => RosMsgKind::Bool,
        Value::String(_) => RosMsgKind::Str,
        _ => RosMsgKind::Json,
    }
}

} // verus!
