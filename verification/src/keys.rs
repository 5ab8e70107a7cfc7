//! Reserved store keys and the naming conventions of the ROS 2 bridge.
use vstd::prelude::*;
use crate::text::{is_prefix_of, starts_with, cat};

verus! {

/// Reserved namespace for runtime-maintained keys (the built-in clock keys,
/// also called golden keys). Behaviors must not write their own keys under it.
pub const PREFIX: &'static str = "arora/";

/// Monotonic nanoseconds since the runtime started.
pub const TIME: &'static str = "arora/time";

/// Nanoseconds elapsed since the previous step.
pub const DT: &'static str = "arora/dt";

/// Whether `key` is a reserved built-in key — runtime-owned, so a behavior
/// must not write it.
pub fn is_built_in(key: &str) -> (r: bool)
    ensures
        r == is_prefix_of(PREFIX@, key@),
{
    starts_with(key, PREFIX)
}

/// Whether `key` is a reserved golden key: runtime-owned and never forwarded
/// outbound.
pub fn is_golden(key: &str) -> (r: bool)
    ensures
        r == is_prefix_of(PREFIX@, key@),
{
    starts_with(key, PREFIX)
}

/// The ROS 2 topic a device key maps to: `/{namespace}/keys/{path}`.
pub fn topic_name(namespace: &str, path: &str) -> (r: String)
    ensures
        r@ == "/"@ + namespace@ + "/keys/"@ + path@,
{
    let a = cat("/", namespace);
    let b = a.concat("/keys/");
    b.concat(path)
}

/// The ROS 2 service a device method maps to: `/{namespace}/methods/{method}`.
pub fn service_name(namespace: &str, method: &str) -> (r: String)
    ensures
        r@ == "/"@ + namespace@ + "/methods/"@ + method@,
{
    let a = cat("/", namespace);
    let b = a.concat("/methods/");
    b.concat(method)
}

/// The ROS 2 action a spawnable method maps to: `/{namespace}/actions/{method}`.
pub fn action_name(namespace: &str, method: &str) -> (r: String)
    ensures
        r@ == "/"@ + namespace@ + "/actions/"@ + method@,
{
    let a = cat("/", namespace);
    let b = a.concat("/actions/");
    b.concat(method)
}

} // verus!
