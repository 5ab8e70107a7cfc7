//! The run-status vocabulary shared by every behavior interpreter.
use vstd::prelude::*;
use crate::value::{Enumeration, Value};

verus! {

/// The enumeration type id every `Status` value carries on the value plane.
pub const STATUS_ENUMERATION_ID: u128 = 0x325a5767_e344_4532_860e_0749bcf2e428;
/// The `Status::Success` variant id.
pub const STATUS_SUCCESS_VARIANT_ID: u128 = 0x766e9e9a_446d_4e46_83e6_14b7ca101169;
/// The `Status::Failure` variant id.
pub const STATUS_FAILURE_VARIANT_ID: u128 = 0x2468f46c_bb60_425c_9a4d_9ad326ccc7e2;
/// The `Status::Running` variant id.
pub const STATUS_RUNNING_VARIANT_ID: u128 = 0xacd79ec6_0c44_401a_82f8_5da5422d3eec;

/// A run's lifecycle status: still running, or a terminal outcome.
#[derive(Debug, Clone, Copy, PartialEq, Eq, Structural)]
pub enum Status {
    /// The behavior finished cleanly.
    Success,
    /// The behavior finished in failure (also what a halted run reports).
    Failure,
    /// The behavior is still running; tick it again.
    Running,
}

/// A value that could not be read as the requested type.
#[derive(Debug, Clone, PartialEq, Eq)]
pub struct ConversionError {
    pub message: String,
}

/// The variant id a status is encoded with.
pub open spec fn status_variant_id(s: Status) -> u128 {
    match s {
        Status::Success => STATUS_SUCCESS_VARIANT_ID,
        Status::Failure => STATUS_FAILURE_VARIANT_ID,
        Status::Running => STATUS_RUNNING_VARIANT_ID,
    }
}

/// The value-plane form of a status: `Enumeration { STATUS, variant, Unit }`.
pub open spec fn status_value(s: Status) -> Value {
    Value::Enumeration(Enumeration {
        id: STATUS_ENUMERATION_ID,
        variant_id: status_variant_id(s),
        value: Box::new(Value::Unit),
    })
}

/// The status a value encodes, if it is a `Status` enumeration value with a
/// known variant (the payload is not inspected).
pub open spec fn status_of_value(v: Value) -> Option<Status> {
    match v {
        Value::Enumeration(e) => if e.id != STATUS_ENUMERATION_ID {
            None
        } else if e.variant_id == STATUS_SUCCESS_VARIANT_ID {
            Some(Status::Success)
        } else if e.variant_id == STATUS_FAILURE_VARIANT_ID {
            Some(Status::Failure)
        } else if e.variant_id == STATUS_RUNNING_VARIANT_ID {
            Some(Status::Running)
        } else {
            None
        },
        _ => None,
    }
}

impl Status {
    /// The value-plane form of this status.
    pub fn to_value(self) -> (v: Value)
        ensures
            v == status_value(self),
    {
        let variant_id = match self {
            Status::Success => STATUS_SUCCESS_VARIANT_ID,
            Status::Failure => STATUS_FAILURE_VARIANT_ID,
            Status::Running => STATUS_RUNNING_VARIANT_ID,
        };
        Value::Enumeration(Enumeration {
            id: STATUS_ENUMERATION_ID,
            variant_id,
            value: Box::new(Value::Unit),
        })
    }

    /// Read a status back from the value plane. Fails unless `value` is an
    /// enumeration with the `Status` id and one of its three variant ids.
    pub fn from_value(value: &Value) -> (r: Result<Status, ConversionError>)
        ensures
            r is Ok <==> status_of_value(*value) is Some,
            r matches Ok(s) ==> status_of_value(*value) == Some(s),
            r matches Err(e) ==> e.message@ == match *value {
                Value::Enumeration(en) => if en.id != STATUS_ENUMERATION_ID {
                    "enumeration id is not Status"@
                } else {
                    "unknown Status variant"@
                },
                _ => "expected an enumeration value for Status"@,
            },
    {
        match value {
            Value::Enumeration(e) => {
                if e.id != STATUS_ENUMERATION_ID {
                    Err(ConversionError { message: String::from_str("enumeration id is not Status") })
                } else if e.variant_id == STATUS_SUCCESS_VARIANT_ID {
                    Ok(Status::Success)
                } else if e.variant_id == STATUS_FAILURE_VARIANT_ID {
                    Ok(Status::Failure)
                } else if e.variant_id == STATUS_RUNNING_VARIANT_ID {
                    Ok(Status::Running)
                } else {
                    Err(ConversionError { message: String::from_str("unknown Status variant") })
                }
            },
            _ => Err(ConversionError {
                message: String::from_str("expected an enumeration value for Status"),
            }),
        }
    }
}

/// Reading back the value form of a status gives the status again.
pub proof fn lemma_status_value_round_trip(s: Status)
    ensures
        status_of_value(status_value(s)) == Some(s),
{
}

/// An interpreter failed to tick.
#[derive(Debug, Clone, PartialEq, Eq)]
pub struct BehaviorError {
    /// Human-readable description.
    pub message: String,
}

impl BehaviorError {
    /// The description, as `Display` would render it.
    pub fn to_string(&self) -> (s: String)
        ensures
            s@ == self.message@,
    {
        self.message.clone()
    }
}

/// Whether an interpreter wants to be ticked again — and, when it does not,
/// how it ended.
#[derive(Debug, PartialEq, Eq)]
pub enum BehaviorStatus {
    /// Not terminal: tick me again next step.
    Running,
    /// Terminal: `Ok(())` is a clean stop, `Err(_)` a fault the run could not
    /// recover from.
    Done(Result<(), BehaviorError>),
}

/// How a run coexists with the runs an interpreter already hosts.
#[derive(Debug, Clone, Copy, PartialEq, Eq, Structural)]
#[non_exhaustive]
pub enum RunPolicy {
    /// Run alongside every other run.
    Concurrent,
}

/// Identity of a live task run (a UUID).
#[derive(Debug, Clone, Copy, PartialEq, Eq, Hash, Structural)]
pub struct TaskId(pub u128);

} // verus!
