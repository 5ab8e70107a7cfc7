//! The value plane: the data a key holds and a call carries.
use vstd::prelude::*;

verus! {

/// An enumeration value: the enumeration type id, the variant id, and the
/// variant's payload.
#[derive(Debug, PartialEq)]
pub struct Enumeration {
    pub id: u128,
    pub variant_id: u128,
    pub value: Box<Value>,
}

/// A value on the Arora value plane.
///
/// Identifiers (type ids, variant ids, field ids) are 128-bit UUIDs held as
/// `u128`.
#[derive(Debug, PartialEq)]
pub enum Value {
    Unit,
    Boolean(bool),
    U8(u8),
    U16(u16),
    U32(u32),
    U64(u64),
    I8(i8),
    I16(i16),
    I32(i32),
    I64(i64),
    String(String),
    Enumeration(Enumeration),
}

impl Value {
    /// A copy of this value, equal to it.
    pub fn duplicate(&self) -> (r: Value)
        ensures
            r == *self,
        decreases self,
    {
        match self {
            Value::Unit => Value::Unit,
            Value::Boolean(b) => Value::Boolean(*b),
            Value::U8(x) => Value::U8(*x),
            Value::U16(x) => Value::U16(*x),
            Value::U32(x) => Value::U32(*x),
            Value::U64(x) => Value::U64(*x),
            Value::I8(x) => Value::I8(*x),
            Value::I16(x) => Value::I16(*x),
            Value::I32(x) => Value::I32(*x),
            Value::I64(x) => Value::I64(*x),
            Value::String(s) => Value::String(s.clone()),
            Value::Enumeration(e) => {
                let inner = e.value.duplicate();
                Value::Enumeration(Enumeration { id: e.id, variant_id: e.variant_id, value: Box::new(inner) })
            },
        }
    }
}

} // verus!

verus! {

/// One named field of a structure or of a call's arguments.
#[derive(Debug, PartialEq)]
pub struct StructureField {
    pub id: u128,
    pub value: Value,
}

/// A function call: the target function (and optionally its module), with
/// its arguments keyed by parameter id.
#[derive(Debug, PartialEq)]
pub struct Call {
    pub module_id: Option<u128>,
    pub id: u128,
    pub args: Vec<StructureField>,
}

/// What a call returned: its return value and the parameters it mutated.
#[derive(Debug, PartialEq)]
pub struct CallResult {
    pub ret: Value,
    pub mutated: Vec<StructureField>,
}

/// A call could not be performed.
#[derive(Debug, Clone, PartialEq, Eq)]
pub enum CallError {
    /// No function with this id is known to the callee.
    FunctionNotFound { id: u128 },
    /// Any other failure, with a message.
    Generic { message: String },
}

/// A call as it reached a bridge: the module it was sent to, and the call's
/// own module field, function id and arguments.
pub struct CallRecord {
    pub target: u128,
    pub module_id: Option<u128>,
    pub id: u128,
    pub args: Seq<StructureField>,
}

/// The record of `call` sent to module `target`.
pub open spec fn call_record(target: u128, call: Call) -> CallRecord {
    CallRecord { target, module_id: call.module_id, id: call.id, args: call.args@ }
}

/// The party that performs calls into modules on behalf of an interpreter
/// (the engine, in production). Implemented by the host; what it answers is
/// its own business.
pub trait CallBridge {
    /// Perform `call` on module `module_id` and return its result.
    fn arora_call(&mut self, module_id: &u128, call: &Call) -> Result<CallResult, CallError>;
}

/// A host bridge, with the record of every call handed to it through this
/// wrapper, in order, each with the answer it gave. The host is reachable
/// only through [`arora_call`](Self::arora_call), so the record is complete.
pub struct LoggedBridge<B> {
    host: B,
    log: Ghost<Seq<(CallRecord, Result<CallResult, CallError>)>>,
}

impl<B: CallBridge> LoggedBridge<B> {
    /// The calls handed to the host so far, with their answers.
    pub closed spec fn calls(&self) -> Seq<(CallRecord, Result<CallResult, CallError>)> {
        self.log@
    }

    /// The wrapped host.
    pub closed spec fn spec_host(&self) -> B {
        self.host
    }

    /// Wrap `host`, with no call recorded yet.
    pub fn new(host: B) -> (r: LoggedBridge<B>)
        ensures
            r.calls() == Seq::<(CallRecord, Result<CallResult, CallError>)>::empty(),
            r.spec_host() == host,
    {
        LoggedBridge { host, log: Ghost(Seq::empty()) }
    }

    /// Hand `call` for module `module_id` to the host, and record it with
    /// the host's answer, which is returned.
    pub fn arora_call(&mut self, module_id: &u128, call: &Call) -> (r: Result<CallResult, CallError>)
        ensures
            final(self).calls() == old(self).calls().push((call_record(*module_id, *call), r)),
    {
        let r = self.host.arora_call(module_id, call);
        self.log = Ghost(self.log@.push((call_record(*module_id, *call), r)));
        r
    }

    /// The wrapped host.
    pub fn host(&self) -> (r: &B)
        ensures
            *r == self.spec_host(),
    {
        &self.host
    }

    /// Unwrap the host.
    pub fn into_host(self) -> (r: B)
        ensures
            r == self.spec_host(),
    {
        self.host
    }
}

} // verus!
