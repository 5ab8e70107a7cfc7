//! How a ROS 2 bridge attaches to a device: the namespace, the keys it
//! subscribes to, the keys it publishes as typed messages, and the exposure
//! profiles it serves; and the routing decisions made from that
//! configuration when a key is published or subscribed.
use vstd::prelude::*;
use crate::keys::topic_name;
use crate::msg_types::{RosMsgKind, msg_kind_of};
use crate::value::Value;
use crate::profile::{ActionBinding, Endpoint, ExposureProfile, FieldRoute, Flow, Include, Qos,
    glob_matches};
use crate::text::{is_prefix_of, str_eq};

verus! {

/// The type of an input key's values, as far as it selects the `std_msgs`
/// topic type; `Other` is any type without a native one.
#[derive(Debug, Clone, Copy, PartialEq, Eq, Structural)]
pub enum ValueType {
    F64,
    F32,
    I64,
    I32,
    U64,
    U32,
    Boolean,
    String,
    Other,
}

/// The `std_msgs` type an input key of type `t` subscribes with: the native
/// scalar type, or JSON in a `std_msgs/String` for anything else.
pub open spec fn input_kind_spec(t: ValueType) -> RosMsgKind {
    match t {
        ValueType::F64 => RosMsgKind::F64,
        ValueType::F32 => RosMsgKind::F32,
        ValueType::I64 => RosMsgKind::I64,
        ValueType::I32 => RosMsgKind::I32,
        ValueType::U64 => RosMsgKind::U64,
        ValueType::U32 => RosMsgKind::U32,
        ValueType::Boolean => RosMsgKind::Bool,
        ValueType::String => RosMsgKind::Str,
        ValueType::Other => RosMsgKind::Json,
    }
}

/// The `std_msgs` type an input key of type `t` subscribes with.
pub fn input_kind(t: ValueType) -> (r: RosMsgKind)
    ensures
        r == input_kind_spec(t),
{
    match t {
        ValueType::F64 => RosMsgKind::F64,
        ValueType::F32 => RosMsgKind::F32,
        ValueType::I64 => RosMsgKind::I64,
        ValueType::I32 => RosMsgKind::I32,
        ValueType::U64 => RosMsgKind::U64,
        ValueType::U32 => RosMsgKind::U32,
        ValueType::Boolean => RosMsgKind::Bool,
        ValueType::String => RosMsgKind::Str,
        ValueType::Other => RosMsgKind::Json,
    }
}

/// The native input type of a value, `Other` for a value without one.
pub open spec fn native_type(v: Value) -> ValueType {
    match v {
        Value::I64(_) => ValueType::I64,
        Value::I32(_) => ValueType::I32,
        Value::U64(_) => ValueType::U64,
        Value::U32(_) => ValueType::U32,
        Value::Boolean(_) => ValueType::Boolean,
        Value::String(_) => ValueType::String,
        _ => ValueType::Other,
    }
}

/// An input key subscribes with the very message type its values are
/// published as: a key of a value's native type listens on the `std_msgs`
/// message the value goes out on.
pub proof fn lemma_input_kind_is_published_kind(v: Value)
    requires
        native_type(v) != ValueType::Other,
    ensures
        input_kind_spec(native_type(v)) == msg_kind_of(v),
{
}

/// Distinct input types subscribe with distinct message types, so no
/// scalar type listens on another type's topic message.
pub proof fn lemma_input_kind_injective(t1: ValueType, t2: ValueType)
    ensures
        input_kind_spec(t1) == input_kind_spec(t2) ==> t1 == t2,
{
}

/// An input key exposed as an inbound topic `/{namespace}/keys/{path}`.
#[derive(Debug, Clone)]
pub struct InputKey {
    pub path: String,
    pub value_type: ValueType,
    /// Delivery profile; `None` takes the inbound default.
    pub qos: Option<Qos>,
}

impl InputKey {
    /// An input key with the default delivery profile.
    pub fn new(path: &str, value_type: ValueType) -> (r: InputKey)
        ensures
            r.path@ == path@,
            r.value_type == value_type,
            r.qos is None,
    {
        InputKey { path: String::from_str(path), value_type, qos: None }
    }
}

/// An output key published as a typed ROS message.
#[derive(Debug, Clone)]
pub struct TypedOutput {
    pub path: String,
    /// The registered ROS message name.
    pub ros_type: String,
    /// The topic; `None` uses the `/{namespace}/keys/{path}` convention.
    pub topic: Option<String>,
    /// Delivery profile; `None` takes the outbound default.
    pub qos: Option<Qos>,
}

/// An input key subscribed as a typed ROS message.
#[derive(Debug, Clone)]
pub struct TypedInput {
    pub path: String,
    /// The registered ROS message name.
    pub ros_type: String,
    /// The topic; `None` uses the `/{namespace}/keys/{path}` convention.
    pub topic: Option<String>,
    /// Field fan-out over device keys; empty lands the whole message on
    /// `path`.
    pub routes: Vec<FieldRoute>,
    /// Delivery profile; `None` takes the inbound default.
    pub qos: Option<Qos>,
}

/// How to attach to the ROS 2 graph.
#[derive(Debug)]
pub struct Ros2BridgeConfig {
    pub namespace: String,
    pub domain_id: u16,
    pub inputs: Vec<InputKey>,
    pub typed_inputs: Vec<TypedInput>,
    pub outputs: Vec<TypedOutput>,
    pub includes: Vec<Include>,
    pub action_bindings: Vec<ActionBinding>,
}

/// Whether `t` is the typed input the inbound endpoint `e` becomes: named
/// after its topic, on that topic, with its type, its field routes and the
/// default delivery profile.
pub open spec fn is_endpoint_input(t: TypedInput, e: Endpoint) -> bool {
    &&& t.path == e.topic
    &&& t.ros_type == e.ros_type
    &&& t.topic matches Some(x) && x@ == e.topic@
    &&& t.routes == e.routes
    &&& t.qos is None
}

/// The inbound endpoints of `es`, in order.
pub open spec fn profile_inputs(es: Seq<Endpoint>) -> Seq<Endpoint>
    decreases es.len(),
{
    if es.len() == 0 {
        Seq::empty()
    } else {
        let rest = profile_inputs(es.drop_last());
        if es.last().flow == Flow::In {
            rest.push(es.last())
        } else {
            rest
        }
    }
}

/// The outbound endpoints of `es` that publish: those with a route, in
/// order. Each publishes the whole message from its first route's key.
pub open spec fn profile_outputs(es: Seq<Endpoint>) -> Seq<Endpoint>
    decreases es.len(),
{
    if es.len() == 0 {
        Seq::empty()
    } else {
        let rest = profile_outputs(es.drop_last());
        if es.last().flow == Flow::Out && es.last().routes@.len() > 0 {
            rest.push(es.last())
        } else {
            rest
        }
    }
}

/// The typed output an outbound endpoint `e` becomes, as far as its strings
/// are concerned: its first route's key, its type, its topic.
pub open spec fn is_endpoint_output(o: TypedOutput, e: Endpoint) -> bool {
    &&& o.path@ == e.routes@[0].key@
    &&& o.ros_type == e.ros_type
    &&& o.topic == Some(e.topic)
    &&& o.qos is None
}

impl Ros2BridgeConfig {
    /// A send-only config: a namespace and a domain, nothing declared.
    pub fn new(namespace: &str, domain_id: u16) -> (r: Ros2BridgeConfig)
        ensures
            r.namespace@ == namespace@,
            r.domain_id == domain_id,
            r.inputs@.len() == 0,
            r.typed_inputs@.len() == 0,
            r.outputs@.len() == 0,
            r.includes@.len() == 0,
            r.action_bindings@.len() == 0,
    {
        Ros2BridgeConfig {
            namespace: String::from_str(namespace),
            domain_id,
            inputs: Vec::new(),
            typed_inputs: Vec::new(),
            outputs: Vec::new(),
            includes: Vec::new(),
            action_bindings: Vec::new(),
        }
    }

    /// Add an input key to subscribe to.
    pub fn with_input(self, path: &str, value_type: ValueType) -> (r: Ros2BridgeConfig)
        ensures
            r.inputs@.len() == self.inputs@.len() + 1,
            r.inputs@.drop_last() == self.inputs@,
            r.inputs@.last().path@ == path@,
            r.inputs@.last().value_type == value_type,
            r.inputs@.last().qos is None,
            r.namespace == self.namespace,
            r.domain_id == self.domain_id,
            r.typed_inputs == self.typed_inputs,
            r.outputs == self.outputs,
            r.includes == self.includes,
            r.action_bindings == self.action_bindings,
    {
        let mut c = self;
        c.inputs.push(InputKey::new(path, value_type));
        c
    }

    /// Subscribe an input key as the typed message `ros_type`, on `topic`
    /// when given, else on the `/{namespace}/keys/{path}` convention.
    fn push_typed_input(self, path: &str, ros_type: &str, topic: Option<&str>) -> (r: Ros2BridgeConfig)
        ensures
            r.typed_inputs@.len() == self.typed_inputs@.len() + 1,
            r.typed_inputs@.drop_last() == self.typed_inputs@,
            r.typed_inputs@.last().path@ == path@,
            r.typed_inputs@.last().ros_type@ == ros_type@,
            r.typed_inputs@.last().topic is Some <==> topic is Some,
            topic matches Some(t) ==> r.typed_inputs@.last().topic->0@ == t@,
            r.typed_inputs@.last().routes@.len() == 0,
            r.typed_inputs@.last().qos is None,
            r.namespace == self.namespace,
            r.domain_id == self.domain_id,
            r.inputs == self.inputs,
            r.outputs == self.outputs,
            r.includes == self.includes,
            r.action_bindings == self.action_bindings,
    {
        let mut c = self;
        let topic = match topic {
            Some(t) => Some(String::from_str(t)),
            None => None,
        };
        c.typed_inputs.push(TypedInput {
            path: String::from_str(path),
            ros_type: String::from_str(ros_type),
            topic,
            routes: Vec::new(),
            qos: None,
        });
        c
    }

    /// Subscribe an input key as the typed message `ros_type` on the
    /// `/{namespace}/keys/{path}` topic.
    pub fn with_typed_input(self, path: &str, ros_type: &str) -> (r: Ros2BridgeConfig)
        ensures
            r.typed_inputs@.len() == self.typed_inputs@.len() + 1,
            r.typed_inputs@.drop_last() == self.typed_inputs@,
            r.typed_inputs@.last().path@ == path@,
            r.typed_inputs@.last().ros_type@ == ros_type@,
            r.typed_inputs@.last().topic is None,
            r.typed_inputs@.last().routes@.len() == 0,
            r.typed_inputs@.last().qos is None,
            r.namespace == self.namespace,
            r.domain_id == self.domain_id,
            r.inputs == self.inputs,
            r.outputs == self.outputs,
            r.includes == self.includes,
            r.action_bindings == self.action_bindings,
    {
        self.push_typed_input(path, ros_type, None)
    }

    /// Subscribe an input key as the typed message `ros_type` on the
    /// explicit `topic` (an absolute name escapes the namespace).
    pub fn with_typed_input_on(self, path: &str, ros_type: &str, topic: &str) -> (r: Ros2BridgeConfig)
        ensures
            r.typed_inputs@.len() == self.typed_inputs@.len() + 1,
            r.typed_inputs@.drop_last() == self.typed_inputs@,
            r.typed_inputs@.last().path@ == path@,
            r.typed_inputs@.last().ros_type@ == ros_type@,
            r.typed_inputs@.last().topic matches Some(t) && t@ == topic@,
            r.typed_inputs@.last().routes@.len() == 0,
            r.typed_inputs@.last().qos is None,
            r.namespace == self.namespace,
            r.domain_id == self.domain_id,
            r.inputs == self.inputs,
            r.outputs == self.outputs,
            r.includes == self.includes,
            r.action_bindings == self.action_bindings,
    {
        self.push_typed_input(path, ros_type, Some(topic))
    }

    /// Publish an output key as the typed message `ros_type`, on `topic`
    /// when given, else on the `/{namespace}/keys/{path}` convention.
    fn push_typed_output(self, path: &str, ros_type: &str, topic: Option<&str>) -> (r: Ros2BridgeConfig)
        ensures
            r.outputs@.len() == self.outputs@.len() + 1,
            r.outputs@.drop_last() == self.outputs@,
            r.outputs@.last().path@ == path@,
            r.outputs@.last().ros_type@ == ros_type@,
            r.outputs@.last().topic is Some <==> topic is Some,
            topic matches Some(t) ==> r.outputs@.last().topic->0@ == t@,
            r.outputs@.last().qos is None,
            r.namespace == self.namespace,
            r.domain_id == self.domain_id,
            r.inputs == self.inputs,
            r.typed_inputs == self.typed_inputs,
            r.includes == self.includes,
            r.action_bindings == self.action_bindings,
    {
        let mut c = self;
        let topic = match topic {
            Some(t) => Some(String::from_str(t)),
            None => None,
        };
        c.outputs.push(TypedOutput {
            path: String::from_str(path),
            ros_type: String::from_str(ros_type),
            topic,
            qos: None,
        });
        c
    }

    /// Publish an output key as the typed message `ros_type` on the
    /// `/{namespace}/keys/{path}` topic.
    pub fn with_typed_output(self, path: &str, ros_type: &str) -> (r: Ros2BridgeConfig)
        ensures
            r.outputs@.len() == self.outputs@.len() + 1,
            r.outputs@.drop_last() == self.outputs@,
            r.outputs@.last().path@ == path@,
            r.outputs@.last().ros_type@ == ros_type@,
            r.outputs@.last().topic is None,
            r.outputs@.last().qos is None,
            r.namespace == self.namespace,
            r.domain_id == self.domain_id,
            r.inputs == self.inputs,
            r.typed_inputs == self.typed_inputs,
            r.includes == self.includes,
            r.action_bindings == self.action_bindings,
    {
        self.push_typed_output(path, ros_type, None)
    }

    /// Publish an output key as the typed message `ros_type` on the explicit
    /// `topic` (an absolute name escapes the namespace).
    pub fn with_typed_output_on(self, path: &str, ros_type: &str, topic: &str) -> (r: Ros2BridgeConfig)
        ensures
            r.outputs@.len() == self.outputs@.len() + 1,
            r.outputs@.drop_last() == self.outputs@,
            r.outputs@.last().path@ == path@,
            r.outputs@.last().ros_type@ == ros_type@,
            r.outputs@.last().topic matches Some(t) && t@ == topic@,
            r.outputs@.last().qos is None,
            r.namespace == self.namespace,
            r.domain_id == self.domain_id,
            r.inputs == self.inputs,
            r.typed_inputs == self.typed_inputs,
            r.includes == self.includes,
            r.action_bindings == self.action_bindings,
    {
        self.push_typed_output(path, ros_type, Some(topic))
    }

    /// Expose the device through an exposure profile: each inbound endpoint
    /// becomes a typed input on its topic with its field fan-out; each
    /// outbound endpoint with a route becomes a typed output on its topic,
    /// publishing the whole message from its first route's key (one without
    /// a route publishes nothing); the profile's includes and action
    /// bindings are appended to the config's.
    pub fn with_profile(self, profile: ExposureProfile) -> (r: Ros2BridgeConfig)
        ensures
            r.typed_inputs@.len() == self.typed_inputs@.len() + profile_inputs(profile.endpoints@).len(),
            r.typed_inputs@.take(self.typed_inputs@.len() as int) == self.typed_inputs@,
            forall|i: int| 0 <= i < profile_inputs(profile.endpoints@).len() ==> is_endpoint_input(
                #[trigger] r.typed_inputs@[self.typed_inputs@.len() + i],
                profile_inputs(profile.endpoints@)[i],
            ),
            r.outputs@.len() == self.outputs@.len() + profile_outputs(profile.endpoints@).len(),
            r.outputs@.take(self.outputs@.len() as int) == self.outputs@,
            forall|i: int| 0 <= i < profile_outputs(profile.endpoints@).len() ==> is_endpoint_output(
                #[trigger] r.outputs@[self.outputs@.len() + i],
                profile_outputs(profile.endpoints@)[i],
            ),
            r.includes@ == self.includes@ + profile.includes@,
            r.action_bindings@ == self.action_bindings@ + profile.actions@,
            r.namespace == self.namespace,
            r.domain_id == self.domain_id,
            r.inputs == self.inputs,
    {
        let mut c = self;
        let ghost es = profile.endpoints@;
        let ghost ti0 = c.typed_inputs@;
        let ghost out0 = c.outputs@;
        let ExposureProfile { name: _, endpoints, includes, actions } = profile;
        for e in it: endpoints
            invariant
                es == it.seq(),
                c.typed_inputs@.len() == ti0.len() + profile_inputs(es.take(it.index() as int)).len(),
                c.typed_inputs@.take(ti0.len() as int) == ti0,
                forall|i: int| 0 <= i < profile_inputs(es.take(it.index() as int)).len() ==> is_endpoint_input(
                    #[trigger] c.typed_inputs@[ti0.len() + i],
                    profile_inputs(es.take(it.index() as int))[i],
                ),
                c.outputs@.len() == out0.len() + profile_outputs(es.take(it.index() as int)).len(),
                c.outputs@.take(out0.len() as int) == out0,
                forall|i: int| 0 <= i < profile_outputs(es.take(it.index() as int)).len() ==> is_endpoint_output(
                    #[trigger] c.outputs@[out0.len() + i],
                    profile_outputs(es.take(it.index() as int))[i],
                ),
                c.namespace == self.namespace,
                c.domain_id == self.domain_id,
                c.inputs == self.inputs,
                c.includes == self.includes,
                c.action_bindings == self.action_bindings,
        {
            let ghost k = it.index() as int;
            let ghost prev_out = profile_outputs(es.take(k));
            let ghost outs_before = c.outputs@;
            let ghost prev_in = profile_inputs(es.take(k));
            let ghost ins_before = c.typed_inputs@;
            proof {
                assert(es.take(k + 1).drop_last() =~= es.take(k));
                assert(es.take(k + 1).last() == e);
            }
            match e.flow {
                Flow::In => {
                    let topic = e.topic.clone();
                    c.typed_inputs.push(TypedInput {
                        path: e.topic,
                        ros_type: e.ros_type,
                        topic: Some(topic),
                        routes: e.routes,
                        qos: None,
                    });
                    proof {
                        assert(profile_inputs(es.take(k + 1)) == prev_in.push(e));
                        assert(c.typed_inputs@.take(ti0.len() as int) =~= ti0);
                        assert forall|i: int| 0 <= i < profile_inputs(es.take(k + 1)).len() implies is_endpoint_input(
                            #[trigger] c.typed_inputs@[ti0.len() + i],
                            profile_inputs(es.take(k + 1))[i],
                        ) by {
                            if i < prev_in.len() {
                                assert(c.typed_inputs@[ti0.len() + i] == ins_before[ti0.len() + i]);
                            }
                        }
                    }
                },
                Flow::Out => {
                    if e.routes.len() > 0 {
                        let path = e.routes[0].key.clone();
                        c.outputs.push(TypedOutput {
                            path,
                            ros_type: e.ros_type,
                            topic: Some(e.topic),
                            qos: None,
                        });
                        proof {
                            assert(profile_outputs(es.take(k + 1)) == prev_out.push(e));
                            assert(c.outputs@.take(out0.len() as int) =~= out0);
                            assert forall|i: int| 0 <= i < profile_outputs(es.take(k + 1)).len() implies is_endpoint_output(
                                #[trigger] c.outputs@[out0.len() + i],
                                profile_outputs(es.take(k + 1))[i],
                            ) by {
                                if i < prev_out.len() {
                                    assert(c.outputs@[out0.len() + i] == outs_before[out0.len() + i]);
                                }
                            }
                        }
                    }
                },
            }
        }
        proof {
            assert(es.take(es.len() as int) =~= es);
        }
        let mut includes = includes;
        let mut actions = actions;
        c.includes.append(&mut includes);
        c.action_bindings.append(&mut actions);
        c
    }
}

/// The topic the first outbound include of `is` that rewrites `key` gives
/// it, if any.
pub open spec fn include_topic(is: Seq<Include>, key: Seq<char>) -> Option<Seq<char>>
    decreases is.len(),
{
    if is.len() == 0 {
        None
    } else {
        let i = is[0];
        if i.flow == Flow::Out && glob_matches(i.glob@, key) && is_prefix_of(i.strip@, key) {
            Some(i.prefix@ + key.skip(i.strip@.len() as int))
        } else {
            include_topic(is.drop_first(), key)
        }
    }
}

/// The topic an untyped output key publishes on: the first outbound
/// include's rewrite when one matches, else `/{namespace}/keys/{key}`.
pub open spec fn out_topic_spec(namespace: Seq<char>, key: Seq<char>, is: Seq<Include>) -> Seq<char> {
    match include_topic(is, key) {
        Some(t) => t,
        None => "/"@ + namespace + "/keys/"@ + key,
    }
}

/// The topic an untyped output key publishes on (first matching outbound
/// include wins, else the namespace convention).
pub fn out_topic(namespace: &str, key: &str, includes: &Vec<Include>) -> (r: String)
    ensures
        r@ == out_topic_spec(namespace@, key@, includes@),
{
    let mut i: usize = 0;
    assert(includes@.skip(0) =~= includes@);
    while i < includes.len()
        invariant
            i <= includes@.len(),
            include_topic(includes@, key@) == include_topic(includes@.skip(i as int), key@),
        decreases includes@.len() - i,
    {
        proof {
            assert(includes@.skip(i as int).drop_first() =~= includes@.skip(i + 1));
            assert(includes@.skip(i as int)[0] == includes@[i as int]);
        }
        let inc = &includes[i];
        match inc.flow {
            Flow::Out => {
                match inc.rewrite(key) {
                    Some(t) => {
                        return t;
                    },
                    None => {},
                }
            },
            Flow::In => {},
        }
        i += 1;
    }
    proof {
        assert(includes@.skip(includes@.len() as int) =~= Seq::<Include>::empty());
    }
    topic_name(namespace, key)
}

/// The topic a typed output publishes on: its own, else
/// `/{namespace}/keys/{path}`.
pub fn typed_output_topic(namespace: &str, output: &TypedOutput) -> (r: String)
    ensures
        r@ == match output.topic {
            Some(t) => t@,
            None => "/"@ + namespace@ + "/keys/"@ + output.path@,
        },
{
    match &output.topic {
        Some(t) => t.clone(),
        None => topic_name(namespace, output.path.as_str()),
    }
}

/// Whether `topic` is one of the `subscribed` topics. A key whose topic the
/// bridge subscribes to is not published: echoing it back would feed the
/// device its own commands.
pub fn is_echo(topic: &str, subscribed: &Vec<String>) -> (r: bool)
    ensures
        r == exists|i: int| 0 <= i < subscribed@.len() && subscribed@[i]@ == topic@,
{
    let mut i: usize = 0;
    while i < subscribed.len()
        invariant
            i <= subscribed@.len(),
            forall|j: int| 0 <= j < i ==> subscribed@[j]@ != topic@,
        decreases subscribed@.len() - i,
    {
        if str_eq(subscribed[i].as_str(), topic) {
            return true;
        }
        i += 1;
    }
    false
}

} // verus!
