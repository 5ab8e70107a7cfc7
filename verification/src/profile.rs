//! Exposure profiles: which device keys a bridge exposes to ROS 2, under
//! which absolute names, and with which message types; and the delivery
//! profile each endpoint runs under.
use vstd::prelude::*;
use crate::text::{is_prefix_of, starts_with, str_eq, cat};

verus! {

/// The direction of an exposed surface, from the device's point of view.
#[derive(Debug, Clone, Copy, PartialEq, Eq, Structural)]
pub enum Flow {
    /// ROS publishes, the device key receives (a command surface).
    In,
    /// The device key publishes to ROS (a state surface).
    Out,
}

/// One field of a typed endpoint routed to (or from) a device key.
#[derive(Debug, Clone)]
pub struct FieldRoute {
    /// Dotted path into the message; empty routes the whole message.
    pub field: String,
    /// The device key the field lands on (or is read from).
    pub key: String,
}

/// An absolute topic bound to a registered message type, its fields fanned
/// out over device keys.
#[derive(Debug, Clone)]
pub struct Endpoint {
    pub topic: String,
    pub ros_type: String,
    pub flow: Flow,
    pub routes: Vec<FieldRoute>,
}

/// A glob of device keys exposed on the scalar plane, with its prefix
/// rewritten into an absolute topic name.
#[derive(Debug, Clone)]
pub struct Include {
    /// Glob over device keys: `*` matches one path segment, a trailing `**`
    /// matches the rest.
    pub glob: String,
    /// The key prefix removed before publishing.
    pub strip: String,
    /// The topic prefix put in its place.
    pub prefix: String,
    pub flow: Flow,
}

/// A ROS 2 action bound to a device task-run method.
#[derive(Debug, Clone)]
pub struct ActionBinding {
    pub action: String,
    pub ros_type: String,
    pub function: String,
    pub goal_routes: Vec<FieldRoute>,
}

/// A named set of endpoints, includes and action bindings.
#[derive(Debug, Clone)]
pub struct ExposureProfile {
    pub name: String,
    pub endpoints: Vec<Endpoint>,
    pub includes: Vec<Include>,
    pub actions: Vec<ActionBinding>,
}

/// The `/`-separated segments of a path (an empty path is one empty
/// segment, like `str::split`).
pub open spec fn segments(s: Seq<char>) -> Seq<Seq<char>>
    decreases s.len(),
{
    if s.len() == 0 {
        seq![Seq::<char>::empty()]
    } else {
        let rest = segments(s.drop_last());
        if s.last() == '/' {
            rest.push(Seq::<char>::empty())
        } else {
            rest.update(rest.len() - 1, rest.last().push(s.last()))
        }
    }
}

/// Segments always hold at least one segment.
proof fn lemma_segments_nonempty(s: Seq<char>)
    ensures
        segments(s).len() >= 1,
    decreases s.len(),
{
    if s.len() > 0 {
        lemma_segments_nonempty(s.drop_last());
    }
}

/// Segment-wise glob match: `*` matches one segment, a final `**` the rest.
pub open spec fn glob_segments_match(g: Seq<Seq<char>>, p: Seq<Seq<char>>) -> bool
    decreases g.len(),
{
    if g.len() == 0 {
        p.len() == 0
    } else if g[0] == seq!['*', '*'] && g.len() == 1 {
        true
    } else if p.len() == 0 {
        false
    } else if g[0] == seq!['*'] || g[0] == p[0] {
        glob_segments_match(g.drop_first(), p.drop_first())
    } else {
        false
    }
}

/// Glob match over `/`-separated key paths.
pub open spec fn glob_matches(glob: Seq<char>, path: Seq<char>) -> bool {
    glob_segments_match(segments(glob), segments(path))
}

/// The segments of a string, as character vectors.
fn split_segments(s: &str) -> (r: Vec<Vec<char>>)
    ensures
        r@.len() == segments(s@).len(),
        forall|i: int| 0 <= i < r@.len() ==> (#[trigger] r@[i])@ == segments(s@)[i],
{
    let n = s.unicode_len();
    let mut out: Vec<Vec<char>> = Vec::new();
    out.push(Vec::new());
    let mut i: usize = 0;
    assert(s@.subrange(0, 0) =~= Seq::<char>::empty());
    while i < n
        invariant
            n == s@.len(),
            i <= n,
            out@.len() == segments(s@.subrange(0, i as int)).len(),
            out@.len() >= 1,
            forall|q: int| 0 <= q < out@.len() ==> (#[trigger] out@[q])@ == segments(s@.subrange(0, i as int))[q],
        decreases n - i,
    {
        let c = s.get_char(i);
        let ghost pre = s@.subrange(0, i as int);
        let ghost next = s@.subrange(0, i + 1);
        assert(next.drop_last() =~= pre);
        assert(next.last() == c);
        if c == '/' {
            out.push(Vec::new());
            assert forall|q: int| 0 <= q < out@.len() implies (#[trigger] out@[q])@ == segments(next)[q] by {
                if q == out@.len() - 1 {
                    assert(out@[q]@ =~= Seq::<char>::empty());
                }
            }
        } else {
            let last = out.len() - 1;
            let mut seg: Vec<char> = Vec::new();
            std::mem::swap(&mut seg, &mut out[last]);
            let ghost seg0 = seg@;
            seg.push(c);
            std::mem::swap(&mut seg, &mut out[last]);
            assert forall|q: int| 0 <= q < out@.len() implies (#[trigger] out@[q])@ == segments(next)[q] by {
                if q == last {
                    assert(out@[q]@ =~= seg0.push(c));
                }
            }
        }
        i += 1;
    }
    assert(s@.subrange(0, n as int) =~= s@);
    out
}

/// Whether two character vectors are equal.
fn chars_eq(a: &Vec<char>, b: &Vec<char>) -> (r: bool)
    ensures
        r == (a@ == b@),
{
    if a.len() != b.len() {
        return false;
    }
    let mut i: usize = 0;
    while i < a.len()
        invariant
            a@.len() == b@.len(),
            i <= a@.len(),
            forall|j: int| 0 <= j < i ==> a@[j] == b@[j],
        decreases a@.len() - i,
    {
        if a[i] != b[i] {
            return false;
        }
        i += 1;
    }
    assert(a@ =~= b@);
    true
}

/// Whether a segment is the single character `c`.
fn is_single(a: &Vec<char>, c: char) -> (r: bool)
    ensures
        r == (a@ == seq![c]),
{
    if a.len() == 1 && a[0] == c {
        assert(a@ =~= seq![c]);
        true
    } else {
        false
    }
}

/// Whether a segment is `**`.
fn is_double_star(a: &Vec<char>) -> (r: bool)
    ensures
        r == (a@ == seq!['*', '*']),
{
    if a.len() == 2 && a[0] == '*' && a[1] == '*' {
        assert(a@ =~= seq!['*', '*']);
        true
    } else {
        false
    }
}

/// Glob match over `/`-separated key paths: `*` matches exactly one
/// segment, a trailing `**` matches the rest (including nothing). No other
/// wildcards.
pub fn glob_match(glob: &str, path: &str) -> (r: bool)
    ensures
        r == glob_matches(glob@, path@),
{
    let g = split_segments(glob);
    let p = split_segments(path);
    let ghost gs = segments(glob@);
    let ghost ps = segments(path@);
    let mut gi: usize = 0;
    let mut pi: usize = 0;
    assert(gs.skip(0) =~= gs);
    assert(ps.skip(0) =~= ps);
    while gi < g.len()
        invariant
            gs == segments(glob@),
            ps == segments(path@),
            g@.len() == gs.len(),
            p@.len() == ps.len(),
            forall|i: int| 0 <= i < g@.len() ==> (#[trigger] g@[i])@ == gs[i],
            forall|i: int| 0 <= i < p@.len() ==> (#[trigger] p@[i])@ == ps[i],
            gi <= g@.len(),
            pi <= p@.len(),
            glob_segments_match(gs, ps) == glob_segments_match(gs.skip(gi as int), ps.skip(pi as int)),
        decreases g@.len() - gi,
    {
        let ghost gr = gs.skip(gi as int);
        let ghost pr = ps.skip(pi as int);
        assert(gr[0] == gs[gi as int]);
        assert(gr.len() == g@.len() - gi);
        assert(pr.len() == p@.len() - pi);
        if is_double_star(&g[gi]) && gi + 1 == g.len() {
            assert(glob_segments_match(gr, pr));
            return true;
        }
        if pi >= p.len() {
            assert(pr.len() == 0);
            assert(!glob_segments_match(gr, pr));
            return false;
        }
        assert(pr[0] == ps[pi as int]);
        if is_single(&g[gi], '*') || chars_eq(&g[gi], &p[pi]) {
            assert(gr.drop_first() =~= gs.skip(gi + 1));
            assert(pr.drop_first() =~= ps.skip(pi + 1));
            gi += 1;
            pi += 1;
        } else {
            assert(!glob_segments_match(gr, pr));
            return false;
        }
    }
    assert(gs.skip(gi as int).len() == 0);
    assert(ps.skip(pi as int).len() == p@.len() - pi);
    assert(glob_segments_match(gs.skip(gi as int), ps.skip(pi as int)) == (pi >= p@.len()));
    pi >= p.len()
}

impl Include {
    /// The absolute topic a matching `key` publishes under: the include's
    /// prefix followed by the key without its `strip` prefix. `None` when the
    /// key does not match the glob or does not start with `strip`.
    pub fn rewrite(&self, key: &str) -> (r: Option<String>)
        ensures
            r is Some <==> glob_matches(self.glob@, key@) && is_prefix_of(self.strip@, key@),
            r matches Some(t) ==> t@ == self.prefix@ + key@.skip(self.strip@.len() as int),
    {
        if !glob_match(self.glob.as_str(), key) {
            return None;
        }
        if !starts_with(key, self.strip.as_str()) {
            return None;
        }
        let n = self.strip.as_str().unicode_len();
        let m = key.unicode_len();
        let rest = key.substring_char(n, m);
        assert(key@.subrange(n as int, m as int) =~= key@.skip(n as int));
        Some(cat(self.prefix.as_str(), rest))
    }
}

/// Whether `xs` holds a string equal to `x`.
pub open spec fn contains_str(xs: Seq<&str>, x: Seq<char>) -> bool {
    exists|i: int| 0 <= i < xs.len() && (#[trigger] xs[i])@ == x
}

/// Whether `xs` holds a string matching `glob`.
pub open spec fn any_matches(xs: Seq<&str>, glob: Seq<char>) -> bool {
    exists|i: int| 0 <= i < xs.len() && glob_matches(glob, (#[trigger] xs[i])@)
}

/// Whether some string in `xs` equals `x`.
fn has_str(xs: &[&str], x: &str) -> (r: bool)
    ensures
        r == contains_str(xs@, x@),
{
    let mut i: usize = 0;
    while i < xs.len()
        invariant
            i <= xs@.len(),
            forall|j: int| 0 <= j < i ==> (#[trigger] xs@[j])@ != x@,
        decreases xs@.len() - i,
    {
        if str_eq(xs[i], x) {
            return true;
        }
        i += 1;
    }
    false
}

/// Whether some string in `xs` matches `glob`.
fn has_match(xs: &[&str], glob: &str) -> (r: bool)
    ensures
        r == any_matches(xs@, glob@),
{
    let mut i: usize = 0;
    while i < xs.len()
        invariant
            i <= xs@.len(),
            forall|j: int| 0 <= j < i ==> !glob_matches(glob@, (#[trigger] xs@[j])@),
        decreases xs@.len() - i,
    {
        if glob_match(glob, xs[i]) {
            return true;
        }
        i += 1;
    }
    false
}

/// The report line for a route key the device lacks.
pub open spec fn missing_key_line(topic: Seq<char>, ros_type: Seq<char>, key: Seq<char>) -> Seq<char> {
    topic + " ("@ + ros_type + "): no device key '"@ + key + "'"@
}

/// The report line for an include matching no device key.
pub open spec fn missing_include_line(glob: Seq<char>) -> Seq<char> {
    "include '"@ + glob + "': no matching device key"@
}

/// The report line for an action whose method the device lacks.
pub open spec fn missing_method_line(action: Seq<char>, ros_type: Seq<char>, function: Seq<char>) -> Seq<char> {
    action + " ("@ + ros_type + "): no device method '"@ + function + "'"@
}

/// The lines for the route keys of one endpoint the device lacks, in order.
pub open spec fn route_gaps(topic: Seq<char>, ros_type: Seq<char>, routes: Seq<FieldRoute>, keys: Seq<&str>) -> Seq<Seq<char>>
    decreases routes.len(),
{
    if routes.len() == 0 {
        seq![]
    } else {
        let prev = route_gaps(topic, ros_type, routes.drop_last(), keys);
        let r = routes.last();
        if contains_str(keys, r.key@) {
            prev
        } else {
            prev.push(missing_key_line(topic, ros_type, r.key@))
        }
    }
}

/// The route-key lines of every endpoint, endpoint by endpoint.
pub open spec fn endpoint_gaps(es: Seq<Endpoint>, keys: Seq<&str>) -> Seq<Seq<char>>
    decreases es.len(),
{
    if es.len() == 0 {
        seq![]
    } else {
        let e = es.last();
        endpoint_gaps(es.drop_last(), keys) + route_gaps(e.topic@, e.ros_type@, e.routes@, keys)
    }
}

/// The lines for the includes matching no key, in order.
pub open spec fn include_gaps(is: Seq<Include>, keys: Seq<&str>) -> Seq<Seq<char>>
    decreases is.len(),
{
    if is.len() == 0 {
        seq![]
    } else {
        let prev = include_gaps(is.drop_last(), keys);
        if any_matches(keys, is.last().glob@) {
            prev
        } else {
            prev.push(missing_include_line(is.last().glob@))
        }
    }
}

/// The lines for the actions whose method the device lacks, in order.
pub open spec fn action_gaps(acts: Seq<ActionBinding>, functions: Seq<&str>) -> Seq<Seq<char>>
    decreases acts.len(),
{
    if acts.len() == 0 {
        seq![]
    } else {
        let prev = action_gaps(acts.drop_last(), functions);
        let b = acts.last();
        if contains_str(functions, b.function@) {
            prev
        } else {
            prev.push(missing_method_line(b.action@, b.ros_type@, b.function@))
        }
    }
}

/// What a device with key set `keys` and method names `functions` does not
/// serve of profile `p`: endpoint route keys, then includes, then actions.
pub open spec fn coverage_spec(p: ExposureProfile, keys: Seq<&str>, functions: Seq<&str>) -> Seq<Seq<char>> {
    endpoint_gaps(p.endpoints@, keys) + include_gaps(p.includes@, keys) + action_gaps(p.actions@, functions)
}

/// The views of a vector of strings.
pub open spec fn views(v: Seq<String>) -> Seq<Seq<char>> {
    v.map_values(|s: String| s@)
}

/// Append `line` to `out`.
fn push_line(out: &mut Vec<String>, line: String)
    ensures
        views(final(out)@) == views(old(out)@).push(line@),
{
    out.push(line);
    assert(views(out@) =~= views(old(out)@).push(line@));
}

impl ExposureProfile {
    /// What the device does not serve of this profile: the endpoint route
    /// keys absent from `keys`, the include globs matching none of `keys`,
    /// and the action bindings whose function is absent from `functions`.
    /// Empty means full coverage.
    pub fn coverage(&self, keys: &[&str], functions: &[&str]) -> (missing: Vec<String>)
        ensures
            views(missing@) == coverage_spec(*self, keys@, functions@),
    {
        let mut missing: Vec<String> = Vec::new();
        let mut e: usize = 0;
        assert(self.endpoints@.take(0) =~= Seq::<Endpoint>::empty());
        while e < self.endpoints.len()
            invariant
                e <= self.endpoints@.len(),
                views(missing@) == endpoint_gaps(self.endpoints@.take(e as int), keys@),
            decreases self.endpoints@.len() - e,
        {
            let endpoint = &self.endpoints[e];
            let ghost base = views(missing@);
            let mut r: usize = 0;
            assert(endpoint.routes@.take(0) =~= Seq::<FieldRoute>::empty());
            while r < endpoint.routes.len()
                invariant
                    r <= endpoint.routes@.len(),
                    views(missing@) == base + route_gaps(endpoint.topic@, endpoint.ros_type@, endpoint.routes@.take(r as int), keys@),
                decreases endpoint.routes@.len() - r,
            {
                let route = &endpoint.routes[r];
                let ghost rs = endpoint.routes@.take(r + 1);
                assert(rs.drop_last() =~= endpoint.routes@.take(r as int));
                assert(rs.last() == *route);
                if !has_str(keys, route.key.as_str()) {
                    let a = cat(endpoint.topic.as_str(), " (");
                    let b = a.concat(endpoint.ros_type.as_str());
                    let c = b.concat("): no device key '");
                    let d = c.concat(route.key.as_str());
                    let line = d.concat("'");
                    push_line(&mut missing, line);
                }
                r += 1;
            }
            proof {
                let es = self.endpoints@.take(e + 1);
                assert(es.drop_last() =~= self.endpoints@.take(e as int));
                assert(es.last() == *endpoint);
                assert(endpoint.routes@.take(endpoint.routes@.len() as int) =~= endpoint.routes@);
            }
            e += 1;
        }
        assert(self.endpoints@.take(self.endpoints@.len() as int) =~= self.endpoints@);
        let ghost after_endpoints = views(missing@);
        let mut k: usize = 0;
        assert(self.includes@.take(0) =~= Seq::<Include>::empty());
        while k < self.includes.len()
            invariant
                k <= self.includes@.len(),
                views(missing@) == after_endpoints + include_gaps(self.includes@.take(k as int), keys@),
            decreases self.includes@.len() - k,
        {
            let inc = &self.includes[k];
            let ghost is = self.includes@.take(k + 1);
            assert(is.drop_last() =~= self.includes@.take(k as int));
            assert(is.last() == *inc);
            if !has_match(keys, inc.glob.as_str()) {
                let a = cat("include '", inc.glob.as_str());
                let line = a.concat("': no matching device key");
                push_line(&mut missing, line);
            }
            k += 1;
        }
        assert(self.includes@.take(self.includes@.len() as int) =~= self.includes@);
        let ghost after_includes = views(missing@);
        let mut b: usize = 0;
        assert(self.actions@.take(0) =~= Seq::<ActionBinding>::empty());
        while b < self.actions.len()
            invariant
                b <= self.actions@.len(),
                views(missing@) == after_includes + action_gaps(self.actions@.take(b as int), functions@),
            decreases self.actions@.len() - b,
        {
            let binding = &self.actions[b];
            let ghost bs = self.actions@.take(b + 1);
            assert(bs.drop_last() =~= self.actions@.take(b as int));
            assert(bs.last() == *binding);
            if !has_str(functions, binding.function.as_str()) {
                let a = cat(binding.action.as_str(), " (");
                let c = a.concat(binding.ros_type.as_str());
                let d = c.concat("): no device method '");
                let f = d.concat(binding.function.as_str());
                let line = f.concat("'");
                push_line(&mut missing, line);
            }
            b += 1;
        }
        assert(self.actions@.take(self.actions@.len() as int) =~= self.actions@);
        missing
    }
}

/// How a ROS 2 endpoint delivers its samples.
#[derive(Debug, Clone, Copy, PartialEq, Eq, Structural)]
pub enum Qos {
    /// Continuous state: best-effort, volatile, keep-last-1.
    SensorData,
    /// Commands and one-shot values: reliable, volatile, keep-last-1.
    Reliable,
}

impl Qos {
    /// What an endpoint gets when it declares nothing: state flowing out is
    /// sensor data, commands flowing in are reliable.
    pub fn default_for(flow: Flow) -> (r: Qos)
        ensures
            r == (match flow {
                Flow::Out => Qos::SensorData,
                Flow::In => Qos::Reliable,
            }),
    {
        match flow {
            Flow::Out => Qos::SensorData,
            Flow::In => Qos::Reliable,
        }
    }
}

/// A route has this field path and key.
pub open spec fn route_is(r: FieldRoute, field: Seq<char>, key: Seq<char>) -> bool {
    r.field@ == field && r.key@ == key
}

/// A field route from literal names.
fn route(field: &str, key: &str) -> (r: FieldRoute)
    ensures
        route_is(r, field@, key@),
{
    FieldRoute { field: String::from_str(field), key: String::from_str(key) }
}

/// An inbound endpoint.
fn inbound(topic: &str, ros_type: &str, routes: Vec<FieldRoute>) -> (e: Endpoint)
    ensures
        e.topic@ == topic@,
        e.ros_type@ == ros_type@,
        e.flow == Flow::In,
        e.routes == routes,
{
    Endpoint { topic: String::from_str(topic), ros_type: String::from_str(ros_type), flow: Flow::In, routes }
}

/// Expression commands onto the face standard's expression keys.
fn expression_routes() -> (r: Vec<FieldRoute>)
    ensures
        r@.len() == 3,
        route_is(r@[0], "expression"@, "standard/ros4hri/expression/name"@),
        route_is(r@[1], "valence"@, "standard/ros4hri/expression/valence"@),
        route_is(r@[2], "arousal"@, "standard/ros4hri/expression/arousal"@),
{
    let mut r: Vec<FieldRoute> = Vec::new();
    r.push(route("expression", "standard/ros4hri/expression/name"));
    r.push(route("valence", "standard/ros4hri/expression/valence"));
    r.push(route("arousal", "standard/ros4hri/expression/arousal"));
    r
}

/// Look-at points onto the gaze target and frame keys.
fn look_at_routes() -> (r: Vec<FieldRoute>)
    ensures
        r@.len() == 2,
        route_is(r@[0], "point"@, "standard/ros4hri/gaze/target"@),
        route_is(r@[1], "header.frame_id"@, "standard/ros4hri/gaze/frame"@),
{
    let mut r: Vec<FieldRoute> = Vec::new();
    r.push(route("point", "standard/ros4hri/gaze/target"));
    r.push(route("header.frame_id", "standard/ros4hri/gaze/frame"));
    r
}

/// Speech text onto the lipsync feed key.
fn speech_routes() -> (r: Vec<FieldRoute>)
    ensures
        r@.len() == 1,
        route_is(r@[0], "data"@, "standard/ros4hri/speech/text"@),
{
    let mut r: Vec<FieldRoute> = Vec::new();
    r.push(route("data", "standard/ros4hri/speech/text"));
    r
}

/// The look-at skill's goal fields onto its parameters.
fn look_at_goal_routes() -> (r: Vec<FieldRoute>)
    ensures
        r@.len() == 3,
        route_is(r@[0], "policy"@, "policy"@),
        route_is(r@[1], "target.point"@, "target"@),
        route_is(r@[2], "target.header.frame_id"@, "frame"@),
{
    let mut r: Vec<FieldRoute> = Vec::new();
    r.push(route("policy", "policy"));
    r.push(route("target.point", "target"));
    r.push(route("target.header.frame_id", "frame"));
    r
}

/// The content of the ROS4HRI preset.
pub open spec fn is_ros4hri(p: ExposureProfile) -> bool {
    &&& p.name@ == "ros4hri"@
    &&& p.endpoints@.len() == 5
    &&& p.includes@.len() == 0
    &&& p.actions@.len() == 1
    &&& p.endpoints@[0].topic@ == "/robot_face/expression"@
    &&& p.endpoints@[0].ros_type@ == "hri_msgs/Expression"@
    &&& p.endpoints@[0].flow == Flow::In
    &&& p.endpoints@[0].routes@.len() == 3
    &&& route_is(p.endpoints@[0].routes@[0], "expression"@, "standard/ros4hri/expression/name"@)
    &&& route_is(p.endpoints@[0].routes@[1], "valence"@, "standard/ros4hri/expression/valence"@)
    &&& route_is(p.endpoints@[0].routes@[2], "arousal"@, "standard/ros4hri/expression/arousal"@)
    &&& p.endpoints@[1].topic@ == "/robot_face/look_at"@
    &&& p.endpoints@[1].ros_type@ == "geometry_msgs/PointStamped"@
    &&& p.endpoints@[1].flow == Flow::In
    &&& p.endpoints@[1].routes@.len() == 2
    &&& route_is(p.endpoints@[1].routes@[0], "point"@, "standard/ros4hri/gaze/target"@)
    &&& route_is(p.endpoints@[1].routes@[1], "header.frame_id"@, "standard/ros4hri/gaze/frame"@)
    &&& p.endpoints@[2].topic@ == "/expressive_face/look_at"@
    &&& p.endpoints@[2].ros_type@ == "geometry_msgs/PointStamped"@
    &&& p.endpoints@[2].flow == Flow::In
    &&& p.endpoints@[2].routes@.len() == 2
    &&& route_is(p.endpoints@[2].routes@[0], "point"@, "standard/ros4hri/gaze/target"@)
    &&& route_is(p.endpoints@[2].routes@[1], "header.frame_id"@, "standard/ros4hri/gaze/frame"@)
    &&& p.endpoints@[3].topic@ == "/robot_face/tts"@
    &&& p.endpoints@[3].ros_type@ == "std_msgs/String"@
    &&& p.endpoints@[3].flow == Flow::In
    &&& p.endpoints@[3].routes@.len() == 1
    &&& route_is(p.endpoints@[3].routes@[0], "data"@, "standard/ros4hri/speech/text"@)
    &&& p.endpoints@[4].topic@ == "/expressive_face/speech"@
    &&& p.endpoints@[4].ros_type@ == "std_msgs/String"@
    &&& p.endpoints@[4].flow == Flow::In
    &&& p.endpoints@[4].routes@.len() == 1
    &&& route_is(p.endpoints@[4].routes@[0], "data"@, "standard/ros4hri/speech/text"@)
    &&& p.actions@[0].action@ == "/skill/look_at"@
    &&& p.actions@[0].ros_type@ == "interaction_skills/LookAt"@
    &&& p.actions@[0].function@ == "look_at"@
    &&& p.actions@[0].goal_routes@.len() == 3
    &&& route_is(p.actions@[0].goal_routes@[0], "policy"@, "policy"@)
    &&& route_is(p.actions@[0].goal_routes@[1], "target.point"@, "target"@)
    &&& route_is(p.actions@[0].goal_routes@[2], "target.header.frame_id"@, "frame"@)
}

impl ExposureProfile {
    /// The ROS4HRI face surface, serving both incumbent name sets — PAL
    /// (`/robot_face/*`) and IIIA (`/expressive_face/*`): expression commands,
    /// look-at points, speech text, and the `/skill/look_at` action bound to
    /// the device's `look_at` task run. No bulk includes.
    pub fn ros4hri() -> (p: ExposureProfile)
        ensures
            is_ros4hri(p),
    {
        let mut endpoints: Vec<Endpoint> = Vec::new();
        endpoints.push(inbound("/robot_face/expression", "hri_msgs/Expression", expression_routes()));
        endpoints.push(inbound("/robot_face/look_at", "geometry_msgs/PointStamped", look_at_routes()));
        endpoints.push(inbound("/expressive_face/look_at", "geometry_msgs/PointStamped", look_at_routes()));
        endpoints.push(inbound("/robot_face/tts", "std_msgs/String", speech_routes()));
        endpoints.push(inbound("/expressive_face/speech", "std_msgs/String", speech_routes()));
        let mut actions: Vec<ActionBinding> = Vec::new();
        actions.push(ActionBinding {
            action: String::from_str("/skill/look_at"),
            ros_type: String::from_str("interaction_skills/LookAt"),
            function: String::from_str("look_at"),
            goal_routes: look_at_goal_routes(),
        });
        ExposureProfile { name: String::from_str("ros4hri"), endpoints, includes: Vec::new(), actions }
    }
}

/// A glob without `**` matches a path exactly when both have the same
/// number of segments and each glob segment is `*` or equals the path's
/// segment at the same place: `*` stands for exactly one segment.
pub proof fn lemma_glob_without_double_star(g: Seq<Seq<char>>, p: Seq<Seq<char>>)
    requires
        forall|i: int| 0 <= i < g.len() ==> #[trigger] g[i] != seq!['*', '*'],
    ensures
        glob_segments_match(g, p) <==> (g.len() == p.len() && forall|i: int|
            0 <= i < g.len() ==> #[trigger] g[i] == seq!['*'] || g[i] == p[i]),
    decreases g.len(),
{
    if g.len() > 0 && p.len() > 0 {
        let g1 = g.drop_first();
        let p1 = p.drop_first();
        assert forall|i: int| 0 <= i < g1.len() implies #[trigger] g1[i] != seq!['*', '*'] by {
            assert(g1[i] == g[i + 1]);
        }
        lemma_glob_without_double_star(g1, p1);
        if g.len() == p.len() && (g[0] == seq!['*'] || g[0] == p[0]) {
            if forall|i: int| 0 <= i < g1.len() ==> #[trigger] g1[i] == seq!['*'] || g1[i] == p1[i] {
                assert forall|i: int| 0 <= i < g.len() implies #[trigger] g[i] == seq!['*'] || g[i] == p[i] by {
                    if i > 0 {
                        assert(g1[i - 1] == g[i]);
                        assert(p1[i - 1] == p[i]);
                    }
                }
            }
            if forall|i: int| 0 <= i < g.len() ==> #[trigger] g[i] == seq!['*'] || g[i] == p[i] {
                assert forall|i: int| 0 <= i < g1.len() implies #[trigger] g1[i] == seq!['*'] || g1[i] == p1[i] by {
                    assert(g[i + 1] == seq!['*'] || g[i + 1] == p[i + 1]);
                }
            }
        }
        if !(g[0] == seq!['*'] || g[0] == p[0]) {
            assert(!(g[0] == seq!['*'] || g[0] == p[0]));
        }
    } else if g.len() > 0 {
        assert(g[0] != seq!['*', '*']);
    }
}

/// A glob path without a `**` segment matches only paths with as many
/// `/`-separated segments as it has.
pub proof fn lemma_glob_match_same_segment_count(glob: Seq<char>, path: Seq<char>)
    requires
        forall|i: int| 0 <= i < segments(glob).len() ==> #[trigger] segments(glob)[i] != seq!['*', '*'],
        glob_matches(glob, path),
    ensures
        segments(glob).len() == segments(path).len(),
{
    lemma_glob_without_double_star(segments(glob), segments(path));
}

/// The route-key lines of an endpoint are exactly one line per route whose
/// key the device lacks, in route order: the absent routes, each rendered
/// as its missing-key line.
pub proof fn lemma_route_gaps_one_line_per_absent_key(topic: Seq<char>, ros_type: Seq<char>, routes: Seq<FieldRoute>, keys: Seq<&str>)
    ensures
        route_gaps(topic, ros_type, routes, keys) == routes.filter(|r: FieldRoute| !contains_str(keys, r.key@)).map_values(
            |r: FieldRoute| missing_key_line(topic, ros_type, r.key@),
        ),
    decreases routes.len(),
{
    reveal_with_fuel(Seq::<FieldRoute>::filter, 1);
    if routes.len() > 0 {
        lemma_route_gaps_one_line_per_absent_key(topic, ros_type, routes.drop_last(), keys);
        let pred = |r: FieldRoute| !contains_str(keys, r.key@);
        let f = |r: FieldRoute| missing_key_line(topic, ros_type, r.key@);
        let sub = routes.drop_last().filter(pred);
        if pred(routes.last()) {
            assert(sub.push(routes.last()).map_values(f) =~= sub.map_values(f).push(f(routes.last())));
        }
    } else {
        assert(routes.filter(|r: FieldRoute| !contains_str(keys, r.key@)) =~= Seq::<FieldRoute>::empty());
    }
}

/// The coverage report's endpoint part has one line for each route key,
/// over all endpoints, that the device lacks.
pub proof fn lemma_endpoint_gaps_count(es: Seq<Endpoint>, keys: Seq<&str>)
    ensures
        endpoint_gaps(es, keys).len() == es.map_values(
            |e: Endpoint| e.routes@.filter(|r: FieldRoute| !contains_str(keys, r.key@)).len() as int,
        ).fold_left(0int, |acc: int, n: int| acc + n),
    decreases es.len(),
{
    if es.len() > 0 {
        let e = es.last();
        lemma_endpoint_gaps_count(es.drop_last(), keys);
        lemma_route_gaps_one_line_per_absent_key(e.topic@, e.ros_type@, e.routes@, keys);
        let f = |e: Endpoint| e.routes@.filter(|r: FieldRoute| !contains_str(keys, r.key@)).len() as int;
        assert(es.map_values(f).drop_last() =~= es.drop_last().map_values(f));
    }
}

} // verus!
