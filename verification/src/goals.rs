//! The goal lifecycle of a device's actions: accepted goals, advanced by the
//! run's status key on the outbound state stream, canceled per the ROS cancel
//! policy, and resolved for late result requests.
//!
//! The book is pure state: whoever serves the action feeds it requests and
//! state changes and acts on what it returns.
use vstd::prelude::*;
use crate::value::{Value, Call, StructureField};
use crate::status::{Status, status_of_value, STATUS_ENUMERATION_ID, STATUS_SUCCESS_VARIANT_ID,
    STATUS_FAILURE_VARIANT_ID, STATUS_RUNNING_VARIANT_ID};
use crate::outbound::StateChange;
use crate::text::str_eq;

verus! {

/// Nanoseconds per second.
pub const NANOS_PER_SEC: u64 = 1_000_000_000;

/// A ROS time stamp: whole seconds and the nanoseconds past them.
#[derive(Debug, Clone, Copy, PartialEq, Eq, Structural)]
pub struct Time {
    pub sec: i32,
    pub nanosec: u32,
}

/// `a` is at or before `b`, seconds first, then nanoseconds.
pub open spec fn time_le(a: Time, b: Time) -> bool {
    a.sec < b.sec || (a.sec == b.sec && a.nanosec <= b.nanosec)
}

/// The instant a time stamp denotes, in nanoseconds.
pub open spec fn time_nanos(t: Time) -> int {
    t.sec * 1_000_000_000 + t.nanosec
}

impl Time {
    /// The zero stamp, which a cancel request uses to mean "no stamp".
    pub fn zero() -> (r: Time)
        ensures
            r == (Time { sec: 0, nanosec: 0 }),
    {
        Time { sec: 0, nanosec: 0 }
    }

    /// The stamp `nanos` nanoseconds after the epoch (before it, if
    /// negative), with its nanoseconds in `0..1e9`.
    pub fn from_nanos(nanos: i64) -> (r: Time)
        requires
            -2147483648 * 1_000_000_000 <= nanos < 2147483648 * 1_000_000_000,
        ensures
            time_nanos(r) == nanos,
            r.nanosec < 1_000_000_000,
    {
        if nanos >= 0 {
            let n = nanos as u64;
            let q = n / NANOS_PER_SEC;
            let r = n % NANOS_PER_SEC;
            assert(q * 1_000_000_000 + r == n) by (nonlinear_arith)
                requires
                    q == n / 1_000_000_000,
                    r == n % 1_000_000_000,
            ;
            assert(q < 2147483648) by (nonlinear_arith)
                requires
                    q == n / 1_000_000_000,
                    n < 2147483648 * 1_000_000_000,
            ;
            Time { sec: q as i32, nanosec: r as u32 }
        } else {
            let m = (-(nanos + 1)) as u64;
            let q = m / NANOS_PER_SEC;
            let r = m % NANOS_PER_SEC;
            assert(q * 1_000_000_000 + r == m) by (nonlinear_arith)
                requires
                    q == m / 1_000_000_000,
                    r == m % 1_000_000_000,
            ;
            assert(q < 2147483648) by (nonlinear_arith)
                requires
                    q == m / 1_000_000_000,
                    m < 2147483648 * 1_000_000_000,
            ;
            let sec: i32 = -1 - (q as i32);
            Time { sec, nanosec: (999_999_999 - r) as u32 }
        }
    }

    /// Whether this stamp is at or before `other`.
    pub fn le(&self, other: &Time) -> (r: bool)
        ensures
            r == time_le(*self, *other),
    {
        self.sec < other.sec || (self.sec == other.sec && self.nanosec <= other.nanosec)
    }
}

/// The ROS status of a goal.
#[derive(Debug, Clone, Copy, PartialEq, Eq, Structural)]
pub enum GoalStatus {
    Unknown,
    Accepted,
    Executing,
    Canceling,
    Succeeded,
    Canceled,
    Aborted,
}

/// Whether a goal status is final.
pub open spec fn is_terminal(s: GoalStatus) -> bool {
    s is Succeeded || s is Aborted || s is Canceled
}

/// Why a run was halted from this side: the caller's cancel, or a
/// replacement goal preempting it.
#[derive(Debug, Clone, Copy, PartialEq, Eq, Structural)]
pub enum HaltCause {
    /// The caller canceled the goal.
    Cancel,
    /// An equal-or-higher-priority goal replaced the run.
    Preempt,
}

/// The error code a terminal goal answers with when its run wrote none.
#[derive(Debug, Clone, Copy, PartialEq, Eq, Structural)]
pub enum Errno {
    /// Success.
    NoError,
    /// The caller canceled the goal.
    Canceled,
    /// A replacement goal preempted the run.
    Interrupted,
    /// The run failed on its own.
    Other,
}

/// The errno of a terminal goal: success answers no error, a caller cancel
/// `Canceled`, a preemption `Interrupted`, a spontaneous failure `Other`.
pub open spec fn errno_spec(status: GoalStatus, cause: Option<HaltCause>) -> Errno {
    match status {
        GoalStatus::Succeeded => Errno::NoError,
        GoalStatus::Canceled => Errno::Canceled,
        _ => match cause {
            Some(HaltCause::Preempt) => Errno::Interrupted,
            _ => Errno::Other,
        },
    }
}

/// The errno a terminal goal answers with when its run wrote none.
pub fn errno_of(status: GoalStatus, cause: Option<HaltCause>) -> (r: Errno)
    ensures
        r == errno_spec(status, cause),
{
    match status {
        GoalStatus::Succeeded => Errno::NoError,
        GoalStatus::Canceled => Errno::Canceled,
        _ => match cause {
            Some(HaltCause::Preempt) => Errno::Interrupted,
            _ => Errno::Other,
        },
    }
}

/// What the run wrote that the serving side must act on.
#[derive(Debug, PartialEq)]
pub enum GoalEvent {
    /// The goal reached a terminal status.
    Terminal { goal_id: [u8; 16] },
    /// The run wrote fresh feedback.
    Feedback { goal_id: [u8; 16], value: Value },
}

/// One accepted goal: the serving side's view of a task run.
#[derive(Debug)]
pub struct Goal {
    /// The acceptance stamp.
    pub accepted: Time,
    /// The goal's call priority, the arbiter between a goal and its
    /// replacement.
    pub priority: u8,
    /// The run's per-goal keys.
    pub status_key: String,
    pub feedback_keys: Vec<String>,
    pub result_keys: Vec<String>,
    /// The call that halts the run.
    pub stop: Call,
    /// The goal's ROS status.
    pub status: GoalStatus,
    /// Set once this side halted the run.
    pub halt_cause: Option<HaltCause>,
    /// The last value seen on a result key.
    pub result: Option<Value>,
}

/// What a call is, for comparing a copy with the call it copies: its target and
/// its arguments.
pub open spec fn call_view(c: Call) -> (Option<u128>, u128, Seq<StructureField>) {
    (c.module_id, c.id, c.args@)
}

/// A copy of `c`.
pub fn duplicate_call(c: &Call) -> (r: Call)
    ensures
        call_view(r) == call_view(*c),
{
    let mut args: Vec<StructureField> = Vec::new();
    for i in 0..c.args.len()
        invariant
            args@.len() == i,
            i <= c.args@.len(),
            forall|j: int| 0 <= j < i ==> args@[j] == c.args@[j],
    {
        args.push(StructureField { id: c.args[i].id, value: c.args[i].value.duplicate() });
    }
    assert(args@ =~= c.args@);
    Call { module_id: c.module_id, id: c.id, args }
}

/// Whether two goal ids are the same.
pub fn same_id(a: &[u8; 16], b: &[u8; 16]) -> (r: bool)
    ensures
        r == (a@ == b@),
{
    let mut i: usize = 0;
    while i < 16
        invariant
            i <= 16,
            a@.len() == 16,
            b@.len() == 16,
            forall|j: int| 0 <= j < i ==> a@[j] == b@[j],
        decreases 16 - i,
    {
        if a[i] != b[i] {
            return false;
        }
        i += 1;
    }
    assert(a@ =~= b@);
    true
}

/// Whether every byte of a goal id is zero (the id a cancel request uses to
/// mean "every goal").
pub fn is_zero_id(a: &[u8; 16]) -> (r: bool)
    ensures
        r == (forall|j: int| 0 <= j < 16 ==> a@[j] == 0),
{
    let mut i: usize = 0;
    while i < 16
        invariant
            i <= 16,
            a@.len() == 16,
            forall|j: int| 0 <= j < i ==> a@[j] == 0,
        decreases 16 - i,
    {
        if a[i] != 0 {
            return false;
        }
        i += 1;
    }
    true
}

/// The run outcome a status-key value carries: the `Status` enumeration value
/// it encodes, or `None` for any other value (a foreign write to the key is
/// not a lifecycle transition).
pub fn run_status_of(value: &Value) -> (r: Option<Status>)
    ensures
        r == status_of_value(*value),
{
    match value {
        Value::Enumeration(e) => {
            if e.id != STATUS_ENUMERATION_ID {
                None
            } else if e.variant_id == STATUS_SUCCESS_VARIANT_ID {
                Some(Status::Success)
            } else if e.variant_id == STATUS_FAILURE_VARIANT_ID {
                Some(Status::Failure)
            } else if e.variant_id == STATUS_RUNNING_VARIANT_ID {
                Some(Status::Running)
            } else {
                None
            }
        },
        _ => None,
    }
}

/// How many terminal goals the book keeps for late result requests.
pub const CAPACITY: usize = 128;

/// Whether a goal currently owns the run: not terminal and not halted from
/// this side.
pub open spec fn is_active(g: Goal) -> bool {
    !is_terminal(g.status) && g.halt_cause is None
}

/// Whether the goal id `id` is in `gs`.
pub open spec fn has_goal(gs: Seq<([u8; 16], Goal)>, id: Seq<u8>) -> bool {
    exists|i: int| 0 <= i < gs.len() && gs[i].0@ == id
}

/// No two goals of `gs` share an id.
pub open spec fn ids_unique(gs: Seq<([u8; 16], Goal)>) -> bool {
    forall|i: int, j: int| 0 <= i < gs.len() && 0 <= j < gs.len() && i != j ==> gs[i].0@ != gs[j].0@
}

/// A freshly accepted goal.
pub open spec fn new_goal(
    accepted: Time,
    priority: u8,
    status_key: String,
    feedback_keys: Vec<String>,
    result_keys: Vec<String>,
    stop: Call,
) -> Goal {
    Goal {
        accepted,
        priority,
        status_key,
        feedback_keys,
        result_keys,
        stop,
        status: GoalStatus::Executing,
        halt_cause: None,
        result: None,
    }
}

/// Every goal an action server knows, in acceptance order, with the terminal
/// ones in completion order and the result requests still waiting for their
/// goal to end. `R` identifies a result request.
#[derive(Debug)]
pub struct GoalBook<R> {
    goals: Vec<([u8; 16], Goal)>,
    finished: Vec<[u8; 16]>,
    pending_results: Vec<([u8; 16], R)>,
}

impl<R: Copy> GoalBook<R> {
    /// The goals, in acceptance order.
    pub closed spec fn goals(&self) -> Seq<([u8; 16], Goal)> {
        self.goals@
    }

    /// The terminal goal ids, in completion order.
    pub closed spec fn finished(&self) -> Seq<[u8; 16]> {
        self.finished@
    }

    /// The result requests waiting, in arrival order.
    pub closed spec fn pending(&self) -> Seq<([u8; 16], R)> {
        self.pending_results@
    }

    /// Goal ids are unique, and no more terminal goals are kept than the
    /// result cache holds.
    pub closed spec fn wf(&self) -> bool {
        ids_unique(self.goals@) && self.finished@.len() <= CAPACITY
    }

    /// The empty book.
    pub fn new() -> (r: GoalBook<R>)
        ensures
            r.wf(),
            r.goals() == Seq::<([u8; 16], Goal)>::empty(),
            r.finished() == Seq::<[u8; 16]>::empty(),
            r.pending() == Seq::<([u8; 16], R)>::empty(),
    {
        GoalBook { goals: Vec::new(), finished: Vec::new(), pending_results: Vec::new() }
    }

    /// The index of the goal with id `id`, if there is one.
    fn find(&self, id: &[u8; 16]) -> (r: Option<usize>)
        ensures
            match r {
                Some(i) => i < self.goals@.len() && self.goals@[i as int].0@ == id@,
                None => !has_goal(self.goals@, id@),
            },
    {
        let mut i: usize = 0;
        while i < self.goals.len()
            invariant
                i <= self.goals@.len(),
                forall|j: int| 0 <= j < i ==> self.goals@[j].0@ != id@,
            decreases self.goals@.len() - i,
        {
            if same_id(&self.goals[i].0, id) {
                return Some(i);
            }
            i += 1;
        }
        None
    }

    /// Accept a goal: record its run's keys and stop call under `goal_id`,
    /// `Executing`. Refused (`false`, the book unchanged) when a goal with
    /// that id is already known.
    pub fn accept(
        &mut self,
        goal_id: [u8; 16],
        accepted: Time,
        priority: u8,
        status_key: String,
        feedback_keys: Vec<String>,
        result_keys: Vec<String>,
        stop: Call,
    ) -> (r: bool)
        requires
            old(self).wf(),
        ensures
            final(self).wf(),
            r == !has_goal(old(self).goals(), goal_id@),
            r ==> final(self).goals() == old(self).goals().push(
                (goal_id, new_goal(accepted, priority, status_key, feedback_keys, result_keys, stop)),
            ),
            !r ==> final(self).goals() == old(self).goals(),
            final(self).finished() == old(self).finished(),
            final(self).pending() == old(self).pending(),
    {
        if self.find(&goal_id).is_some() {
            return false;
        }
        let goal = Goal {
            accepted,
            priority,
            status_key,
            feedback_keys,
            result_keys,
            stop,
            status: GoalStatus::Executing,
            halt_cause: None,
            result: None,
        };
        self.goals.push((goal_id, goal));
        true
    }

    /// The goal currently owning the run, with its priority: the first, in
    /// acceptance order, that is neither terminal nor halted from this side.
    pub fn active(&self) -> (r: Option<([u8; 16], u8)>)
        ensures
            r is None <==> (forall|i: int| 0 <= i < self.goals().len() ==> !is_active(#[trigger] self.goals()[i].1)),
            r matches Some(a) ==> exists|i: int| 0 <= i < self.goals().len()
                && is_active(self.goals()[i].1)
                && self.goals()[i].0 == a.0
                && self.goals()[i].1.priority == a.1
                && (forall|j: int| 0 <= j < i ==> !is_active(#[trigger] self.goals()[j].1)),
    {
        let mut i: usize = 0;
        while i < self.goals.len()
            invariant
                i <= self.goals@.len(),
                forall|j: int| 0 <= j < i ==> !is_active(#[trigger] self.goals@[j].1),
            decreases self.goals@.len() - i,
        {
            let g = &self.goals[i].1;
            let terminal = match g.status {
                GoalStatus::Succeeded | GoalStatus::Aborted | GoalStatus::Canceled => true,
                _ => false,
            };
            if !terminal && g.halt_cause.is_none() {
                assert(is_active(self.goals()[i as int].1));
                return Some((self.goals[i].0, g.priority));
            }
            i += 1;
        }
        None
    }

    /// Mark `goal_id` preempted by a replacing goal and return its stop
    /// call; `None` (the book unchanged) for an unknown goal.
    pub fn preempt(&mut self, goal_id: [u8; 16]) -> (r: Option<Call>)
        requires
            old(self).wf(),
        ensures
            final(self).wf(),
            r is Some <==> has_goal(old(self).goals(), goal_id@),
            r is None ==> final(self).goals() == old(self).goals(),
            r matches Some(c) ==> exists|i: int| 0 <= i < old(self).goals().len()
                && old(self).goals()[i].0@ == goal_id@
                && call_view(c) == call_view(old(self).goals()[i].1.stop)
                && final(self).goals() == old(self).goals().update(i, (old(self).goals()[i].0, Goal {
                    halt_cause: Some(HaltCause::Preempt),
                    ..old(self).goals()[i].1
                })),
            final(self).finished() == old(self).finished(),
            final(self).pending() == old(self).pending(),
    {
        match self.find(&goal_id) {
            None => None,
            Some(i) => {
                let stop = duplicate_call(&self.goals[i].1.stop);
                let ghost before = self.goals@;
                let mut entry = placeholder();
                self.swap_entry(i, &mut entry);
                entry.1.halt_cause = Some(HaltCause::Preempt);
                self.swap_entry(i, &mut entry);
                assert(self.goals@ =~= before.update(i as int, (before[i as int].0, Goal {
                    halt_cause: Some(HaltCause::Preempt),
                    ..before[i as int].1
                })));
                assert(ids_unique(self.goals@)) by {
                    assert forall|a: int| 0 <= a < self.goals@.len() implies self.goals@[a].0@ == before[a].0@ by {}
                }
                assert(old(self).goals()[i as int].0@ == goal_id@
                    && call_view(stop) == call_view(old(self).goals()[i as int].1.stop)
                    && self.goals() == old(self).goals().update(i as int, (old(self).goals()[i as int].0, Goal {
                        halt_cause: Some(HaltCause::Preempt),
                        ..old(self).goals()[i as int].1
                    })));
                Some(stop)
            },
        }
    }

    /// Swap the `i`-th goal with `entry`.
    fn swap_entry(&mut self, i: usize, entry: &mut ([u8; 16], Goal))
        requires
            i < old(self).goals@.len(),
        ensures
            final(self).goals@ == old(self).goals@.update(i as int, *old(entry)),
            *final(entry) == old(self).goals@[i as int],
            final(self).finished@ == old(self).finished@,
            final(self).pending_results@ == old(self).pending_results@,
    {
        let mut taken = self.goals.remove(i);
        std::mem::swap(&mut taken, entry);
        self.goals.insert(i, taken);
        assert(self.goals@ =~= old(self).goals@.update(i as int, *old(entry)));
    }

    /// Observe one goal.
    pub fn get(&self, goal_id: &[u8; 16]) -> (r: Option<&Goal>)
        ensures
            r is Some <==> has_goal(self.goals(), goal_id@),
            r matches Some(g) ==> exists|i: int| 0 <= i < self.goals().len()
                && self.goals()[i].0@ == goal_id@
                && *g == self.goals()[i].1,
    {
        match self.find(goal_id) {
            Some(i) => {
                assert(self.goals()[i as int].0@ == goal_id@);
                Some(&self.goals[i].1)
            },
            None => None,
        }
    }

    /// Every goal with its acceptance stamp and status, in acceptance order:
    /// the content of the status array.
    pub fn statuses(&self) -> (r: Vec<([u8; 16], Time, GoalStatus)>)
        ensures
            r@.len() == self.goals().len(),
            forall|i: int| 0 <= i < r@.len() ==> #[trigger] r@[i] == (
                self.goals()[i].0,
                self.goals()[i].1.accepted,
                self.goals()[i].1.status,
            ),
    {
        let mut r: Vec<([u8; 16], Time, GoalStatus)> = Vec::new();
        for i in 0..self.goals.len()
            invariant
                r@.len() == i,
                i <= self.goals@.len(),
                forall|j: int| 0 <= j < i ==> #[trigger] r@[j] == (
                    self.goals@[j].0,
                    self.goals@[j].1.accepted,
                    self.goals@[j].1.status,
                ),
        {
            let g = &self.goals[i];
            r.push((g.0, g.1.accepted, g.1.status));
        }
        r
    }

    /// Queue a result request for `goal_id`; it resolves through
    /// `take_ready_results` once the goal is terminal.
    pub fn queue_result_request(&mut self, goal_id: [u8; 16], request: R)
        requires
            old(self).wf(),
        ensures
            final(self).wf(),
            final(self).goals() == old(self).goals(),
            final(self).finished() == old(self).finished(),
            final(self).pending() == old(self).pending().push((goal_id, request)),
    {
        self.pending_results.push((goal_id, request));
    }
}


/// The index of the goal with id `id` (meaningful where there is one).
pub open spec fn goal_index(gs: Seq<([u8; 16], Goal)>, id: Seq<u8>) -> int {
    choose|i: int| 0 <= i < gs.len() && gs[i].0@ == id
}

proof fn lemma_goal_index(gs: Seq<([u8; 16], Goal)>, i: int)
    requires
        ids_unique(gs),
        0 <= i < gs.len(),
    ensures
        has_goal(gs, gs[i].0@),
        goal_index(gs, gs[i].0@) == i,
{
    assert(has_goal(gs, gs[i].0@));
}

/// How a queued result request resolves against the goals `gs`: an unknown
/// goal answers `Unknown` with no result, a terminal one its status, halt
/// cause and cached result; a goal still running leaves it waiting (`None`).
pub open spec fn resolve_request<R>(gs: Seq<([u8; 16], Goal)>, p: ([u8; 16], R)) -> Option<
    (R, GoalStatus, Option<HaltCause>, Option<Value>),
> {
    if !has_goal(gs, p.0@) {
        Some((p.1, GoalStatus::Unknown, None, None))
    } else {
        let g = gs[goal_index(gs, p.0@)].1;
        if is_terminal(g.status) {
            Some((p.1, g.status, g.halt_cause, g.result))
        } else {
            None
        }
    }
}

/// The answers to the requests of `ps` that resolve, in request order.
pub open spec fn ready_of<R>(gs: Seq<([u8; 16], Goal)>, ps: Seq<([u8; 16], R)>) -> Seq<
    (R, GoalStatus, Option<HaltCause>, Option<Value>),
>
    decreases ps.len(),
{
    if ps.len() == 0 {
        Seq::empty()
    } else {
        let rest = ready_of(gs, ps.drop_last());
        match resolve_request(gs, ps.last()) {
            Some(a) => rest.push(a),
            None => rest,
        }
    }
}

/// The requests of `ps` that keep waiting, in request order.
pub open spec fn waiting_of<R>(gs: Seq<([u8; 16], Goal)>, ps: Seq<([u8; 16], R)>) -> Seq<([u8; 16], R)>
    decreases ps.len(),
{
    if ps.len() == 0 {
        Seq::empty()
    } else {
        let rest = waiting_of(gs, ps.drop_last());
        match resolve_request(gs, ps.last()) {
            Some(_) => rest,
            None => rest.push(ps.last()),
        }
    }
}

/// Whether `keys` holds a key spelled `k`.
pub open spec fn contains_name(keys: Seq<String>, k: Seq<char>) -> bool {
    exists|i: int| 0 <= i < keys.len() && keys[i]@ == k
}

/// Whether `keys` holds `key`.
fn keys_contain(keys: &Vec<String>, key: &str) -> (r: bool)
    ensures
        r == contains_name(keys@, key@),
{
    let mut i: usize = 0;
    while i < keys.len()
        invariant
            i <= keys@.len(),
            forall|j: int| 0 <= j < i ==> keys@[j]@ != key@,
        decreases keys@.len() - i,
    {
        if str_eq(keys[i].as_str(), key) {
            return true;
        }
        i += 1;
    }
    false
}

/// The status a `Failure` on the status key gives a goal: `Canceled` when
/// this side canceled it, `Aborted` otherwise (a preemption included).
pub open spec fn failure_status(g: Goal) -> GoalStatus {
    if g.halt_cause == Some(HaltCause::Cancel) {
        GoalStatus::Canceled
    } else {
        GoalStatus::Aborted
    }
}

/// What one written key does to the goal `g` with id `id`: a result key
/// caches the value; a feedback key yields a feedback event; the status key
/// maps the run status onto the goal status (`Success` to `Succeeded`,
/// `Failure` to `failure_status`, `Running` to no change), with a terminal
/// event when that makes the goal terminal. A key set to nothing does
/// nothing.
pub open spec fn observe_entry(id: [u8; 16], g: Goal, k: Seq<char>, v: Option<Value>) -> (Goal, Seq<GoalEvent>) {
    match v {
        None => (g, Seq::empty()),
        Some(val) => if contains_name(g.result_keys@, k) {
            (Goal { result: Some(val), ..g }, Seq::empty())
        } else if contains_name(g.feedback_keys@, k) {
            (g, seq![GoalEvent::Feedback { goal_id: id, value: val }])
        } else if k == g.status_key@ {
            match status_of_value(val) {
                Some(st) => {
                    let g2 = match st {
                        Status::Success => Goal { status: GoalStatus::Succeeded, ..g },
                        Status::Failure => Goal { status: failure_status(g), ..g },
                        Status::Running => g,
                    };
                    (g2, if is_terminal(g2.status) {
                        seq![GoalEvent::Terminal { goal_id: id }]
                    } else {
                        Seq::empty()
                    })
                },
                None => (g, Seq::empty()),
            }
        } else {
            (g, Seq::empty())
        },
    }
}

/// The goal `g` after the written keys `es`, in order, with the events they
/// raised.
pub open spec fn observe_goal(id: [u8; 16], g: Goal, es: Seq<(Seq<char>, Option<Value>)>) -> (Goal, Seq<GoalEvent>)
    decreases es.len(),
{
    if es.len() == 0 {
        (g, Seq::empty())
    } else {
        let (g1, e1) = observe_goal(id, g, es.drop_last());
        let (g2, e2) = observe_entry(id, g1, es.last().0, es.last().1);
        (g2, e1 + e2)
    }
}

/// Every goal of `gs` after the written keys `es`, with the events raised,
/// goal by goal. Terminal goals no longer advance.
pub open spec fn observe_all(gs: Seq<([u8; 16], Goal)>, es: Seq<(Seq<char>, Option<Value>)>) -> (Seq<([u8; 16], Goal)>, Seq<GoalEvent>)
    decreases gs.len(),
{
    if gs.len() == 0 {
        (Seq::empty(), Seq::empty())
    } else {
        let (rest, evs) = observe_all(gs.drop_last(), es);
        let e = gs.last();
        if is_terminal(e.1.status) {
            (rest.push(e), evs)
        } else {
            let (g2, evs2) = observe_goal(e.0, e.1, es);
            (rest.push((e.0, g2)), evs + evs2)
        }
    }
}

/// The goal ids of the terminal events among `evs`, in order.
pub open spec fn terminal_ids(evs: Seq<GoalEvent>) -> Seq<[u8; 16]>
    decreases evs.len(),
{
    if evs.len() == 0 {
        Seq::empty()
    } else {
        let rest = terminal_ids(evs.drop_last());
        match evs.last() {
            GoalEvent::Terminal { goal_id } => rest.push(goal_id),
            GoalEvent::Feedback { .. } => rest,
        }
    }
}

/// `gs` without the goal whose id is `id`.
pub open spec fn remove_goal(gs: Seq<([u8; 16], Goal)>, id: Seq<u8>) -> Seq<([u8; 16], Goal)>
    decreases gs.len(),
{
    if gs.len() == 0 {
        gs
    } else if gs.last().0@ == id {
        remove_goal(gs.drop_last(), id)
    } else {
        remove_goal(gs.drop_last(), id).push(gs.last())
    }
}

/// `gs` without the goals whose ids are in `ids`, removed in order.
pub open spec fn evict_goals(gs: Seq<([u8; 16], Goal)>, ids: Seq<[u8; 16]>) -> Seq<([u8; 16], Goal)>
    decreases ids.len(),
{
    if ids.len() == 0 {
        gs
    } else {
        remove_goal(evict_goals(gs, ids.drop_last()), ids.last()@)
    }
}

/// How many of `n` terminal goals overflow the result cache.
pub open spec fn overflow(n: int) -> int {
    if n > CAPACITY {
        n - CAPACITY
    } else {
        0
    }
}

proof fn lemma_remove_absent(gs: Seq<([u8; 16], Goal)>, id: Seq<u8>)
    requires
        !has_goal(gs, id),
    ensures
        remove_goal(gs, id) == gs,
    decreases gs.len(),
{
    if gs.len() > 0 {
        let d = gs.drop_last();
        assert(!has_goal(d, id)) by {
            if has_goal(d, id) {
                let i = choose|i: int| 0 <= i < d.len() && d[i].0@ == id;
                assert(gs[i].0@ == id);
            }
        }
        lemma_remove_absent(d, id);
        assert(gs.last().0@ != id) by {
            assert(gs[gs.len() - 1].0@ != id);
        }
        assert(d.push(gs.last()) =~= gs);
    }
}

proof fn lemma_remove_present(gs: Seq<([u8; 16], Goal)>, i: int)
    requires
        ids_unique(gs),
        0 <= i < gs.len(),
    ensures
        remove_goal(gs, gs[i].0@) == gs.remove(i),
        ids_unique(gs.remove(i)),
    decreases gs.len(),
{
    let id = gs[i].0@;
    let d = gs.drop_last();
    let n = gs.len() - 1;
    assert(ids_unique(d));
    if i == n {
        assert(!has_goal(d, id)) by {
            if has_goal(d, id) {
                let j = choose|j: int| 0 <= j < d.len() && d[j].0@ == id;
                assert(gs[j].0@ == id);
            }
        }
        lemma_remove_absent(d, id);
        assert(gs.remove(i) =~= d);
    } else {
        lemma_remove_present(d, i);
        assert(gs.last().0@ != id) by {
            assert(gs[n].0@ != gs[i].0@);
        }
        assert(d.remove(i).push(gs.last()) =~= gs.remove(i));
    }
    let t = gs.remove(i);
    assert forall|a: int, b: int| 0 <= a < t.len() && 0 <= b < t.len() && a != b implies t[a].0@ != t[b].0@ by {
        let a2 = if a < i { a } else { a + 1 };
        let b2 = if b < i { b } else { b + 1 };
        assert(t[a] == gs[a2]);
        assert(t[b] == gs[b2]);
    }
}

proof fn lemma_observe_all_ids(gs: Seq<([u8; 16], Goal)>, es: Seq<(Seq<char>, Option<Value>)>)
    ensures
        observe_all(gs, es).0.len() == gs.len(),
        forall|i: int| 0 <= i < gs.len() ==> (#[trigger] observe_all(gs, es).0[i]).0 == gs[i].0,
    decreases gs.len(),
{
    if gs.len() > 0 {
        lemma_observe_all_ids(gs.drop_last(), es);
    }
}

/// Whether a cancel request for `gid` with `stamp` selects the goal `e`,
/// per the ROS cancel policy: a zero id with a zero stamp selects every
/// goal; a zero id with a stamp, the goals accepted at or before it; an id
/// with a zero stamp, that goal; an id with a stamp, that goal and the goals
/// accepted at or before the stamp. Only goals neither terminal nor already
/// canceling are selected.
pub open spec fn cancel_selects(e: ([u8; 16], Goal), gid: [u8; 16], stamp: Time) -> bool {
    let all = forall|j: int| 0 <= j < 16 ==> gid@[j] == 0;
    let zero_stamp = stamp == Time { sec: 0, nanosec: 0 };
    &&& !is_terminal(e.1.status)
    &&& e.1.status != GoalStatus::Canceling
    &&& if all {
        zero_stamp || time_le(e.1.accepted, stamp)
    } else {
        e.0@ == gid@ || (!zero_stamp && time_le(e.1.accepted, stamp))
    }
}

/// A selected goal after the cancel: `Canceling`, halted by the cancel
/// unless it was already halted (a preemption keeps its cause).
pub open spec fn canceled(g: Goal) -> Goal {
    Goal {
        status: GoalStatus::Canceling,
        halt_cause: if g.halt_cause is Some {
            g.halt_cause
        } else {
            Some(HaltCause::Cancel)
        },
        ..g
    }
}

/// The goals of `gs` a cancel request selects, in book order.
pub open spec fn selected_of(gs: Seq<([u8; 16], Goal)>, gid: [u8; 16], stamp: Time) -> Seq<([u8; 16], Goal)>
    decreases gs.len(),
{
    if gs.len() == 0 {
        Seq::empty()
    } else {
        let rest = selected_of(gs.drop_last(), gid, stamp);
        if cancel_selects(gs.last(), gid, stamp) {
            rest.push(gs.last())
        } else {
            rest
        }
    }
}

/// The first goal of `gs` that owns the run (meaningful where one does).
pub open spec fn first_active(gs: Seq<([u8; 16], Goal)>) -> int {
    choose|i: int| 0 <= i < gs.len() && is_active(gs[i].1) && (forall|j: int| 0 <= j < i ==> !is_active(#[trigger] gs[j].1))
}

/// Whether some goal of `gs` owns the run.
pub open spec fn any_active(gs: Seq<([u8; 16], Goal)>) -> bool {
    exists|i: int| 0 <= i < gs.len() && is_active(#[trigger] gs[i].1)
}


impl<R: Copy> GoalBook<R> {
    /// Drain every queued result request whose goal is terminal, answering
    /// `(request, terminal status, halt cause, cached result)`; a request for
    /// an unknown goal resolves too, as `Unknown` with no result, rather than
    /// dangling forever. The others keep waiting, in order.
    pub fn take_ready_results(&mut self) -> (r: Vec<(R, GoalStatus, Option<HaltCause>, Option<Value>)>)
        requires
            old(self).wf(),
        ensures
            final(self).wf(),
            r@ == ready_of(old(self).goals(), old(self).pending()),
            final(self).pending() == waiting_of(old(self).goals(), old(self).pending()),
            final(self).goals() == old(self).goals(),
            final(self).finished() == old(self).finished(),
    {
        let mut pend: Vec<([u8; 16], R)> = Vec::new();
        std::mem::swap(&mut pend, &mut self.pending_results);
        let ghost gs = self.goals@;
        let mut ready: Vec<(R, GoalStatus, Option<HaltCause>, Option<Value>)> = Vec::new();
        let mut kept: Vec<([u8; 16], R)> = Vec::new();
        for i in 0..pend.len()
            invariant
                gs == self.goals@,
                ids_unique(gs),
                self.finished@.len() <= CAPACITY,
                ready@ == ready_of(gs, pend@.take(i as int)),
                kept@ == waiting_of(gs, pend@.take(i as int)),
        {
            let p = pend[i];
            proof {
                assert(pend@.take(i + 1).drop_last() =~= pend@.take(i as int));
                assert(pend@.take(i + 1).last() == p);
            }
            match self.find(&p.0) {
                Some(j) => {
                    proof {
                        lemma_goal_index(gs, j as int);
                    }
                    let g = &self.goals[j].1;
                    let terminal = match g.status {
                        GoalStatus::Succeeded | GoalStatus::Aborted | GoalStatus::Canceled => true,
                        _ => false,
                    };
                    if terminal {
                        let res = crate::outbound::duplicate_option(&g.result);
                        ready.push((p.1, g.status, g.halt_cause, res));
                    } else {
                        kept.push(p);
                    }
                },
                None => {
                    ready.push((p.1, GoalStatus::Unknown, None, None));
                },
            }
        }
        proof {
            assert(pend@.take(pend@.len() as int) =~= pend@);
        }
        self.pending_results = kept;
        ready
    }

    /// Cancel per the ROS cancel policy (see `cancel_selects`): every
    /// selected goal turns `Canceling`, halted by the cancel unless already
    /// halted, and is answered with its id, acceptance stamp and stop call,
    /// in book order. The others are unchanged.
    pub fn cancel(&mut self, goal_id: [u8; 16], stamp: Time) -> (r: Vec<([u8; 16], Time, Call)>)
        requires
            old(self).wf(),
        ensures
            final(self).wf(),
            final(self).goals().len() == old(self).goals().len(),
            forall|i: int| 0 <= i < old(self).goals().len() ==> #[trigger] final(self).goals()[i] == if cancel_selects(old(self).goals()[i], goal_id, stamp) {
                (old(self).goals()[i].0, canceled(old(self).goals()[i].1))
            } else {
                old(self).goals()[i]
            },
            r@.len() == selected_of(old(self).goals(), goal_id, stamp).len(),
            forall|i: int| 0 <= i < r@.len() ==> {
                let e = #[trigger] selected_of(old(self).goals(), goal_id, stamp)[i];
                &&& r@[i].0 == e.0
                &&& r@[i].1 == e.1.accepted
                &&& call_view(r@[i].2) == call_view(e.1.stop)
            },
            final(self).finished() == old(self).finished(),
            final(self).pending() == old(self).pending(),
    {
        let all = is_zero_id(&goal_id);
        let zero_stamp = stamp.sec == 0 && stamp.nanosec == 0;
        let ghost gs = self.goals@;
        let mut selected: Vec<([u8; 16], Time, Call)> = Vec::new();
        let mut i: usize = 0;
        while i < self.goals.len()
            invariant
                i <= self.goals@.len(),
                self.goals@.len() == gs.len(),
                ids_unique(gs),
                all == (forall|j: int| 0 <= j < 16 ==> goal_id@[j] == 0),
                zero_stamp == (stamp == Time { sec: 0, nanosec: 0 }),
                forall|j: int| i <= j < gs.len() ==> self.goals@[j] == gs[j],
                forall|j: int| 0 <= j < i ==> #[trigger] self.goals@[j] == if cancel_selects(gs[j], goal_id, stamp) {
                    (gs[j].0, canceled(gs[j].1))
                } else {
                    gs[j]
                },
                selected@.len() == selected_of(gs.take(i as int), goal_id, stamp).len(),
                forall|j: int| 0 <= j < selected@.len() ==> {
                    let e = #[trigger] selected_of(gs.take(i as int), goal_id, stamp)[j];
                    &&& selected@[j].0 == e.0
                    &&& selected@[j].1 == e.1.accepted
                    &&& call_view(selected@[j].2) == call_view(e.1.stop)
                },
                self.finished@ == old(self).finished@,
                self.pending_results@ == old(self).pending_results@,
                self.finished@.len() <= CAPACITY,
            decreases gs.len() - i,
        {
            let ghost e = gs[i as int];
            let ghost prev = selected_of(gs.take(i as int), goal_id, stamp);
            proof {
                assert(gs.take(i + 1).drop_last() =~= gs.take(i as int));
                assert(gs.take(i + 1).last() == e);
            }
            let g = &self.goals[i].1;
            let terminal = match g.status {
                GoalStatus::Succeeded | GoalStatus::Aborted | GoalStatus::Canceled => true,
                _ => false,
            };
            let canceling = match g.status {
                GoalStatus::Canceling => true,
                _ => false,
            };
            let matches = if terminal || canceling {
                false
            } else if all {
                zero_stamp || g.accepted.le(&stamp)
            } else {
                same_id(&self.goals[i].0, &goal_id) || (!zero_stamp && g.accepted.le(&stamp))
            };
            assert(matches == cancel_selects(e, goal_id, stamp));
            if matches {
                let stop = duplicate_call(&self.goals[i].1.stop);
                let id = self.goals[i].0;
                let accepted = self.goals[i].1.accepted;
                let mut entry = placeholder();
                self.swap_entry(i, &mut entry);
                entry.1.status = GoalStatus::Canceling;
                if entry.1.halt_cause.is_none() {
                    entry.1.halt_cause = Some(HaltCause::Cancel);
                }
                assert(entry == (e.0, canceled(e.1)));
                self.swap_entry(i, &mut entry);
                selected.push((id, accepted, stop));
                proof {
                    assert(selected_of(gs.take(i + 1), goal_id, stamp) == prev.push(e));
                    assert forall|j: int| 0 <= j < selected@.len() implies {
                        let e2 = #[trigger] selected_of(gs.take(i + 1), goal_id, stamp)[j];
                        &&& selected@[j].0 == e2.0
                        &&& selected@[j].1 == e2.1.accepted
                        &&& call_view(selected@[j].2) == call_view(e2.1.stop)
                    } by {
                        if j < prev.len() {
                            assert(selected_of(gs.take(i + 1), goal_id, stamp)[j] == prev[j]);
                        }
                    }
                }
            } else {
                proof {
                    assert(selected_of(gs.take(i + 1), goal_id, stamp) == prev);
                }
            }
            i += 1;
        }
        proof {
            assert(gs.take(gs.len() as int) =~= gs);
            assert forall|a: int, b: int| 0 <= a < self.goals@.len() && 0 <= b < self.goals@.len() && a != b implies self.goals@[a].0@ != self.goals@[b].0@ by {
                assert(self.goals@[a].0 == gs[a].0);
                assert(self.goals@[b].0 == gs[b].0);
            }
        }
        selected
    }
}

/// A goal entry that holds nothing, to swap with a real one: the zero id, a
/// zero stamp and priority, no keys, an empty stop call, `Unknown`, never
/// halted, no result.
fn placeholder() -> (r: ([u8; 16], Goal))
    ensures
        forall|j: int| 0 <= j < 16 ==> r.0@[j] == 0,
        r.1.accepted == (Time { sec: 0, nanosec: 0 }),
        r.1.priority == 0,
        r.1.status_key@.len() == 0,
        r.1.feedback_keys@.len() == 0,
        r.1.result_keys@.len() == 0,
        r.1.stop.module_id is None,
        r.1.stop.id == 0,
        r.1.stop.args@.len() == 0,
        r.1.status == GoalStatus::Unknown,
        r.1.halt_cause is None,
        r.1.result is None,
{
    ([0u8; 16], Goal {
        accepted: Time::zero(),
        priority: 0,
        status_key: String::new(),
        feedback_keys: Vec::new(),
        result_keys: Vec::new(),
        stop: Call { module_id: None, id: 0, args: Vec::new() },
        status: GoalStatus::Unknown,
        halt_cause: None,
        result: None,
    })
}


/// Apply the written keys of `change` to the goal `g` with id `id`,
/// appending the events they raise to `events`.
fn observe_one(id: [u8; 16], g: &mut Goal, change: &StateChange, events: &mut Vec<GoalEvent>)
    ensures
        *final(g) == observe_goal(id, *old(g), change.set_seq()).0,
        final(events)@ == old(events)@ + observe_goal(id, *old(g), change.set_seq()).1,
{
    let ghost es = change.set_seq();
    let ghost g0 = *g;
    let ghost ev0 = events@;
    let n = change.set_count();
    for i in 0..n
        invariant
            n == es.len(),
            es == change.set_seq(),
            *g == observe_goal(id, g0, es.take(i as int)).0,
            events@ == ev0 + observe_goal(id, g0, es.take(i as int)).1,
    {
        let ghost g1 = *g;
        let ghost e1 = observe_goal(id, g0, es.take(i as int)).1;
        let ghost ev1 = events@;
        proof {
            assert(es.take(i + 1).drop_last() =~= es.take(i as int));
            assert(es.take(i + 1).last() == es[i as int]);
        }
        let (key, value) = change.set_entry(i);
        let ghost step = observe_entry(id, g1, key@, *value);
        match value {
            None => {
                assert(step.1 =~= Seq::<GoalEvent>::empty());
                assert(events@ =~= ev1 + step.1);
            },
            Some(val) => {
                if keys_contain(&g.result_keys, key.as_str()) {
                    g.result = Some(val.duplicate());
                    assert(events@ =~= ev1 + step.1);
                } else if keys_contain(&g.feedback_keys, key.as_str()) {
                    events.push(GoalEvent::Feedback { goal_id: id, value: val.duplicate() });
                    assert(events@ =~= ev1 + step.1);
                } else if str_eq(key.as_str(), g.status_key.as_str()) {
                    match run_status_of(val) {
                        Some(st) => {
                            match st {
                                Status::Running => {},
                                Status::Success => {
                                    g.status = GoalStatus::Succeeded;
                                },
                                Status::Failure => {
                                    let canceled_by_us = match g.halt_cause {
                                        Some(HaltCause::Cancel) => true,
                                        _ => false,
                                    };
                                    g.status = if canceled_by_us {
                                        GoalStatus::Canceled
                                    } else {
                                        GoalStatus::Aborted
                                    };
                                },
                            }
                            let terminal = match g.status {
                                GoalStatus::Succeeded | GoalStatus::Aborted | GoalStatus::Canceled => true,
                                _ => false,
                            };
                            if terminal {
                                events.push(GoalEvent::Terminal { goal_id: id });
                            }
                            assert(*g == step.0);
                            assert(events@ =~= ev1 + step.1);
                        },
                        None => {
                            assert(events@ =~= ev1 + step.1);
                        },
                    }
                } else {
                    assert(events@ =~= ev1 + step.1);
                }
            },
        }
        proof {
            assert(ev0 + (e1 + step.1) =~= (ev0 + e1) + step.1);
        }
    }
    proof {
        assert(es.take(n as int) =~= es);
    }
}

impl<R: Copy> GoalBook<R> {
    /// Observe one outbound state change: advance every non-terminal goal
    /// whose run keys it writes (see `observe_entry`), goal by goal in book
    /// order, and return the events raised. Goals that turned terminal join
    /// the completion order; beyond the result cache's capacity the oldest
    /// terminal goals are evicted.
    pub fn observe(&mut self, change: &StateChange) -> (r: Vec<GoalEvent>)
        requires
            old(self).wf(),
        ensures
            final(self).wf(),
            ({
                let (gs1, evs) = observe_all(old(self).goals(), change.set_seq());
                let f1 = old(self).finished() + terminal_ids(evs);
                let k = overflow(f1.len() as int);
                &&& r@ == evs
                &&& final(self).finished() == f1.skip(k)
                &&& final(self).goals() == evict_goals(gs1, f1.take(k))
            }),
            final(self).pending() == old(self).pending(),
    {
        let ghost gs = self.goals@;
        let ghost es = change.set_seq();
        let mut events: Vec<GoalEvent> = Vec::new();
        let mut i: usize = 0;
        while i < self.goals.len()
            invariant
                i <= self.goals@.len(),
                self.goals@.len() == gs.len(),
                ids_unique(gs),
                es == change.set_seq(),
                forall|j: int| i <= j < gs.len() ==> self.goals@[j] == gs[j],
                self.goals@.take(i as int) == observe_all(gs.take(i as int), es).0,
                events@ == observe_all(gs.take(i as int), es).1,
                self.finished@ == old(self).finished@,
                self.pending_results@ == old(self).pending_results@,
            decreases gs.len() - i,
        {
            let ghost e = gs[i as int];
            let ghost before = self.goals@;
            proof {
                assert(gs.take(i + 1).drop_last() =~= gs.take(i as int));
                assert(gs.take(i + 1).last() == e);
            }
            let terminal = match self.goals[i].1.status {
                GoalStatus::Succeeded | GoalStatus::Aborted | GoalStatus::Canceled => true,
                _ => false,
            };
            if !terminal {
                let id = self.goals[i].0;
                let mut entry = placeholder();
                self.swap_entry(i, &mut entry);
                observe_one(id, &mut entry.1, change, &mut events);
                self.swap_entry(i, &mut entry);
            }
            proof {
                assert(self.goals@.take(i + 1) =~= before.take(i as int).push(self.goals@[i as int]));
            }
            i += 1;
        }
        proof {
            assert(gs.take(gs.len() as int) =~= gs);
            assert(self.goals@.take(gs.len() as int) =~= self.goals@);
            lemma_observe_all_ids(gs, es);
            assert forall|a: int, b: int| 0 <= a < self.goals@.len() && 0 <= b < self.goals@.len() && a != b implies self.goals@[a].0@ != self.goals@[b].0@ by {
                assert(self.goals@[a].0 == gs[a].0);
                assert(self.goals@[b].0 == gs[b].0);
            }
        }
        let ghost gs1 = self.goals@;
        let mut j: usize = 0;
        while j < events.len()
            invariant
                j <= events@.len(),
                self.goals@ == gs1,
                ids_unique(gs1),
                self.pending_results@ == old(self).pending_results@,
                self.finished@ == old(self).finished@ + terminal_ids(events@.take(j as int)),
            decreases events@.len() - j,
        {
            proof {
                assert(events@.take(j + 1).drop_last() =~= events@.take(j as int));
                assert(events@.take(j + 1).last() == events@[j as int]);
            }
            match &events[j] {
                GoalEvent::Terminal { goal_id } => {
                    self.finished.push(*goal_id);
                },
                GoalEvent::Feedback { .. } => {},
            }
            proof {
                assert(self.finished@ =~= old(self).finished@ + terminal_ids(events@.take(j + 1)));
            }
            j += 1;
        }
        proof {
            assert(events@.take(events@.len() as int) =~= events@);
        }
        self.evict();
        events
    }

    /// Evict the oldest terminal goals beyond the result cache's capacity.
    fn evict(&mut self)
        requires
            ids_unique(old(self).goals@),
        ensures
            ({
                let f = old(self).finished@;
                let k = overflow(f.len() as int);
                &&& final(self).finished@ == f.skip(k)
                &&& final(self).goals@ == evict_goals(old(self).goals@, f.take(k))
            }),
            final(self).wf(),
            final(self).pending_results@ == old(self).pending_results@,
    {
        let ghost f = self.finished@;
        let ghost gs = self.goals@;
        let ghost mut n: int = 0;
        while self.finished.len() > CAPACITY
            invariant
                0 <= n <= f.len(),
                self.finished@ == f.skip(n),
                self.goals@ == evict_goals(gs, f.take(n)),
                ids_unique(self.goals@),
                n <= overflow(f.len() as int),
                self.pending_results@ == old(self).pending_results@,
            decreases self.finished@.len(),
        {
            let oldest = self.finished.remove(0);
            proof {
                assert(oldest == f[n]);
                assert(f.take(n + 1).drop_last() =~= f.take(n));
                assert(f.take(n + 1).last() == f[n]);
            }
            match self.find(&oldest) {
                Some(i) => {
                    proof {
                        lemma_remove_present(self.goals@, i as int);
                    }
                    self.goals.remove(i);
                },
                None => {
                    proof {
                        lemma_remove_absent(self.goals@, oldest@);
                    }
                },
            }
            proof {
                n = n + 1;
                assert(self.finished@ =~= f.skip(n));
            }
        }
    }

    /// Arbitrate a new goal of `priority` against the goal owning the run
    /// (see `active`): with none, the new goal is admitted (`Ok(None)`); an
    /// equal or higher priority preempts the owner and returns its stop call;
    /// a lower one is refused with the owner's priority, the book unchanged.
    pub fn arbitrate(&mut self, priority: u8) -> (r: Result<Option<Call>, u8>)
        requires
            old(self).wf(),
        ensures
            final(self).wf(),
            !any_active(old(self).goals()) ==> r == Ok::<Option<Call>, u8>(None) && final(self).goals() == old(self).goals(),
            any_active(old(self).goals()) ==> {
                let i = first_active(old(self).goals());
                let owner = old(self).goals()[i];
                if priority >= owner.1.priority {
                    &&& r matches Ok(Some(c))
                    &&& call_view(c) == call_view(owner.1.stop)
                    &&& final(self).goals() == old(self).goals().update(i, (owner.0, Goal {
                        halt_cause: Some(HaltCause::Preempt),
                        ..owner.1
                    }))
                } else {
                    &&& r == Err::<Option<Call>, u8>(owner.1.priority)
                    &&& final(self).goals() == old(self).goals()
                }
            },
            final(self).finished() == old(self).finished(),
            final(self).pending() == old(self).pending(),
    {
        let ghost gs = self.goals@;
        match self.active() {
            None => {
                assert(!any_active(gs));
                Ok(None)
            },
            Some((id, p)) => {
                let ghost i = choose|i: int| 0 <= i < gs.len()
                    && is_active(gs[i].1)
                    && gs[i].0 == id
                    && gs[i].1.priority == p
                    && (forall|j: int| 0 <= j < i ==> !is_active(#[trigger] gs[j].1));
                proof {
                    let f = first_active(gs);
                    assert(any_active(gs));
                    assert(0 <= f < gs.len() && is_active(gs[f].1) && (forall|j: int| 0 <= j < f ==> !is_active(#[trigger] gs[j].1)));
                    if f < i {
                        assert(!is_active(gs[f].1));
                    }
                    if i < f {
                        assert(!is_active(gs[i].1));
                    }
                    assert(f == i);
                }
                if priority >= p {
                    let stop = self.preempt(id);
                    proof {
                        lemma_goal_index(gs, i);
                        if stop is Some {
                            let c = stop->0;
                            let k = choose|k: int| 0 <= k < gs.len()
                                && gs[k].0@ == id@
                                && call_view(c) == call_view(gs[k].1.stop)
                                && self.goals() == gs.update(k, (gs[k].0, Goal {
                                    halt_cause: Some(HaltCause::Preempt),
                                    ..gs[k].1
                                }));
                            assert(gs[k].0@ == gs[i].0@);
                            assert(k == i);
                        }
                        assert(has_goal(gs, id@)) by {
                            assert(gs[i].0@ == id@);
                        }
                    }
                    Ok(stop)
                } else {
                    Err(p)
                }
            },
        }
    }
}


/// Terminal goals no longer advance: observing any change leaves every
/// terminal goal as it was.
pub proof fn lemma_terminal_goals_are_final(gs: Seq<([u8; 16], Goal)>, es: Seq<(Seq<char>, Option<Value>)>)
    ensures
        observe_all(gs, es).0.len() == gs.len(),
        forall|i: int| 0 <= i < gs.len() && is_terminal(gs[i].1.status) ==> #[trigger] observe_all(gs, es).0[i] == gs[i],
    decreases gs.len(),
{
    if gs.len() > 0 {
        lemma_terminal_goals_are_final(gs.drop_last(), es);
        lemma_observe_all_ids(gs.drop_last(), es);
    }
}

/// A run halted from this side ends as its cause says. Once a cancel
/// selected a goal, a `Failure` written to its status key makes it terminal
/// with one terminal event: `Canceled`, answering the `Canceled` errno,
/// unless a preemption had halted it first, when it reads `Aborted` and
/// answers `Interrupted`.
pub proof fn lemma_halted_run_ends_by_its_cause(id: [u8; 16], g: Goal)
    requires
        !is_terminal(g.status),
        !contains_name(g.result_keys@, g.status_key@),
        !contains_name(g.feedback_keys@, g.status_key@),
    ensures
        ({
            let (after, events) = observe_entry(
                id,
                canceled(g),
                g.status_key@,
                Some(crate::status::status_value(Status::Failure)),
            );
            &&& events == seq![GoalEvent::Terminal { goal_id: id }]
            &&& g.halt_cause == Some(HaltCause::Preempt) ==> after.status == GoalStatus::Aborted
                && errno_spec(after.status, after.halt_cause) == Errno::Interrupted
            &&& g.halt_cause != Some(HaltCause::Preempt) ==> after.status == GoalStatus::Canceled
                && errno_spec(after.status, after.halt_cause) == Errno::Canceled
        }),
{
    crate::status::lemma_status_value_round_trip(Status::Failure);
}

/// A run that fails on its own, with nobody having halted it, ends
/// `Aborted` and answers the `Other` errno; one that succeeds ends
/// `Succeeded` and answers no error.
pub proof fn lemma_unhalted_run_ends_by_its_outcome(id: [u8; 16], g: Goal)
    requires
        !is_terminal(g.status),
        g.halt_cause is None,
        !contains_name(g.result_keys@, g.status_key@),
        !contains_name(g.feedback_keys@, g.status_key@),
    ensures
        ({
            let (failed, events) = observe_entry(
                id,
                g,
                g.status_key@,
                Some(crate::status::status_value(Status::Failure)),
            );
            &&& events == seq![GoalEvent::Terminal { goal_id: id }]
            &&& failed.status == GoalStatus::Aborted
            &&& errno_spec(failed.status, failed.halt_cause) == Errno::Other
        }),
        ({
            let (done, events) = observe_entry(
                id,
                g,
                g.status_key@,
                Some(crate::status::status_value(Status::Success)),
            );
            &&& events == seq![GoalEvent::Terminal { goal_id: id }]
            &&& done.status == GoalStatus::Succeeded
            &&& errno_spec(done.status, done.halt_cause) == Errno::NoError
        }),
{
    crate::status::lemma_status_value_round_trip(Status::Failure);
    crate::status::lemma_status_value_round_trip(Status::Success);
}


/// A goal a cancel selected is not selected by any later cancel: it is
/// `Canceling` from then on, and only the run's status key moves it.
pub proof fn lemma_canceled_goal_not_reselected(
    e: ([u8; 16], Goal),
    gid: [u8; 16],
    stamp: Time,
    later_gid: [u8; 16],
    later_stamp: Time,
)
    requires
        cancel_selects(e, gid, stamp),
    ensures
        !cancel_selects((e.0, canceled(e.1)), later_gid, later_stamp),
{
}

/// A cancel naming a goal and giving a stamp stops that goal and every goal
/// accepted at or before the stamp (each still running and not already
/// canceling), and no other: a goal is among the ones the cancel selects,
/// and whose stop calls it returns, exactly when its id is the one named or
/// it was accepted no later than the stamp.
pub proof fn lemma_cancel_by_id_and_stamp(gs: Seq<([u8; 16], Goal)>, gid: [u8; 16], stamp: Time, i: int)
    requires
        0 <= i < gs.len(),
        exists|j: int| 0 <= j < 16 && gid@[j] != 0,
        stamp != (Time { sec: 0, nanosec: 0 }),
        !is_terminal(gs[i].1.status),
        gs[i].1.status != GoalStatus::Canceling,
    ensures
        cancel_selects(gs[i], gid, stamp) <==> (gs[i].0@ == gid@ || time_le(gs[i].1.accepted, stamp)),
        selected_of(gs, gid, stamp).contains(gs[i]) <== (gs[i].0@ == gid@ || time_le(gs[i].1.accepted, stamp)),
{
    if gs[i].0@ == gid@ || time_le(gs[i].1.accepted, stamp) {
        lemma_selected_of_contains(gs, gid, stamp, i);
    }
}

/// Every goal a cancel selects is among the goals it answers.
proof fn lemma_selected_of_contains(gs: Seq<([u8; 16], Goal)>, gid: [u8; 16], stamp: Time, i: int)
    requires
        0 <= i < gs.len(),
        cancel_selects(gs[i], gid, stamp),
    ensures
        selected_of(gs, gid, stamp).contains(gs[i]),
    decreases gs.len(),
{
    let rest = selected_of(gs.drop_last(), gid, stamp);
    if i == gs.len() - 1 {
        assert(selected_of(gs, gid, stamp) == rest.push(gs.last()));
        assert(selected_of(gs, gid, stamp)[rest.len() as int] == gs[i]);
    } else {
        assert(gs.drop_last()[i] == gs[i]);
        lemma_selected_of_contains(gs.drop_last(), gid, stamp, i);
        let k = choose|k: int| 0 <= k < rest.len() && rest[k] == gs[i];
        if cancel_selects(gs.last(), gid, stamp) {
            assert(selected_of(gs, gid, stamp)[k] == gs[i]);
        } else {
            assert(selected_of(gs, gid, stamp)[k] == gs[i]);
        }
    }
}

} // verus!
