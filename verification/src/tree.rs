//! The behavior-tree ticker.
//!
//! A tree is an arena of nodes; every child index is greater than its parent's
//! index, so a tick always terminates. The basic control nodes (`succeed`,
//! `fail`, `run`, `seq`, `seq_star`, `fallback`, `parallel`) are ticked
//! natively; every other node is a leaf whose function is looked up in a
//! [`FunctionIndex`] and called, on the module that provides it, through the
//! host's [`CallBridge`], wrapped in a [`LoggedBridge`] that records each call
//! and its answer.
//!
//! What a tick does is stated by [`tick_spec`]: given the answers the leaves
//! gave, in call order, it fixes the status, the variable cells, the
//! `seq_star` cursors, which leaves were answered, and every call handed to
//! the bridge.
use vstd::prelude::*;
use crate::status::{Status, status_of_value, ConversionError};
use crate::value::{Value, StructureField, Call, CallResult, CallError, CallBridge, CallRecord, LoggedBridge, call_record};

verus! {

/// Function id of the `succeed` node.
pub const SUCCEED_FUNCTION_ID: u128 = 0x6696f0bd_e781_40cd_aeb5_8dc616f810d2;
/// Function id of the `fail` node.
pub const FAIL_FUNCTION_ID: u128 = 0x3abbbfb6_d00d_41eb_88bb_97874267eaf6;
/// Function id of the `run` node.
pub const RUN_FUNCTION_ID: u128 = 0x41ae5ed0_1d12_4b71_aab8_02e7efedf177;
/// Function id of the `seq` control node.
pub const SEQ_FUNCTION_ID: u128 = 0x32246df6_ab5d_4f18_9221_23e28731de93;
/// Function id of the `seq_star` (resuming sequence) control node.
pub const SEQ_STAR_FUNCTION_ID: u128 = 0xc2d5ed72_798c_4174_94f7_13378bd9bf1f;
/// Function id of the `fallback` control node.
pub const FALLBACK_FUNCTION_ID: u128 = 0xbfa89a4e_c369_430e_be78_0dc07311391c;
/// Function id of the `parallel` control node.
pub const PARALLEL_FUNCTION_ID: u128 = 0xa9340289_1f30_411f_9faa_0f07d54613e8;

/// The natively ticked node kinds.
#[derive(Debug, Clone, Copy, PartialEq, Eq, Structural)]
pub enum Builtin {
    Succeed,
    Fail,
    Run,
    Sequence,
    SequenceStar,
    Fallback,
    Parallel,
}

/// The builtin a function id names, if any.
pub open spec fn builtin_of(f: u128) -> Option<Builtin> {
    if f == SUCCEED_FUNCTION_ID {
        Some(Builtin::Succeed)
    } else if f == FAIL_FUNCTION_ID {
        Some(Builtin::Fail)
    } else if f == RUN_FUNCTION_ID {
        Some(Builtin::Run)
    } else if f == SEQ_FUNCTION_ID {
        Some(Builtin::Sequence)
    } else if f == SEQ_STAR_FUNCTION_ID {
        Some(Builtin::SequenceStar)
    } else if f == FALLBACK_FUNCTION_ID {
        Some(Builtin::Fallback)
    } else if f == PARALLEL_FUNCTION_ID {
        Some(Builtin::Parallel)
    } else {
        None
    }
}

/// The builtin a function id names, if any.
pub fn builtin(f: u128) -> (r: Option<Builtin>)
    ensures
        r == builtin_of(f),
{
    if f == SUCCEED_FUNCTION_ID {
        Some(Builtin::Succeed)
    } else if f == FAIL_FUNCTION_ID {
        Some(Builtin::Fail)
    } else if f == RUN_FUNCTION_ID {
        Some(Builtin::Run)
    } else if f == SEQ_FUNCTION_ID {
        Some(Builtin::Sequence)
    } else if f == SEQ_STAR_FUNCTION_ID {
        Some(Builtin::SequenceStar)
    } else if f == FALLBACK_FUNCTION_ID {
        Some(Builtin::Fallback)
    } else if f == PARALLEL_FUNCTION_ID {
        Some(Builtin::Parallel)
    } else {
        None
    }
}

/// A node parameter bound to a variable cell.
#[derive(Debug, Clone, Copy, PartialEq, Eq, Structural)]
pub struct Param {
    /// The function parameter id.
    pub id: u128,
    /// The index of the cell holding its value.
    pub cell: usize,
}

/// One node of a lowered tree.
#[derive(Debug)]
pub struct Node {
    /// The function bound to the node: a builtin id, or a module function.
    pub function: u128,
    /// The children, as indices into the arena (each greater than this node's).
    pub children: Vec<usize>,
    /// The parameters handed to a leaf call, each read from its cell.
    pub params: Vec<Param>,
    /// For a function that does not return a status: the cell its return
    /// value is written to (the node then reports `Success`).
    pub ret_cell: Option<usize>,
}

/// A leaf call as it was answered during a tick: the node and what came back.
#[derive(Debug)]
pub struct LeafAnswer {
    pub node: usize,
    pub result: CallResult,
}

/// Something went wrong while building or ticking a tree.
#[derive(Debug, Clone, PartialEq, Eq)]
pub enum BehaviorTreeError {
    /// Error when parsing a behavior tree description.
    ParsingError { message: String },
    /// Error in the structure of the tree: cycles, duplicate nodes, dangling
    /// references.
    InconsistentTreeError { message: String },
    /// A call to a module function failed.
    CallError(CallError),
    /// A value could not be converted.
    ConversionError(ConversionError),
    /// An internal inconsistency, such as a mutated parameter that the node
    /// does not have.
    InternalError { message: String },
}

/// The result of a tick, as a function of the answers the leaves gave.
pub enum Outcome {
    /// The tick completed with this status.
    Done(Status),
    /// The tick needed one more leaf answer than it was given.
    Stuck,
    /// A leaf's function is provided by no module of the index.
    Unknown(u128),
    /// A leaf answer mutated a parameter the node does not have.
    Fault,
}

/// A tick's outcome together with the state it leaves, the leaves whose
/// answers it consumed, and the calls it handed the bridge, in order.
pub struct TickRun {
    pub outcome: Outcome,
    pub cells: Seq<Option<Value>>,
    pub cursors: Seq<u16>,
    pub leaves: Seq<int>,
    pub calls: Seq<CallRecord>,
}

/// The value a cell reads as (an empty cell reads as unit).
pub open spec fn cell_value(c: Option<Value>) -> Value {
    match c {
        Some(v) => v,
        None => Value::Unit,
    }
}

/// The status a leaf's return value reports: a status value gives its status,
/// anything else counts as success.
pub open spec fn leaf_status(ret: Value) -> Status {
    match status_of_value(ret) {
        Some(s) => s,
        None => Status::Success,
    }
}

/// The first parameter with id `id`, at or after `k`.
pub open spec fn find_param(params: Seq<Param>, id: u128, k: int) -> Option<int>
    decreases params.len() - k,
{
    if k < 0 || k >= params.len() {
        None
    } else if params[k].id == id {
        Some(k)
    } else {
        find_param(params, id, k + 1)
    }
}

/// A parameter found by [`find_param`] is in range and has the id.
pub proof fn lemma_find_param(params: Seq<Param>, id: u128, k: int)
    ensures
        find_param(params, id, k) matches Some(j) ==> 0 <= k <= j < params.len() && params[j].id == id,
    decreases params.len() - k,
{
    if k < 0 || k >= params.len() {
    } else if params[k].id == id {
    } else {
        lemma_find_param(params, id, k + 1);
    }
}

/// Write a call's mutated parameters back into their cells, in order. The
/// flag is false when a mutated parameter is not one of the node's; the
/// cells are then those written before it.
pub open spec fn apply_mutations(params: Seq<Param>, cells: Seq<Option<Value>>, muts: Seq<StructureField>) -> (bool, Seq<Option<Value>>)
    decreases muts.len(),
{
    if muts.len() == 0 {
        (true, cells)
    } else {
        match find_param(params, muts[0].id, 0) {
            None => (false, cells),
            Some(j) => apply_mutations(params, cells.update(params[j].cell as int, Some(muts[0].value)), muts.drop_first()),
        }
    }
}

/// A module function the tree can call: the function and the module that
/// provides it.
#[derive(Debug, Clone, Copy, PartialEq, Eq, Structural)]
pub struct ModuleFunction {
    pub function_id: u128,
    pub module_id: u128,
}

/// The module providing function `f` among `entries`; a later entry for `f`
/// replaces an earlier one.
pub open spec fn module_in(entries: Seq<ModuleFunction>, f: u128) -> Option<u128>
    decreases entries.len(),
{
    if entries.len() == 0 {
        None
    } else if entries.last().function_id == f {
        Some(entries.last().module_id)
    } else {
        module_in(entries.drop_last(), f)
    }
}

/// Which module provides each callable function.
#[derive(Debug)]
pub struct FunctionIndex {
    entries: Vec<ModuleFunction>,
}

impl FunctionIndex {
    /// The module providing function `f`, if any.
    pub closed spec fn module_of(&self, f: u128) -> Option<u128> {
        module_in(self.entries@, f)
    }

    /// An index with no function.
    pub fn new() -> (r: FunctionIndex)
        ensures
            forall|f: u128| #[trigger] r.module_of(f) is None,
    {
        FunctionIndex { entries: Vec::new() }
    }

    /// Record that module `module_id` provides function `function_id`,
    /// replacing any earlier entry for that function.
    pub fn insert(&mut self, function_id: u128, module_id: u128)
        ensures
            final(self).module_of(function_id) == Some(module_id),
            forall|f: u128| f != function_id ==> #[trigger] final(self).module_of(f) == old(self).module_of(f),
    {
        let ghost before = self.entries@;
        self.entries.push(ModuleFunction { function_id, module_id });
        assert(self.entries@.drop_last() =~= before);
    }

    /// The module providing function `f`, if any.
    pub fn get(&self, f: u128) -> (r: Option<u128>)
        ensures
            r == self.module_of(f),
    {
        let mut k: usize = self.entries.len();
        assert(self.entries@.take(k as int) =~= self.entries@);
        while k > 0
            invariant
                k <= self.entries@.len(),
                module_in(self.entries@, f) == module_in(self.entries@.take(k as int), f),
            decreases k,
        {
            let e = self.entries[k - 1];
            assert(self.entries@.take(k as int).last() == e);
            assert(self.entries@.take(k as int).drop_last() =~= self.entries@.take(k - 1));
            if e.function_id == f {
                return Some(e.module_id);
            }
            k -= 1;
        }
        None
    }
}

/// The arguments of a leaf call: each parameter, in order, with the value its
/// cell holds. (The return value has a cell of its own and is never passed.)
pub open spec fn call_args(params: Seq<Param>, cells: Seq<Option<Value>>) -> Seq<StructureField> {
    params.map_values(|p: Param| StructureField { id: p.id, value: cell_value(cells[p.cell as int]) })
}

/// The call a leaf makes to module `m`.
pub open spec fn leaf_record(node: Node, m: u128, cells: Seq<Option<Value>>) -> CallRecord {
    CallRecord { target: m, module_id: None, id: node.function, args: call_args(node.params@, cells) }
}

/// Ticking a leaf: its function is looked up in the index; a known one is
/// called with its parameters read from the cells, and one answer is
/// consumed.
pub open spec fn leaf_spec(node: Node, n: int, index: FunctionIndex, cells: Seq<Option<Value>>, cursors: Seq<u16>, ans: Seq<CallResult>) -> TickRun {
    match index.module_of(node.function) {
        None => TickRun { outcome: Outcome::Unknown(node.function), cells, cursors, leaves: seq![], calls: seq![] },
        Some(m) => {
            let rec = leaf_record(node, m, cells);
            if ans.len() == 0 {
                TickRun { outcome: Outcome::Stuck, cells, cursors, leaves: seq![], calls: seq![rec] }
            } else {
                let a = ans[0];
                let mu = apply_mutations(node.params@, cells, a.mutated@);
                if !mu.0 {
                    TickRun { outcome: Outcome::Fault, cells: mu.1, cursors, leaves: seq![n], calls: seq![rec] }
                } else {
                    match node.ret_cell {
                        Some(rc) => TickRun {
                            outcome: Outcome::Done(Status::Success),
                            cells: mu.1.update(rc as int, Some(a.ret)),
                            cursors,
                            leaves: seq![n],
                            calls: seq![rec],
                        },
                        None => TickRun {
                            outcome: Outcome::Done(leaf_status(a.ret)),
                            cells: mu.1,
                            cursors,
                            leaves: seq![n],
                            calls: seq![rec],
                        },
                    }
                }
            }
        },
    }
}

/// A completed tick.
pub open spec fn done(s: Status, cells: Seq<Option<Value>>, cursors: Seq<u16>, leaves: Seq<int>, calls: Seq<CallRecord>) -> TickRun {
    TickRun { outcome: Outcome::Done(s), cells, cursors, leaves, calls }
}

/// A run that ended early, having changed nothing.
pub open spec fn fault(cells: Seq<Option<Value>>, cursors: Seq<u16>) -> TickRun {
    TickRun { outcome: Outcome::Fault, cells, cursors, leaves: seq![], calls: seq![] }
}

/// Ticking node `n` from the given cells and cursors, with the leaves'
/// answers given in call order.
pub open spec fn tick_spec(nodes: Seq<Node>, index: FunctionIndex, n: int, cells: Seq<Option<Value>>, cursors: Seq<u16>, ans: Seq<CallResult>) -> TickRun
    decreases nodes.len() - n, 1int, 0int,
{
    if n < 0 || n >= nodes.len() {
        fault(cells, cursors)
    } else {
        match builtin_of(nodes[n].function) {
            Some(Builtin::Succeed) => done(Status::Success, cells, cursors, seq![], seq![]),
            Some(Builtin::Fail) => done(Status::Failure, cells, cursors, seq![], seq![]),
            Some(Builtin::Run) => done(Status::Running, cells, cursors, seq![], seq![]),
            Some(Builtin::Fallback) => if nodes[n].children@.len() == 0 {
                done(Status::Success, cells, cursors, seq![], seq![])
            } else {
                children_spec(nodes, index, n, Builtin::Fallback, 0, true, false, cells, cursors, ans)
            },
            Some(Builtin::SequenceStar) => if n < cursors.len() {
                children_spec(nodes, index, n, Builtin::SequenceStar, cursors[n] as int, true, false, cells, cursors, ans)
            } else {
                fault(cells, cursors)
            },
            Some(k) => children_spec(nodes, index, n, k, 0, true, false, cells, cursors, ans),
            None => leaf_spec(nodes[n], n, index, cells, cursors, ans),
        }
    }
}

/// A run `first`, continued by `rest`: the leaves and calls of both, in
/// order, and the outcome and state of `rest`.
pub open spec fn after(first: TickRun, rest: TickRun) -> TickRun {
    TickRun {
        outcome: rest.outcome,
        cells: rest.cells,
        cursors: rest.cursors,
        leaves: first.leaves + rest.leaves,
        calls: first.calls + rest.calls,
    }
}

/// What a control node decides once its children from `i` on have been
/// ticked (`succ`/`fail` accumulate the `parallel` verdict).
pub open spec fn children_spec(
    nodes: Seq<Node>,
    index: FunctionIndex,
    n: int,
    kind: Builtin,
    i: int,
    succ: bool,
    fail: bool,
    cells: Seq<Option<Value>>,
    cursors: Seq<u16>,
    ans: Seq<CallResult>,
) -> TickRun
    decreases nodes.len() - n, 0int, nodes[n].children@.len() - i,
{
    let ch = nodes[n].children@;
    if n < 0 || n >= nodes.len() || i < 0 {
        fault(cells, cursors)
    } else if i >= ch.len() {
        match kind {
            Builtin::Sequence => done(Status::Success, cells, cursors, seq![], seq![]),
            Builtin::SequenceStar => done(Status::Success, cells, cursors.update(n, 0), seq![], seq![]),
            Builtin::Fallback => done(Status::Failure, cells, cursors, seq![], seq![]),
            Builtin::Parallel => done(
                if succ { Status::Success } else if fail { Status::Failure } else { Status::Running },
                cells,
                cursors,
                seq![],
                seq![],
            ),
            _ => fault(cells, cursors),
        }
    } else {
        let c = ch[i] as int;
        if !(n < c && c < nodes.len()) {
            fault(cells, cursors)
        } else {
            let r = tick_spec(nodes, index, c, cells, cursors, ans);
            let k = r.leaves.len() as int;
            match r.outcome {
                Outcome::Done(s) => match kind {
                    Builtin::Sequence => match s {
                        Status::Success => after(r, children_spec(nodes, index, n, kind, i + 1, succ, fail, r.cells, r.cursors, ans.skip(k))),
                        _ => r,
                    },
                    Builtin::SequenceStar => match s {
                        Status::Success => after(r, children_spec(nodes, index, n, kind, i + 1, succ, fail, r.cells, r.cursors, ans.skip(k))),
                        Status::Failure => done(s, r.cells, r.cursors.update(n, 0), r.leaves, r.calls),
                        Status::Running => done(s, r.cells, r.cursors.update(n, i as u16), r.leaves, r.calls),
                    },
                    Builtin::Fallback => match s {
                        Status::Failure => after(r, children_spec(nodes, index, n, kind, i + 1, succ, fail, r.cells, r.cursors, ans.skip(k))),
                        _ => r,
                    },
                    Builtin::Parallel => after(
                        r,
                        children_spec(
                            nodes,
                            index,
                            n,
                            kind,
                            i + 1,
                            succ && s == Status::Success,
                            fail || s == Status::Failure,
                            r.cells,
                            r.cursors,
                            ans.skip(k),
                        ),
                    ),
                    _ => fault(cells, cursors),
                },
                _ => r,
            }
        }
    }
}

/// Ticking never consumes more answers than it is given, and a tick that was
/// not stuck gives the same run when more answers follow.
pub proof fn lemma_tick_extend(nodes: Seq<Node>, index: FunctionIndex, n: int, cells: Seq<Option<Value>>, cursors: Seq<u16>, a: Seq<CallResult>, b: Seq<CallResult>)
    ensures
        tick_spec(nodes, index, n, cells, cursors, a).leaves.len() <= a.len(),
        !(tick_spec(nodes, index, n, cells, cursors, a).outcome is Stuck) ==> tick_spec(nodes, index, n, cells, cursors, a + b) == tick_spec(nodes, index, n, cells, cursors, a),
    decreases nodes.len() - n, 1int, 0int,
{
    if n < 0 || n >= nodes.len() {
    } else {
        match builtin_of(nodes[n].function) {
            Some(Builtin::Succeed) => {},
            Some(Builtin::Fail) => {},
            Some(Builtin::Run) => {},
            Some(Builtin::Fallback) => if nodes[n].children@.len() == 0 {
            } else {
                lemma_children_extend(nodes, index, n, Builtin::Fallback, 0, true, false, cells, cursors, a, b);
            },
            Some(Builtin::SequenceStar) => if n < cursors.len() {
                lemma_children_extend(nodes, index, n, Builtin::SequenceStar, cursors[n] as int, true, false, cells, cursors, a, b);
            },
            Some(k) => lemma_children_extend(nodes, index, n, k, 0, true, false, cells, cursors, a, b),
            None => {
                if a.len() > 0 {
                    assert((a + b)[0] == a[0]);
                }
            },
        }
    }
}

/// The children iteration consumes no more answers than given, and is
/// unchanged by further answers unless it was stuck.
pub proof fn lemma_children_extend(
    nodes: Seq<Node>,
    index: FunctionIndex,
    n: int,
    kind: Builtin,
    i: int,
    succ: bool,
    fail: bool,
    cells: Seq<Option<Value>>,
    cursors: Seq<u16>,
    a: Seq<CallResult>,
    b: Seq<CallResult>,
)
    ensures
        children_spec(nodes, index, n, kind, i, succ, fail, cells, cursors, a).leaves.len() <= a.len(),
        !(children_spec(nodes, index, n, kind, i, succ, fail, cells, cursors, a).outcome is Stuck) ==>
            children_spec(nodes, index, n, kind, i, succ, fail, cells, cursors, a + b)
                == children_spec(nodes, index, n, kind, i, succ, fail, cells, cursors, a),
    decreases nodes.len() - n, 0int, nodes[n].children@.len() - i,
{
    let ch = nodes[n].children@;
    if n < 0 || n >= nodes.len() || i < 0 {
    } else if i >= ch.len() {
    } else {
        let c = ch[i] as int;
        if !(n < c && c < nodes.len()) {
        } else {
            lemma_tick_extend(nodes, index, c, cells, cursors, a, b);
            let r = tick_spec(nodes, index, c, cells, cursors, a);
            let k = r.leaves.len() as int;
            if let Outcome::Done(s) = r.outcome {
                assert((a + b).skip(k) =~= a.skip(k) + b);
                let (s2, f2) = if kind == Builtin::Parallel {
                    (succ && s == Status::Success, fail || s == Status::Failure)
                } else {
                    (succ, fail)
                };
                lemma_children_extend(nodes, index, n, kind, i + 1, s2, f2, r.cells, r.cursors, a.skip(k), b);
            }
        }
    }
}

/// A tree made of control nodes only hands the bridge no call and consumes
/// no answer, whatever the answers given.
pub proof fn lemma_builtins_call_nothing(nodes: Seq<Node>, index: FunctionIndex, n: int, cells: Seq<Option<Value>>, cursors: Seq<u16>, ans: Seq<CallResult>)
    requires
        forall|i: int| 0 <= i < nodes.len() ==> builtin_of(#[trigger] nodes[i].function) is Some,
    ensures
        tick_spec(nodes, index, n, cells, cursors, ans).calls.len() == 0,
        tick_spec(nodes, index, n, cells, cursors, ans).leaves.len() == 0,
    decreases nodes.len() - n, 1int, 0int,
{
    if 0 <= n < nodes.len() {
        match builtin_of(nodes[n].function) {
            Some(Builtin::Fallback) => if nodes[n].children@.len() > 0 {
                lemma_builtin_children_call_nothing(nodes, index, n, Builtin::Fallback, 0, true, false, cells, cursors, ans);
            },
            Some(Builtin::SequenceStar) => if n < cursors.len() {
                lemma_builtin_children_call_nothing(nodes, index, n, Builtin::SequenceStar, cursors[n] as int, true, false, cells, cursors, ans);
            },
            Some(Builtin::Succeed) => {},
            Some(Builtin::Fail) => {},
            Some(Builtin::Run) => {},
            Some(k) => lemma_builtin_children_call_nothing(nodes, index, n, k, 0, true, false, cells, cursors, ans),
            None => {},
        }
    }
}

/// The children form of [`lemma_builtins_call_nothing`].
pub proof fn lemma_builtin_children_call_nothing(
    nodes: Seq<Node>,
    index: FunctionIndex,
    n: int,
    kind: Builtin,
    i: int,
    succ: bool,
    fail: bool,
    cells: Seq<Option<Value>>,
    cursors: Seq<u16>,
    ans: Seq<CallResult>,
)
    requires
        forall|j: int| 0 <= j < nodes.len() ==> builtin_of(#[trigger] nodes[j].function) is Some,
    ensures
        children_spec(nodes, index, n, kind, i, succ, fail, cells, cursors, ans).calls.len() == 0,
        children_spec(nodes, index, n, kind, i, succ, fail, cells, cursors, ans).leaves.len() == 0,
    decreases nodes.len() - n, 0int, nodes[n].children@.len() - i,
{
    let ch = nodes[n].children@;
    if 0 <= n < nodes.len() && 0 <= i < ch.len() {
        let c = ch[i] as int;
        if n < c && c < nodes.len() {
            lemma_builtins_call_nothing(nodes, index, c, cells, cursors, ans);
            let r = tick_spec(nodes, index, c, cells, cursors, ans);
            if let Outcome::Done(s) = r.outcome {
                let (s2, f2) = if kind == Builtin::Parallel {
                    (succ && s == Status::Success, fail || s == Status::Failure)
                } else {
                    (succ, fail)
                };
                lemma_builtin_children_call_nothing(nodes, index, n, kind, i + 1, s2, f2, r.cells, r.cursors, ans.skip(r.leaves.len() as int));
            }
        }
    }
}

/// A leaf whose function no module of the index provides is refused with
/// that function's id, before any call and without touching the state.
pub proof fn lemma_unknown_function_refused(nodes: Seq<Node>, index: FunctionIndex, n: int, cells: Seq<Option<Value>>, cursors: Seq<u16>, ans: Seq<CallResult>)
    requires
        0 <= n < nodes.len(),
        builtin_of(nodes[n].function) is None,
        index.module_of(nodes[n].function) is None,
    ensures
        tick_spec(nodes, index, n, cells, cursors, ans).outcome == Outcome::Unknown(nodes[n].function),
        tick_spec(nodes, index, n, cells, cursors, ans).calls.len() == 0,
        tick_spec(nodes, index, n, cells, cursors, ans).cells == cells,
        tick_spec(nodes, index, n, cells, cursors, ans).cursors == cursors,
{
}

/// A leaf whose function module `m` provides hands the bridge exactly one
/// call: to `m`, for its function, with one argument per parameter read from
/// its cell.
pub proof fn lemma_leaf_makes_one_call(nodes: Seq<Node>, index: FunctionIndex, n: int, cells: Seq<Option<Value>>, cursors: Seq<u16>, ans: Seq<CallResult>, m: u128)
    requires
        0 <= n < nodes.len(),
        builtin_of(nodes[n].function) is None,
        index.module_of(nodes[n].function) == Some(m),
    ensures
        tick_spec(nodes, index, n, cells, cursors, ans).calls == seq![leaf_record(nodes[n], m, cells)],
        leaf_record(nodes[n], m, cells).args.len() == nodes[n].params@.len(),
{
}

/// A tick keeps the number of `seq_star` cursors.
pub proof fn lemma_tick_keeps_cursor_count(nodes: Seq<Node>, index: FunctionIndex, n: int, cells: Seq<Option<Value>>, cursors: Seq<u16>, ans: Seq<CallResult>)
    requires
        nodes.len() <= cursors.len(),
    ensures
        tick_spec(nodes, index, n, cells, cursors, ans).cursors.len() == cursors.len(),
    decreases nodes.len() - n, 1int, 0int,
{
    if 0 <= n < nodes.len() {
        match builtin_of(nodes[n].function) {
            Some(Builtin::Fallback) => if nodes[n].children@.len() > 0 {
                lemma_children_keep_cursor_count(nodes, index, n, Builtin::Fallback, 0, true, false, cells, cursors, ans);
            },
            Some(Builtin::SequenceStar) => if n < cursors.len() {
                lemma_children_keep_cursor_count(nodes, index, n, Builtin::SequenceStar, cursors[n] as int, true, false, cells, cursors, ans);
            },
            Some(Builtin::Succeed) => {},
            Some(Builtin::Fail) => {},
            Some(Builtin::Run) => {},
            Some(k) => lemma_children_keep_cursor_count(nodes, index, n, k, 0, true, false, cells, cursors, ans),
            None => {},
        }
    }
}

/// The children form of [`lemma_tick_keeps_cursor_count`].
pub proof fn lemma_children_keep_cursor_count(
    nodes: Seq<Node>,
    index: FunctionIndex,
    n: int,
    kind: Builtin,
    i: int,
    succ: bool,
    fail: bool,
    cells: Seq<Option<Value>>,
    cursors: Seq<u16>,
    ans: Seq<CallResult>,
)
    requires
        nodes.len() <= cursors.len(),
    ensures
        children_spec(nodes, index, n, kind, i, succ, fail, cells, cursors, ans).cursors.len() == cursors.len(),
    decreases nodes.len() - n, 0int, nodes[n].children@.len() - i,
{
    let ch = nodes[n].children@;
    if 0 <= n < nodes.len() && 0 <= i < ch.len() {
        let c = ch[i] as int;
        if n < c && c < nodes.len() {
            lemma_tick_keeps_cursor_count(nodes, index, c, cells, cursors, ans);
            let r = tick_spec(nodes, index, c, cells, cursors, ans);
            if let Outcome::Done(s) = r.outcome {
                let (s2, f2) = if kind == Builtin::Parallel {
                    (succ && s == Status::Success, fail || s == Status::Failure)
                } else {
                    (succ, fail)
                };
                lemma_children_keep_cursor_count(nodes, index, n, kind, i + 1, s2, f2, r.cells, r.cursors, ans.skip(r.leaves.len() as int));
            }
        }
    }
}

/// A `seq_star` node that ends a tick with `Success` or `Failure` leaves its
/// index at 0, so its next tick starts again from its first child; only a
/// `Running` verdict keeps a nonzero index.
pub proof fn lemma_seq_star_resets_unless_running(nodes: Seq<Node>, index: FunctionIndex, n: int, cells: Seq<Option<Value>>, cursors: Seq<u16>, ans: Seq<CallResult>)
    requires
        0 <= n < nodes.len(),
        nodes.len() <= cursors.len(),
        builtin_of(nodes[n].function) == Some(Builtin::SequenceStar),
    ensures
        tick_spec(nodes, index, n, cells, cursors, ans).outcome matches Outcome::Done(s) && s != Status::Running
            ==> tick_spec(nodes, index, n, cells, cursors, ans).cursors[n] == 0,
{
    lemma_seq_star_children_reset(nodes, index, n, cursors[n] as int, true, false, cells, cursors, ans);
}

/// The children form of [`lemma_seq_star_resets_unless_running`], from any
/// child index.
proof fn lemma_seq_star_children_reset(
    nodes: Seq<Node>,
    index: FunctionIndex,
    n: int,
    i: int,
    succ: bool,
    fail: bool,
    cells: Seq<Option<Value>>,
    cursors: Seq<u16>,
    ans: Seq<CallResult>,
)
    requires
        0 <= n < nodes.len(),
        nodes.len() <= cursors.len(),
    ensures
        children_spec(nodes, index, n, Builtin::SequenceStar, i, succ, fail, cells, cursors, ans).outcome matches Outcome::Done(s)
            && s != Status::Running
            ==> children_spec(nodes, index, n, Builtin::SequenceStar, i, succ, fail, cells, cursors, ans).cursors[n] == 0,
    decreases nodes[n].children@.len() - i,
{
    let ch = nodes[n].children@;
    if 0 <= i < ch.len() {
        let c = ch[i] as int;
        if n < c && c < nodes.len() {
            lemma_tick_keeps_cursor_count(nodes, index, c, cells, cursors, ans);
            let r = tick_spec(nodes, index, c, cells, cursors, ans);
            if r.outcome == Outcome::Done(Status::Success) {
                lemma_seq_star_children_reset(nodes, index, n, i + 1, succ, fail, r.cells, r.cursors, ans.skip(r.leaves.len() as int));
            }
        }
    }
}

/// The answers of a trace, in call order.
pub open spec fn answers_of(t: Seq<LeafAnswer>) -> Seq<CallResult> {
    t.map_values(|e: LeafAnswer| e.result)
}

/// The nodes a trace called, in call order.
pub open spec fn nodes_of(t: Seq<LeafAnswer>) -> Seq<int> {
    t.map_values(|e: LeafAnswer| e.node as int)
}

/// The calls of a bridge log, in order.
pub open spec fn records_of(log: Seq<(CallRecord, Result<CallResult, CallError>)>) -> Seq<CallRecord> {
    log.map_values(|e: (CallRecord, Result<CallResult, CallError>)| e.0)
}

/// The answers of a bridge log that came back `Ok`, in order.
pub open spec fn answers_in(log: Seq<(CallRecord, Result<CallResult, CallError>)>) -> Seq<CallResult>
    decreases log.len(),
{
    if log.len() == 0 {
        Seq::empty()
    } else {
        answers_in(log.drop_last()) + match log.last().1 {
            Ok(a) => seq![a],
            Err(_) => Seq::empty(),
        }
    }
}

/// The answers of two logs in a row are those of the first, then those of
/// the second.
proof fn lemma_answers_in_concat(a: Seq<(CallRecord, Result<CallResult, CallError>)>, b: Seq<(CallRecord, Result<CallResult, CallError>)>)
    ensures
        answers_in(a + b) == answers_in(a) + answers_in(b),
    decreases b.len(),
{
    if b.len() == 0 {
        assert(a + b =~= a);
    } else {
        lemma_answers_in_concat(a, b.drop_last());
        assert((a + b).drop_last() =~= a + b.drop_last());
        assert((a + b).last() == b.last());
    }
}

/// The exec result agrees with a spec run: `Ok` with the status of a
/// completed tick, the bridge's call error when stuck, `FunctionNotFound`
/// for a function no module provides, an internal error on a fault.
pub open spec fn agrees(r: Result<Status, BehaviorTreeError>, run: TickRun) -> bool {
    match run.outcome {
        Outcome::Done(s) => r == Ok::<Status, BehaviorTreeError>(s),
        Outcome::Stuck => r matches Err(BehaviorTreeError::CallError(_)),
        Outcome::Unknown(f) => r == Err::<Status, BehaviorTreeError>(
            BehaviorTreeError::CallError(CallError::FunctionNotFound { id: f }),
        ),
        Outcome::Fault => r matches Err(BehaviorTreeError::InternalError { .. }),
    }
}

/// Well-formedness of an arena: children come after their parent and fit,
/// parameter and return cells exist, one cursor per node.
pub open spec fn arena_wf(nodes: Seq<Node>, n_cells: nat, n_cursors: nat) -> bool {
    &&& n_cursors == nodes.len()
    &&& forall|i: int|
        0 <= i < nodes.len() && builtin_of(#[trigger] nodes[i].function) == Some(Builtin::SequenceStar) ==> nodes[i].children@.len() < 65536
    &&& forall|i: int, j: int|
        0 <= i < nodes.len() && 0 <= j < nodes[i].children@.len() ==> i < #[trigger] nodes[i].children@[j] < nodes.len()
    &&& forall|i: int, j: int|
        0 <= i < nodes.len() && 0 <= j < nodes[i].params@.len() ==> #[trigger] nodes[i].params@[j].cell < n_cells
    &&& forall|i: int| 0 <= i < nodes.len() && (#[trigger] nodes[i].ret_cell) is Some ==> nodes[i].ret_cell->0 < n_cells
}

/// The call a leaf node makes, its arguments read from the cells.
fn leaf_call(node: &Node, cells: &Vec<Option<Value>>) -> (call: Call)
    requires
        forall|j: int| 0 <= j < node.params@.len() ==> #[trigger] node.params@[j].cell < cells@.len(),
    ensures
        call.module_id is None,
        call.id == node.function,
        call.args@ == call_args(node.params@, cells@),
{
    let mut args: Vec<StructureField> = Vec::with_capacity(node.params.len());
    let mut j: usize = 0;
    while j < node.params.len()
        invariant
            j <= node.params@.len(),
            forall|q: int| 0 <= q < node.params@.len() ==> #[trigger] node.params@[q].cell < cells@.len(),
            args@.len() == j,
            forall|q: int| 0 <= q < j ==> (#[trigger] args@[q]).id == node.params@[q].id && args@[q].value == cell_value(cells@[node.params@[q].cell as int]),
        decreases node.params@.len() - j,
    {
        let p = node.params[j];
        let value = match &cells[p.cell] {
            Some(v) => v.duplicate(),
            None => Value::Unit,
        };
        args.push(StructureField { id: p.id, value });
        j += 1;
    }
    assert(args@ =~= call_args(node.params@, cells@));
    Call { module_id: None, id: node.function, args }
}

/// The first parameter with id `id`, at or after `k`.
fn find_param_exec(params: &Vec<Param>, id: u128) -> (r: Option<usize>)
    ensures
        r matches Some(j) ==> find_param(params@, id, 0) == Some(j as int),
        r is None ==> find_param(params@, id, 0) is None,
{
    let mut k: usize = 0;
    while k < params.len()
        invariant
            k <= params@.len(),
            find_param(params@, id, 0) == find_param(params@, id, k as int),
        decreases params@.len() - k,
    {
        if params[k].id == id {
            return Some(k);
        }
        assert(find_param(params@, id, k as int) == find_param(params@, id, k + 1));
        k += 1;
    }
    None
}

/// Write a call's mutated parameters back into the node's cells.
fn write_mutations(params: &Vec<Param>, cells: &mut Vec<Option<Value>>, muts: &Vec<StructureField>) -> (ok: bool)
    requires
        forall|j: int| 0 <= j < params@.len() ==> #[trigger] params@[j].cell < old(cells)@.len(),
    ensures
        (ok, final(cells)@) == apply_mutations(params@, old(cells)@, muts@),
        final(cells)@.len() == old(cells)@.len(),
{
    let mut k: usize = 0;
    assert(muts@.skip(0) =~= muts@);
    while k < muts.len()
        invariant
            k <= muts@.len(),
            cells@.len() == old(cells)@.len(),
            forall|j: int| 0 <= j < params@.len() ==> #[trigger] params@[j].cell < cells@.len(),
            apply_mutations(params@, old(cells)@, muts@) == apply_mutations(params@, cells@, muts@.skip(k as int)),
        decreases muts@.len() - k,
    {
        assert(muts@.skip(k as int)[0] == muts@[k as int]);
        assert(muts@.skip(k as int).drop_first() =~= muts@.skip(k + 1));
        proof { lemma_find_param(params@, muts@[k as int].id, 0); }
        match find_param_exec(params, muts[k].id) {
            None => {
                return false;
            },
            Some(j) => {
                let ghost before = cells@;
                let ghost ms = muts@.skip(k as int);
                assert(ms.len() > 0);
                assert(ms[0].id == muts@[k as int].id);
                assert(find_param(params@, ms[0].id, 0) == Some(j as int));
                let v = muts[k].value.duplicate();
                cells.set(params[j].cell, Some(v));
                assert(apply_mutations(params@, before, muts@.skip(k as int)) == apply_mutations(
                    params@,
                    before.update(params@[j as int].cell as int, Some(muts@[k as int].value)),
                    muts@.skip(k as int).drop_first(),
                ));
            },
        }
        k += 1;
    }
    assert(muts@.skip(k as int) =~= Seq::<StructureField>::empty());
    true
}

/// Tick a leaf: look its function up, call it, record the answer, write
/// back mutations and the return value.
fn tick_leaf<B: CallBridge>(
    nodes: &Vec<Node>,
    index: &FunctionIndex,
    n: usize,
    cells: &mut Vec<Option<Value>>,
    cursors: &Vec<u16>,
    bridge: &mut LoggedBridge<B>,
    trace: &mut Vec<LeafAnswer>,
) -> (r: Result<Status, BehaviorTreeError>)
    requires
        arena_wf(nodes@, old(cells)@.len(), cursors@.len()),
        n < nodes@.len(),
    ensures
        final(cells)@.len() == old(cells)@.len(),
        final(trace)@.len() >= old(trace)@.len(),
        final(trace)@.subrange(0, old(trace)@.len() as int) == old(trace)@,
        ({
            let new = final(trace)@.skip(old(trace)@.len() as int);
            let log = final(bridge).calls().skip(old(bridge).calls().len() as int);
            let run = leaf_spec(nodes@[n as int], n as int, *index, old(cells)@, cursors@, answers_of(new));
            &&& final(cells)@ == run.cells
            &&& cursors@ == run.cursors
            &&& nodes_of(new) == run.leaves
            &&& final(bridge).calls() == old(bridge).calls() + log
            &&& records_of(log) == run.calls
            &&& answers_in(log) == answers_of(new)
            &&& agrees(r, run)
        }),
{
    let node = &nodes[n];
    let ghost old_trace = trace@;
    let ghost old_calls = bridge.calls();
    let module = match index.get(node.function) {
        None => {
            proof { lemma_no_new_answers(old_trace, trace@, old_calls); }
            return Err(BehaviorTreeError::CallError(CallError::FunctionNotFound { id: node.function }));
        },
        Some(m) => m,
    };
    let call = leaf_call(node, cells);
    let ghost rec = leaf_record(*node, module, cells@);
    assert(call_record(module, call) == rec);
    let answer = bridge.arora_call(&module, &call);
    proof { lemma_one_call(old_calls, rec, answer); }
    match answer {
        Err(e) => {
            assert(trace@.skip(old_trace.len() as int) =~= Seq::<LeafAnswer>::empty());
            assert(answers_of(trace@.skip(old_trace.len() as int)) =~= Seq::<CallResult>::empty());
            assert(nodes_of(trace@.skip(old_trace.len() as int)) =~= Seq::<int>::empty());
            Err(BehaviorTreeError::CallError(e))
        },
        Ok(result) => {
            let ok = write_mutations(&node.params, cells, &result.mutated);
            let r = if !ok {
                Err(BehaviorTreeError::InternalError {
                    message: String::from_str("a mutated parameter does not correspond to any node parameter"),
                })
            } else {
                match node.ret_cell {
                    Some(rc) => {
                        let v = result.ret.duplicate();
                        cells.set(rc, Some(v));
                        Ok(Status::Success)
                    },
                    None => match Status::from_value(&result.ret) {
                        Ok(s) => Ok(s),
                        Err(_) => Ok(Status::Success),
                    },
                }
            };
            let ghost res = result;
            trace.push(LeafAnswer { node: n, result });
            proof {
                let new = trace@.skip(old_trace.len() as int);
                assert(new =~= seq![LeafAnswer { node: n, result: res }]);
                assert(answers_of(new) =~= seq![res]);
                assert(nodes_of(new) =~= seq![n as int]);
                assert(trace@.subrange(0, old_trace.len() as int) =~= old_trace);
            }
            r
        },
    }
}

/// Tick node `n`, recording each answered leaf call in `trace`.
fn tick_node<B: CallBridge>(
    nodes: &Vec<Node>,
    index: &FunctionIndex,
    n: usize,
    cells: &mut Vec<Option<Value>>,
    cursors: &mut Vec<u16>,
    bridge: &mut LoggedBridge<B>,
    trace: &mut Vec<LeafAnswer>,
) -> (r: Result<Status, BehaviorTreeError>)
    requires
        arena_wf(nodes@, old(cells)@.len(), old(cursors)@.len()),
        n < nodes@.len(),
    ensures
        final(cells)@.len() == old(cells)@.len(),
        final(cursors)@.len() == old(cursors)@.len(),
        final(trace)@.len() >= old(trace)@.len(),
        final(trace)@.subrange(0, old(trace)@.len() as int) == old(trace)@,
        ({
            let new = final(trace)@.skip(old(trace)@.len() as int);
            let log = final(bridge).calls().skip(old(bridge).calls().len() as int);
            let run = tick_spec(nodes@, *index, n as int, old(cells)@, old(cursors)@, answers_of(new));
            &&& final(cells)@ == run.cells
            &&& final(cursors)@ == run.cursors
            &&& nodes_of(new) == run.leaves
            &&& final(bridge).calls() == old(bridge).calls() + log
            &&& records_of(log) == run.calls
            &&& answers_in(log) == answers_of(new)
            &&& agrees(r, run)
        }),
    decreases nodes@.len() - n, 1int, 0int,
{
    let ghost old_trace = trace@;
    let ghost old_calls = bridge.calls();
    let node = &nodes[n];
    match builtin(node.function) {
        Some(Builtin::Succeed) => {
            proof { lemma_no_new_answers(old_trace, trace@, old_calls); }
            Ok(Status::Success)
        },
        Some(Builtin::Fail) => {
            proof { lemma_no_new_answers(old_trace, trace@, old_calls); }
            Ok(Status::Failure)
        },
        Some(Builtin::Run) => {
            proof { lemma_no_new_answers(old_trace, trace@, old_calls); }
            Ok(Status::Running)
        },
        Some(Builtin::Fallback) => {
            if node.children.len() == 0 {
                proof { lemma_no_new_answers(old_trace, trace@, old_calls); }
                Ok(Status::Success)
            } else {
                tick_children(nodes, index, n, Builtin::Fallback, 0, true, false, cells, cursors, bridge, trace)
            }
        },
        Some(Builtin::SequenceStar) => {
            let start = cursors[n] as usize;
            tick_children(nodes, index, n, Builtin::SequenceStar, start, true, false, cells, cursors, bridge, trace)
        },
        Some(k) => tick_children(nodes, index, n, k, 0, true, false, cells, cursors, bridge, trace),
        None => tick_leaf(nodes, index, n, cells, cursors, bridge, trace),
    }
}

/// A trace that did not grow adds no answers and no leaves, and a bridge
/// log that did not grow adds no calls and no answers.
proof fn lemma_no_new_answers(old_trace: Seq<LeafAnswer>, t: Seq<LeafAnswer>, calls: Seq<(CallRecord, Result<CallResult, CallError>)>)
    requires
        t == old_trace,
    ensures
        answers_of(t.skip(old_trace.len() as int)) =~= Seq::<CallResult>::empty(),
        nodes_of(t.skip(old_trace.len() as int)) =~= Seq::<int>::empty(),
        t.subrange(0, old_trace.len() as int) =~= old_trace,
        calls.skip(calls.len() as int) =~= Seq::<(CallRecord, Result<CallResult, CallError>)>::empty(),
        calls + calls.skip(calls.len() as int) =~= calls,
        records_of(calls.skip(calls.len() as int)) =~= Seq::<CallRecord>::empty(),
        answers_in(calls.skip(calls.len() as int)) =~= Seq::<CallResult>::empty(),
{
    assert(calls.skip(calls.len() as int) =~= Seq::<(CallRecord, Result<CallResult, CallError>)>::empty());
}

/// A log that grew by one call: the call, and its answer when it was `Ok`.
proof fn lemma_one_call(calls: Seq<(CallRecord, Result<CallResult, CallError>)>, rec: CallRecord, res: Result<CallResult, CallError>)
    ensures
        calls.push((rec, res)).skip(calls.len() as int) =~= seq![(rec, res)],
        calls + calls.push((rec, res)).skip(calls.len() as int) =~= calls.push((rec, res)),
        records_of(seq![(rec, res)]) =~= seq![rec],
        answers_in(seq![(rec, res)]) =~= match res {
            Ok(a) => seq![a],
            Err(_) => Seq::<CallResult>::empty(),
        },
{
    let one = seq![(rec, res)];
    assert(one.drop_last() =~= Seq::<(CallRecord, Result<CallResult, CallError>)>::empty());
    assert(answers_in(one.drop_last()) =~= Seq::<CallResult>::empty());
}

/// Tick the children of control node `n` from index `i`.
#[verifier::spinoff_prover]
#[verifier::rlimit(60)]
fn tick_children<B: CallBridge>(
    nodes: &Vec<Node>,
    index: &FunctionIndex,
    n: usize,
    kind: Builtin,
    i: usize,
    succ: bool,
    fail: bool,
    cells: &mut Vec<Option<Value>>,
    cursors: &mut Vec<u16>,
    bridge: &mut LoggedBridge<B>,
    trace: &mut Vec<LeafAnswer>,
) -> (r: Result<Status, BehaviorTreeError>)
    requires
        arena_wf(nodes@, old(cells)@.len(), old(cursors)@.len()),
        n < nodes@.len(),
        kind != Builtin::Succeed && kind != Builtin::Fail && kind != Builtin::Run,
    ensures
        final(cells)@.len() == old(cells)@.len(),
        final(cursors)@.len() == old(cursors)@.len(),
        final(trace)@.len() >= old(trace)@.len(),
        final(trace)@.subrange(0, old(trace)@.len() as int) == old(trace)@,
        ({
            let new = final(trace)@.skip(old(trace)@.len() as int);
            let log = final(bridge).calls().skip(old(bridge).calls().len() as int);
            let run = children_spec(nodes@, *index, n as int, kind, i as int, succ, fail, old(cells)@, old(cursors)@, answers_of(new));
            &&& final(cells)@ == run.cells
            &&& final(cursors)@ == run.cursors
            &&& nodes_of(new) == run.leaves
            &&& final(bridge).calls() == old(bridge).calls() + log
            &&& records_of(log) == run.calls
            &&& answers_in(log) == answers_of(new)
            &&& agrees(r, run)
        }),
    decreases nodes@.len() - n, 0int, nodes@[n as int].children@.len() - i,
{
    let ghost old_trace = trace@;
    let ghost old_calls = bridge.calls();
    let ghost cells0 = cells@;
    let ghost cursors0 = cursors@;
    let node = &nodes[n];
    if i >= node.children.len() {
        proof { lemma_no_new_answers(old_trace, trace@, old_calls); }
        match kind {
            Builtin::Sequence => Ok(Status::Success),
            Builtin::SequenceStar => {
                cursors.set(n, 0);
                Ok(Status::Success)
            },
            Builtin::Fallback => Ok(Status::Failure),
            _ => {
                if succ {
                    Ok(Status::Success)
                } else if fail {
                    Ok(Status::Failure)
                } else {
                    Ok(Status::Running)
                }
            },
        }
    } else {
        let c = node.children[i];
        assert(n < c < nodes@.len());
        let r1 = tick_node(nodes, index, c, cells, cursors, bridge, trace);
        let ghost t1 = trace@;
        let ghost calls1 = bridge.calls();
        let ghost new1 = t1.skip(old_trace.len() as int);
        let ghost cells1 = cells@;
        let ghost cursors1 = cursors@;
        match r1 {
            Err(e) => Err(e),
            Ok(s) => {
                let cont = match kind {
                    Builtin::Sequence => s == Status::Success,
                    Builtin::SequenceStar => s == Status::Success,
                    Builtin::Fallback => s == Status::Failure,
                    _ => true,
                };
                if !cont {
                    if kind == Builtin::SequenceStar {
                        if s == Status::Failure {
                            cursors.set(n, 0);
                        } else {
                            cursors.set(n, i as u16);
                        }
                    }
                    Ok(s)
                } else {
                    let (s2, f2) = if kind == Builtin::Parallel {
                        (succ && s == Status::Success, fail || s == Status::Failure)
                    } else {
                        (succ, fail)
                    };
                    let r2 = tick_children(nodes, index, n, kind, i + 1, s2, f2, cells, cursors, bridge, trace);
                    proof {
                        let new2 = trace@.skip(t1.len() as int);
                        let new = trace@.skip(old_trace.len() as int);
                        assert(trace@.subrange(0, t1.len() as int) == t1);
                        assert(new =~= new1 + new2);
                        assert(answers_of(new) =~= answers_of(new1) + answers_of(new2));
                        assert(nodes_of(new) =~= nodes_of(new1) + nodes_of(new2));
                        lemma_tick_extend(nodes@, *index, c as int, cells0, cursors0, answers_of(new1), answers_of(new2));
                        let k = nodes_of(new1).len() as int;
                        assert((answers_of(new1) + answers_of(new2)).skip(k) =~= answers_of(new2));
                        let r = tick_spec(nodes@, *index, c as int, cells0, cursors0, answers_of(new1));
                        let log1 = calls1.skip(old_calls.len() as int);
                        let log2 = bridge.calls().skip(calls1.len() as int);
                        let log = bridge.calls().skip(old_calls.len() as int);
                        assert(bridge.calls() =~= old_calls + (log1 + log2));
                        assert(log =~= log1 + log2);
                        assert(records_of(log) =~= records_of(log1) + records_of(log2));
                        lemma_answers_in_concat(log1, log2);
                        assert(trace@.subrange(0, old_trace.len() as int) =~= old_trace) by {
                            assert(t1.subrange(0, old_trace.len() as int) == old_trace);
                            assert forall|q: int| 0 <= q < old_trace.len() implies trace@[q] == old_trace[q] by {
                                assert(trace@.subrange(0, t1.len() as int)[q] == t1[q]);
                                assert(t1.subrange(0, old_trace.len() as int)[q] == old_trace[q]);
                            }
                        }
                    }
                    r2
                }
            },
        }
    }
}

/// A node parameter's argument, as authored.
#[derive(Debug, PartialEq)]
pub enum Expression {
    /// A constant value, in a cell of its own.
    Value(Value),
    /// A shared variable: every parameter naming the same id shares one cell.
    VariableId(u128),
}

/// The variable cells of a tree, and which shared variable lives in which
/// cell.
#[derive(Debug)]
pub struct Variables {
    pub cells: Vec<Option<Value>>,
    /// `(variable id, cell)` pairs; each id appears at most once.
    pub ids: Vec<(u128, usize)>,
}

/// The cell bound to variable `id`, searching `ids` from `k`.
pub open spec fn lookup_var(ids: Seq<(u128, usize)>, id: u128, k: int) -> Option<usize>
    decreases ids.len() - k,
{
    if k < 0 || k >= ids.len() {
        None
    } else if ids[k].0 == id {
        Some(ids[k].1)
    } else {
        lookup_var(ids, id, k + 1)
    }
}

/// Looking up past a pushed pair finds the old binding, or the new one.
proof fn lemma_lookup_push(ids: Seq<(u128, usize)>, pair: (u128, usize), id: u128, k: int)
    requires
        0 <= k <= ids.len(),
    ensures
        lookup_var(ids.push(pair), id, k) == (if lookup_var(ids, id, k) is Some {
            lookup_var(ids, id, k)
        } else if pair.0 == id {
            Some(pair.1)
        } else {
            None
        }),
    decreases ids.len() - k,
{
    if k < ids.len() {
        assert(ids.push(pair)[k] == ids[k]);
        lemma_lookup_push(ids, pair, id, k + 1);
    } else {
        assert(ids.push(pair)[k] == pair);
        assert(lookup_var(ids.push(pair), id, k + 1) is None);
    }
}

/// A bound cell is one of the pairs' cells, hence below any bound they share.
proof fn lemma_lookup_bound(ids: Seq<(u128, usize)>, id: u128, k: int, n: int)
    requires
        forall|q: int| 0 <= q < ids.len() ==> (#[trigger] ids[q]).1 < n,
    ensures
        lookup_var(ids, id, k) matches Some(c) ==> c < n,
    decreases ids.len() - k,
{
    if k < 0 || k >= ids.len() {
    } else if ids[k].0 == id {
    } else {
        lemma_lookup_bound(ids, id, k + 1, n);
    }
}

/// Whether some variable is bound to cell `c`.
pub open spec fn var_cell(ids: Seq<(u128, usize)>, c: usize) -> bool {
    exists|k: int| 0 <= k < ids.len() && (#[trigger] ids[k]).1 == c
}

/// `ids2` extends `ids`, binding only cells from `n` on.
pub open spec fn ids_grow(ids: Seq<(u128, usize)>, ids2: Seq<(u128, usize)>, n: int) -> bool {
    &&& ids.len() <= ids2.len()
    &&& forall|k: int| 0 <= k < ids.len() ==> #[trigger] ids2[k] == ids[k]
    &&& forall|k: int| ids.len() <= k < ids2.len() ==> (#[trigger] ids2[k]).1 >= n
}

/// Growing the bindings keeps every bound cell bound, and binds no cell below
/// the bound it started from.
proof fn lemma_ids_grow(ids: Seq<(u128, usize)>, ids2: Seq<(u128, usize)>, n: int)
    requires
        ids_grow(ids, ids2, n),
    ensures
        forall|c: usize| #[trigger] var_cell(ids, c) ==> var_cell(ids2, c),
        forall|c: usize| c < n && #[trigger] var_cell(ids2, c) ==> var_cell(ids, c),
{
    assert forall|c: usize| #[trigger] var_cell(ids, c) implies var_cell(ids2, c) by {
        let k = choose|k: int| 0 <= k < ids.len() && (#[trigger] ids[k]).1 == c;
        assert(ids2[k] == ids[k]);
    }
    assert forall|c: usize| c < n && #[trigger] var_cell(ids2, c) implies var_cell(ids, c) by {
        let k = choose|k: int| 0 <= k < ids2.len() && (#[trigger] ids2[k]).1 == c;
        assert(k < ids.len());
        assert(ids2[k] == ids[k]);
    }
}

/// Growth composes.
proof fn lemma_ids_grow_trans(a: Seq<(u128, usize)>, b: Seq<(u128, usize)>, c: Seq<(u128, usize)>, n: int, m: int)
    requires
        ids_grow(a, b, n),
        ids_grow(b, c, m),
        n <= m,
    ensures
        ids_grow(a, c, n),
{
    assert forall|k: int| 0 <= k < a.len() implies #[trigger] c[k] == a[k] by {
        assert(c[k] == b[k]);
    }
    assert forall|k: int| a.len() <= k < c.len() implies (#[trigger] c[k]).1 >= n by {
        if k < b.len() {
            assert(c[k] == b[k]);
        }
    }
}

/// A variable's cell is a bound cell.
proof fn lemma_lookup_var_cell(ids: Seq<(u128, usize)>, id: u128, k: int)
    requires
        0 <= k,
    ensures
        lookup_var(ids, id, k) matches Some(c) ==> var_cell(ids, c),
    decreases ids.len() - k,
{
    if k >= ids.len() {
    } else if ids[k].0 == id {
        assert(ids[k].1 == ids[k].1);
    } else {
        lemma_lookup_var_cell(ids, id, k + 1);
    }
}

impl Variables {
    /// Every bound cell exists.
    pub open spec fn wf(&self) -> bool {
        forall|k: int| 0 <= k < self.ids@.len() ==> (#[trigger] self.ids@[k]).1 < self.cells@.len()
    }

    /// No variables yet.
    pub fn new() -> (r: Variables)
        ensures
            r.wf(),
            r.cells@.len() == 0,
            r.ids@.len() == 0,
    {
        Variables { cells: Vec::new(), ids: Vec::new() }
    }

    /// The cell bound to variable `id`, if any.
    pub fn cell_of(&self, id: u128) -> (r: Option<usize>)
        ensures
            r == lookup_var(self.ids@, id, 0),
    {
        let mut k: usize = 0;
        while k < self.ids.len()
            invariant
                k <= self.ids@.len(),
                lookup_var(self.ids@, id, 0) == lookup_var(self.ids@, id, k as int),
            decreases self.ids@.len() - k,
        {
            if self.ids[k].0 == id {
                return Some(self.ids[k].1);
            }
            k += 1;
        }
        None
    }

    /// The cell a parameter with argument `expr` reads and writes. A value
    /// gets a fresh cell holding it; a variable id gets the cell already
    /// bound to it, or a fresh empty one that is bound to it from now on.
    /// Earlier bindings and cell contents are unchanged.
    pub fn bind(&mut self, expr: &Expression) -> (cell: usize)
        requires
            old(self).wf(),
        ensures
            final(self).wf(),
            cell < final(self).cells@.len(),
            final(self).cells@.len() >= old(self).cells@.len(),
            forall|c: int| 0 <= c < old(self).cells@.len() ==> #[trigger] final(self).cells@[c] == old(self).cells@[c],
            forall|v: u128| (#[trigger] lookup_var(old(self).ids@, v, 0)) is Some ==> lookup_var(final(self).ids@, v, 0) == lookup_var(old(self).ids@, v, 0),
            ids_grow(old(self).ids@, final(self).ids@, old(self).cells@.len() as int),
            match *expr {
                Expression::Value(v) => cell == old(self).cells@.len() && final(self).cells@ == old(self).cells@.push(Some(v))
                    && final(self).ids@ == old(self).ids@ && !var_cell(final(self).ids@, cell),
                Expression::VariableId(id) => lookup_var(final(self).ids@, id, 0) == Some(cell) && var_cell(final(self).ids@, cell) && match lookup_var(old(self).ids@, id, 0) {
                    Some(c) => cell == c && final(self).cells@ == old(self).cells@ && final(self).ids@ == old(self).ids@,
                    None => cell == old(self).cells@.len() && final(self).cells@ == old(self).cells@.push(None),
                },
            },
    {
        match expr {
            Expression::Value(v) => {
                let cell = self.cells.len();
                self.cells.push(Some(v.duplicate()));
                assert(!var_cell(self.ids@, cell)) by {
                    if var_cell(self.ids@, cell) {
                        let k = choose|k: int| 0 <= k < self.ids@.len() && (#[trigger] self.ids@[k]).1 == cell;
                        assert(self.ids@[k].1 < old(self).cells@.len());
                    }
                }
                cell
            },
            Expression::VariableId(id) => {
                proof { lemma_lookup_bound(self.ids@, *id, 0, self.cells@.len() as int); }
                proof { lemma_lookup_var_cell(self.ids@, *id, 0); }
                match self.cell_of(*id) {
                    Some(c) => c,
                    None => {
                        let cell = self.cells.len();
                        self.cells.push(None);
                        let ghost old_ids = self.ids@;
                        self.ids.push((*id, cell));
                        proof {
                            assert forall|q: int| 0 <= q < self.ids@.len() implies (#[trigger] self.ids@[q]).1 < self.cells@.len() by {
                                if q < old_ids.len() {
                                    assert(self.ids@[q] == old_ids[q]);
                                }
                            }
                            assert forall|v: u128| (#[trigger] lookup_var(old_ids, v, 0)) is Some implies lookup_var(self.ids@, v, 0) == lookup_var(old_ids, v, 0) by {
                                lemma_lookup_push(old_ids, (*id, cell), v, 0);
                            }
                            lemma_lookup_push(old_ids, (*id, cell), *id, 0);
                            lemma_lookup_var_cell(self.ids@, *id, 0);
                        }
                        cell
                    },
                }
            },
        }
    }
}

/// A tree authored with direct children, before it is lowered into an arena.
#[derive(Debug)]
pub struct TreeNode {
    pub function: u128,
    pub children: Option<Vec<TreeNode>>,
    /// Arguments by parameter id.
    pub parameters: Vec<(u128, Expression)>,
    /// Where a function that does not return a status writes its return value.
    pub ret: Option<Expression>,
}

impl TreeNode {
    /// An action (leaf) node calling `function`.
    pub fn action_node(function: u128) -> (r: TreeNode)
        ensures
            r.function == function,
            r.children is None,
            r.parameters@.len() == 0,
            r.ret is None,
    {
        TreeNode { function, children: None, parameters: Vec::new(), ret: None }
    }

    /// A control node over `children`.
    pub fn control_node(function: u128, children: Vec<TreeNode>) -> (r: TreeNode)
        ensures
            r.function == function,
            r.children == Some(children),
            r.parameters@.len() == 0,
            r.ret is None,
    {
        TreeNode { function, children: Some(children), parameters: Vec::new(), ret: None }
    }
}

/// The `succeed` node.
pub fn succeed() -> (r: TreeNode)
    ensures
        r.function == SUCCEED_FUNCTION_ID && r.children is None && r.parameters@.len() == 0 && r.ret is None,
{
    TreeNode::action_node(SUCCEED_FUNCTION_ID)
}

/// The `fail` node.
pub fn fail() -> (r: TreeNode)
    ensures
        r.function == FAIL_FUNCTION_ID && r.children is None && r.parameters@.len() == 0 && r.ret is None,
{
    TreeNode::action_node(FAIL_FUNCTION_ID)
}

/// The `run` node.
pub fn run() -> (r: TreeNode)
    ensures
        r.function == RUN_FUNCTION_ID && r.children is None && r.parameters@.len() == 0 && r.ret is None,
{
    TreeNode::action_node(RUN_FUNCTION_ID)
}

/// A sequence: succeeds when every child succeeds, stops at the first child
/// that does not.
pub fn seq(children: Vec<TreeNode>) -> (r: TreeNode)
    ensures
        r.function == SEQ_FUNCTION_ID && r.children == Some(children) && r.parameters@.len() == 0 && r.ret is None,
{
    TreeNode::control_node(SEQ_FUNCTION_ID, children)
}

/// A resuming sequence: like `seq`, but a `Running` child is resumed on the
/// next tick without re-ticking the children that already succeeded.
pub fn seq_star(children: Vec<TreeNode>) -> (r: TreeNode)
    ensures
        r.function == SEQ_STAR_FUNCTION_ID && r.children == Some(children) && r.parameters@.len() == 0 && r.ret is None,
{
    TreeNode::control_node(SEQ_STAR_FUNCTION_ID, children)
}

/// A fallback: succeeds at the first child that succeeds.
pub fn fallback(children: Vec<TreeNode>) -> (r: TreeNode)
    ensures
        r.function == FALLBACK_FUNCTION_ID && r.children == Some(children) && r.parameters@.len() == 0 && r.ret is None,
{
    TreeNode::control_node(FALLBACK_FUNCTION_ID, children)
}

/// A parallel node: ticks every child, succeeds when all succeed, fails when
/// any fails, else runs.
pub fn parallel(children: Vec<TreeNode>) -> (r: TreeNode)
    ensures
        r.function == PARALLEL_FUNCTION_ID && r.children == Some(children) && r.parameters@.len() == 0 && r.ret is None,
{
    TreeNode::control_node(PARALLEL_FUNCTION_ID, children)
}

/// Whether some `seq_star` node of `t` has more children than its index can
/// count.
pub open spec fn too_wide(t: TreeNode) -> bool
    decreases t,
{
    match t.children {
        None => false,
        Some(kids) => {
            proof {
                assert(decreases_to!(t => t.children));
                assert(decreases_to!(t.children => kids));
                assert(decreases_to!(kids => kids@));
            }
            (builtin_of(t.function) == Some(Builtin::SequenceStar) && kids@.len() >= 65536) || any_too_wide(kids@)
        },
    }
}

/// Whether some tree of `ks` is `too_wide`.
pub open spec fn any_too_wide(ks: Seq<TreeNode>) -> bool
    decreases ks,
{
    if ks.len() == 0 {
        false
    } else {
        proof {
            assert(decreases_to!(ks => ks[ks.len() - 1]));
        }
        any_too_wide(ks.drop_last()) || too_wide(ks.last())
    }
}

/// The cell `c` serves the argument `e`: a constant's cell holds the
/// constant and no variable is bound to it, a variable's cell is the one
/// bound to the variable.
pub open spec fn arg_bound(e: Expression, c: usize, cells: Seq<Option<Value>>, ids: Seq<(u128, usize)>) -> bool {
    &&& c < cells.len()
    &&& match e {
        Expression::Value(v) => cells[c as int] == Some(v) && !var_cell(ids, c),
        Expression::VariableId(id) => lookup_var(ids, id, 0) == Some(c),
    }
}

/// The arena node `i` of `nodes`, with the cells and variable bindings, is
/// the lowering of `t`: same function, one parameter per argument in order
/// (each read from the cell serving it), the return cell serving the return
/// argument, and each child the lowering of the matching child of `t`.
pub open spec fn lowered(t: TreeNode, nodes: Seq<Node>, i: int, cells: Seq<Option<Value>>, ids: Seq<(u128, usize)>) -> bool
    decreases t,
{
    &&& 0 <= i < nodes.len()
    &&& nodes[i].function == t.function
    &&& nodes[i].params@.len() == t.parameters@.len()
    &&& forall|p: int| 0 <= p < t.parameters@.len() ==> nodes[i].params@[p].id == (#[trigger] t.parameters@[p]).0
        && arg_bound(t.parameters@[p].1, nodes[i].params@[p].cell, cells, ids)
    &&& match t.ret {
        None => nodes[i].ret_cell is None,
        Some(e) => nodes[i].ret_cell matches Some(c) && arg_bound(e, c, cells, ids),
    }
    &&& match t.children {
        None => nodes[i].children@.len() == 0,
        Some(kids) => {
            proof {
                assert(decreases_to!(t => t.children));
                assert(decreases_to!(t.children => kids));
                assert(decreases_to!(kids => kids@));
            }
            nodes[i].children@.len() == kids@.len() && kids_lowered(kids@, nodes, nodes[i].children@, cells, ids)
        },
    }
}

/// Each tree of `ks` is lowered at the matching index of `idxs`.
pub open spec fn kids_lowered(ks: Seq<TreeNode>, nodes: Seq<Node>, idxs: Seq<usize>, cells: Seq<Option<Value>>, ids: Seq<(u128, usize)>) -> bool
    decreases ks,
{
    if ks.len() == 0 {
        idxs.len() == 0
    } else {
        proof {
            assert(decreases_to!(ks => ks[ks.len() - 1]));
        }
        idxs.len() == ks.len()
            && kids_lowered(ks.drop_last(), nodes, idxs.drop_last(), cells, ids)
            && lowered(ks.last(), nodes, idxs.last() as int, cells, ids)
    }
}

/// `any_too_wide` holds exactly when some tree of the list is too wide.
proof fn lemma_any_too_wide(ks: Seq<TreeNode>)
    ensures
        any_too_wide(ks) <==> exists|k: int| 0 <= k < ks.len() && too_wide(#[trigger] ks[k]),
    decreases ks.len(),
{
    if ks.len() > 0 {
        let d = ks.drop_last();
        lemma_any_too_wide(d);
        if exists|k: int| 0 <= k < ks.len() && too_wide(#[trigger] ks[k]) {
            let k = choose|k: int| 0 <= k < ks.len() && too_wide(#[trigger] ks[k]);
            if k < ks.len() - 1 {
                assert(d[k] == ks[k]);
            }
        }
        if exists|k: int| 0 <= k < d.len() && too_wide(#[trigger] d[k]) {
            let k = choose|k: int| 0 <= k < d.len() && too_wide(#[trigger] d[k]);
            assert(ks[k] == d[k]);
        }
    }
}

/// A lowering stays a lowering when the arena grows past it, its nodes from
/// `i` on unchanged, and the cells and bindings only grow.
proof fn lemma_lowered_frame(
    t: TreeNode,
    nodes: Seq<Node>,
    nodes2: Seq<Node>,
    i: int,
    cells: Seq<Option<Value>>,
    cells2: Seq<Option<Value>>,
    ids: Seq<(u128, usize)>,
    ids2: Seq<(u128, usize)>,
    n_cells: nat,
)
    requires
        lowered(t, nodes, i, cells, ids),
        arena_partial_wf(nodes, n_cells),
        nodes.len() <= nodes2.len(),
        forall|j: int| i <= j < nodes.len() ==> nodes2[j] == nodes[j],
        cells.len() <= cells2.len(),
        forall|c: int| 0 <= c < cells.len() ==> cells2[c] == cells[c],
        forall|v: u128| (#[trigger] lookup_var(ids, v, 0)) is Some ==> lookup_var(ids2, v, 0) == lookup_var(ids, v, 0),
        ids_grow(ids, ids2, cells.len() as int),
    ensures
        lowered(t, nodes2, i, cells2, ids2),
    decreases t,
{
    lemma_ids_grow(ids, ids2, cells.len() as int);
    assert(nodes2[i] == nodes[i]);
    assert forall|p: int| 0 <= p < t.parameters@.len() implies nodes2[i].params@[p].id == (#[trigger] t.parameters@[p]).0
        && arg_bound(t.parameters@[p].1, nodes2[i].params@[p].cell, cells2, ids2) by {
        let e = t.parameters@[p].1;
        let c = nodes[i].params@[p].cell;
        assert(arg_bound(e, c, cells, ids));
        match e {
            Expression::Value(v) => {
                assert(cells2[c as int] == cells[c as int]);
            },
            Expression::VariableId(id) => {
                assert(lookup_var(ids, id, 0) is Some);
            },
        }
    }
    match t.ret {
        None => {},
        Some(e) => {
            let c = nodes[i].ret_cell->0;
            match e {
                Expression::Value(v) => {
                    assert(cells2[c as int] == cells[c as int]);
                },
                Expression::VariableId(id) => {
                    assert(lookup_var(ids, id, 0) is Some);
                },
            }
        },
    }
    match t.children {
        None => {},
        Some(kids) => {
            assert(decreases_to!(t => t.children));
            assert(decreases_to!(t.children => kids));
            assert(decreases_to!(kids => kids@));
            let idxs = nodes[i].children@;
            assert forall|j: int| 0 <= j < idxs.len() implies i < #[trigger] idxs[j] < nodes.len() by {
                assert(i < nodes[i].children@[j] < nodes.len());
            }
            lemma_kids_frame(kids@, nodes, nodes2, idxs, i + 1, cells, cells2, ids, ids2, n_cells);
        },
    }
}

/// The list form of `lemma_lowered_frame`, for lowerings at indices from
/// `lo` on.
proof fn lemma_kids_frame(
    ks: Seq<TreeNode>,
    nodes: Seq<Node>,
    nodes2: Seq<Node>,
    idxs: Seq<usize>,
    lo: int,
    cells: Seq<Option<Value>>,
    cells2: Seq<Option<Value>>,
    ids: Seq<(u128, usize)>,
    ids2: Seq<(u128, usize)>,
    n_cells: nat,
)
    requires
        kids_lowered(ks, nodes, idxs, cells, ids),
        forall|j: int| 0 <= j < idxs.len() ==> lo <= #[trigger] idxs[j],
        arena_partial_wf(nodes, n_cells),
        nodes.len() <= nodes2.len(),
        forall|j: int| lo <= j < nodes.len() ==> nodes2[j] == nodes[j],
        cells.len() <= cells2.len(),
        forall|c: int| 0 <= c < cells.len() ==> cells2[c] == cells[c],
        forall|v: u128| (#[trigger] lookup_var(ids, v, 0)) is Some ==> lookup_var(ids2, v, 0) == lookup_var(ids, v, 0),
        ids_grow(ids, ids2, cells.len() as int),
    ensures
        kids_lowered(ks, nodes2, idxs, cells2, ids2),
    decreases ks,
{
    if ks.len() > 0 {
        assert(decreases_to!(ks => ks[ks.len() - 1]));
        let d = idxs.drop_last();
        assert forall|j: int| 0 <= j < d.len() implies lo <= #[trigger] d[j] by {
            assert(d[j] == idxs[j]);
        }
        lemma_kids_frame(ks.drop_last(), nodes, nodes2, d, lo, cells, cells2, ids, ids2, n_cells);
        let last = idxs.last() as int;
        assert(lo <= idxs[idxs.len() - 1]);
        lemma_lowered_frame(ks.last(), nodes, nodes2, last, cells, cells2, ids, ids2, n_cells);
    }
}

/// Parameters naming the same variable share one cell: any two arguments
/// of a lowered tree that name variable `id` are served by the same cell.
pub proof fn lemma_shared_variable_one_cell(
    id: u128,
    c1: usize,
    c2: usize,
    cells: Seq<Option<Value>>,
    ids: Seq<(u128, usize)>,
)
    requires
        arg_bound(Expression::VariableId(id), c1, cells, ids),
        arg_bound(Expression::VariableId(id), c2, cells, ids),
    ensures
        c1 == c2,
{
}

/// The cell of slot `p` of a node: its `p`-th parameter's cell, or, just
/// past the parameters, its return cell.
pub open spec fn node_slot(node: Node, p: int) -> Option<usize> {
    if 0 <= p < node.params@.len() {
        Some(node.params@[p].cell)
    } else if p == node.params@.len() {
        node.ret_cell
    } else {
        None
    }
}

/// The cell of slot `p` of arena node `i`.
pub open spec fn slot_cell(nodes: Seq<Node>, i: int, p: int) -> Option<usize> {
    if 0 <= i < nodes.len() {
        node_slot(nodes[i], p)
    } else {
        None
    }
}

/// Constants are not shared: two slots of the arena with the same cell are
/// one slot, unless a variable is bound to that cell.
pub open spec fn constants_private(nodes: Seq<Node>, ids: Seq<(u128, usize)>) -> bool {
    forall|i1: int, p1: int, i2: int, p2: int|
        #![trigger slot_cell(nodes, i1, p1), slot_cell(nodes, i2, p2)]
        slot_cell(nodes, i1, p1) is Some && slot_cell(nodes, i2, p2) == slot_cell(nodes, i1, p1)
            && !var_cell(ids, slot_cell(nodes, i1, p1)->0) ==> i1 == i2 && p1 == p2
}

/// The slots of the nodes from `lo` on that no variable is bound to have
/// cells from `min` on.
spec fn fresh_from(nodes: Seq<Node>, lo: int, min: int, ids: Seq<(u128, usize)>) -> bool {
    forall|i: int, p: int|
        lo <= i && #[trigger] slot_cell(nodes, i, p) is Some && !var_cell(ids, slot_cell(nodes, i, p)->0)
            ==> slot_cell(nodes, i, p)->0 >= min
}

/// Every slot of a partially filled arena has a cell below `n_cells`.
proof fn lemma_slot_bound(nodes: Seq<Node>, n_cells: nat, i: int, p: int)
    requires
        arena_partial_wf(nodes, n_cells),
    ensures
        slot_cell(nodes, i, p) matches Some(c) ==> c < n_cells,
{
    if 0 <= i < nodes.len() && 0 <= p < nodes[i].params@.len() {
        assert(nodes[i].params@[p].cell < n_cells);
    }
}

/// An arena with a slotless node appended keeps its constants private, and
/// the new node has no slot.
proof fn lemma_private_push(nodes: Seq<Node>, node: Node, ids: Seq<(u128, usize)>, min: int)
    requires
        constants_private(nodes, ids),
        node.params@.len() == 0,
        node.ret_cell is None,
    ensures
        constants_private(nodes.push(node), ids),
        fresh_from(nodes.push(node), nodes.len() as int, min, ids),
{
    let n2 = nodes.push(node);
    assert forall|i: int, p: int| #[trigger] slot_cell(n2, i, p) == slot_cell(nodes, i, p) by {
        if 0 <= i < nodes.len() {
            assert(n2[i] == nodes[i]);
        }
    }
}

/// Binding more variables keeps constants private and fresh slots fresh.
proof fn lemma_private_ids_grow(nodes: Seq<Node>, ids: Seq<(u128, usize)>, ids2: Seq<(u128, usize)>, lo: int, min: int, n_cells: nat)
    requires
        constants_private(nodes, ids),
        fresh_from(nodes, lo, min, ids),
        arena_partial_wf(nodes, n_cells),
        ids_grow(ids, ids2, n_cells as int),
    ensures
        constants_private(nodes, ids2),
        fresh_from(nodes, lo, min, ids2),
{
    lemma_ids_grow(ids, ids2, n_cells as int);
    assert forall|i1: int, p1: int, i2: int, p2: int|
        #![trigger slot_cell(nodes, i1, p1), slot_cell(nodes, i2, p2)]
        slot_cell(nodes, i1, p1) is Some && slot_cell(nodes, i2, p2) == slot_cell(nodes, i1, p1)
            && !var_cell(ids2, slot_cell(nodes, i1, p1)->0) implies i1 == i2 && p1 == p2 by {
        lemma_slot_bound(nodes, n_cells, i1, p1);
    }
    assert forall|i: int, p: int|
        lo <= i && #[trigger] slot_cell(nodes, i, p) is Some && !var_cell(ids2, slot_cell(nodes, i, p)->0)
            implies slot_cell(nodes, i, p)->0 >= min by {
        lemma_slot_bound(nodes, n_cells, i, p);
    }
}

/// Appending nodes whose unshared cells are new keeps the nodes from `lo`
/// fresh.
proof fn lemma_fresh_extend(
    nodes: Seq<Node>,
    nodes2: Seq<Node>,
    ids: Seq<(u128, usize)>,
    ids2: Seq<(u128, usize)>,
    lo: int,
    min: int,
    n_cells: nat,
)
    requires
        fresh_from(nodes, lo, min, ids),
        arena_partial_wf(nodes, n_cells),
        nodes.len() <= nodes2.len(),
        forall|i: int| 0 <= i < nodes.len() ==> #[trigger] nodes2[i] == nodes[i],
        fresh_from(nodes2, nodes.len() as int, n_cells as int, ids2),
        ids_grow(ids, ids2, n_cells as int),
        min <= n_cells,
    ensures
        fresh_from(nodes2, lo, min, ids2),
{
    lemma_ids_grow(ids, ids2, n_cells as int);
    assert forall|i: int, p: int|
        lo <= i && #[trigger] slot_cell(nodes2, i, p) is Some && !var_cell(ids2, slot_cell(nodes2, i, p)->0)
            implies slot_cell(nodes2, i, p)->0 >= min by {
        if i < nodes.len() {
            assert(nodes2[i] == nodes[i]);
            assert(slot_cell(nodes2, i, p) == slot_cell(nodes, i, p));
            lemma_slot_bound(nodes, n_cells, i, p);
        }
    }
}

/// Filling a slotless node with slots whose unshared cells are new and
/// distinct keeps constants private.
proof fn lemma_private_set(nodes: Seq<Node>, idx: int, node: Node, ids: Seq<(u128, usize)>, lo: int, min: int, n_cells: nat)
    requires
        0 <= lo <= idx < nodes.len(),
        nodes[idx].params@.len() == 0,
        nodes[idx].ret_cell is None,
        constants_private(nodes, ids),
        fresh_from(nodes, lo, min, ids),
        arena_partial_wf(nodes, n_cells),
        min <= n_cells,
        forall|p: int| #[trigger] node_slot(node, p) is Some && !var_cell(ids, node_slot(node, p)->0) ==> node_slot(node, p)->0 >= n_cells,
        forall|p1: int, p2: int|
            #![trigger node_slot(node, p1), node_slot(node, p2)]
            node_slot(node, p1) is Some && node_slot(node, p2) == node_slot(node, p1) && !var_cell(ids, node_slot(node, p1)->0) ==> p1 == p2,
    ensures
        constants_private(nodes.update(idx, node), ids),
        fresh_from(nodes.update(idx, node), lo, min, ids),
{
    let n2 = nodes.update(idx, node);
    assert forall|i: int, p: int| i != idx implies #[trigger] slot_cell(n2, i, p) == slot_cell(nodes, i, p) by {
        if 0 <= i < nodes.len() {
            assert(n2[i] == nodes[i]);
        }
    }
    assert forall|p: int| #[trigger] slot_cell(n2, idx, p) == node_slot(node, p) by {
        assert(n2[idx] == node);
    }
    assert forall|p: int| #[trigger] slot_cell(nodes, idx, p) is None by {}
    assert forall|i1: int, p1: int, i2: int, p2: int|
        #![trigger slot_cell(n2, i1, p1), slot_cell(n2, i2, p2)]
        slot_cell(n2, i1, p1) is Some && slot_cell(n2, i2, p2) == slot_cell(n2, i1, p1)
            && !var_cell(ids, slot_cell(n2, i1, p1)->0) implies i1 == i2 && p1 == p2 by {
        lemma_slot_bound(nodes, n_cells, i1, p1);
        lemma_slot_bound(nodes, n_cells, i2, p2);
        if i1 == idx && i2 == idx {
            assert(node_slot(node, p1) is Some);
        } else if i1 == idx {
            assert(node_slot(node, p1) is Some);
        } else if i2 == idx {
            assert(node_slot(node, p2) is Some);
        } else {
            assert(slot_cell(nodes, i1, p1) == slot_cell(n2, i1, p1));
            assert(slot_cell(nodes, i2, p2) == slot_cell(n2, i2, p2));
        }
    }
    assert forall|i: int, p: int|
        lo <= i && #[trigger] slot_cell(n2, i, p) is Some && !var_cell(ids, slot_cell(n2, i, p)->0)
            implies slot_cell(n2, i, p)->0 >= min by {
        if i == idx {
            assert(node_slot(node, p) is Some);
        } else {
            assert(slot_cell(nodes, i, p) == slot_cell(n2, i, p));
        }
    }
}

/// The part of [`arena_wf`] that holds while an arena is being filled.
pub open spec fn arena_partial_wf(nodes: Seq<Node>, n_cells: nat) -> bool {
    &&& forall|i: int|
        0 <= i < nodes.len() && builtin_of(#[trigger] nodes[i].function) == Some(Builtin::SequenceStar) ==> nodes[i].children@.len() < 65536
    &&& forall|i: int, j: int|
        0 <= i < nodes.len() && 0 <= j < nodes[i].children@.len() ==> i < #[trigger] nodes[i].children@[j] < nodes.len()
    &&& forall|i: int, j: int|
        0 <= i < nodes.len() && 0 <= j < nodes[i].params@.len() ==> #[trigger] nodes[i].params@[j].cell < n_cells
    &&& forall|i: int| 0 <= i < nodes.len() && (#[trigger] nodes[i].ret_cell) is Some ==> nodes[i].ret_cell->0 < n_cells
}

/// Lower `tree` into the arena, in pre-order: the node goes at the current
/// end of `nodes` and its children after it. Fails exactly when some
/// `seq_star` node of `tree` has more children than its index can count.
fn collect(tree: &TreeNode, nodes: &mut Vec<Node>, vars: &mut Variables) -> (r: Result<usize, BehaviorTreeError>)
    requires
        arena_partial_wf(old(nodes)@, old(vars).cells@.len()),
        old(vars).wf(),
        constants_private(old(nodes)@, old(vars).ids@),
    ensures
        r is Err <==> too_wide(*tree),
        r is Ok ==> constants_private(final(nodes)@, final(vars).ids@),
        r is Ok ==> fresh_from(final(nodes)@, old(nodes)@.len() as int, old(vars).cells@.len() as int, final(vars).ids@),
        final(vars).wf(),
        final(vars).cells@.len() >= old(vars).cells@.len(),
        forall|c: int| 0 <= c < old(vars).cells@.len() ==> #[trigger] final(vars).cells@[c] == old(vars).cells@[c],
        forall|v: u128| (#[trigger] lookup_var(old(vars).ids@, v, 0)) is Some ==> lookup_var(final(vars).ids@, v, 0) == lookup_var(old(vars).ids@, v, 0),
        ids_grow(old(vars).ids@, final(vars).ids@, old(vars).cells@.len() as int),
        arena_partial_wf(final(nodes)@, final(vars).cells@.len()),
        r matches Ok(idx) ==> idx == old(nodes)@.len() && idx < final(nodes)@.len()
            && lowered(*tree, final(nodes)@, idx as int, final(vars).cells@, final(vars).ids@),
        final(nodes)@.len() >= old(nodes)@.len(),
        forall|i: int| 0 <= i < old(nodes)@.len() ==> #[trigger] final(nodes)@[i] == old(nodes)@[i],
    decreases tree,
{
    let ghost cells0 = vars.cells@;
    let ghost ids0 = vars.ids@;
    let idx = nodes.len();
    let ghost nodes0 = nodes@;
    nodes.push(Node { function: tree.function, children: Vec::new(), params: Vec::new(), ret_cell: None });
    proof { lemma_private_push(nodes0, nodes@[idx as int], ids0, cells0.len() as int); }
    assert(nodes@ == nodes0.push(nodes@[idx as int]));
    assert(arena_partial_wf(nodes@, vars.cells@.len())) by {
        assert forall|i: int, j: int| 0 <= i < nodes@.len() && 0 <= j < nodes@[i].children@.len() implies i < #[trigger] nodes@[i].children@[j] < nodes@.len() by {
            assert(i < idx);
        }
    }
    let mut children: Vec<usize> = Vec::new();
    match &tree.children {
        None => {},
        Some(kids) => {
            if builtin(tree.function) == Some(Builtin::SequenceStar) && kids.len() >= 65536 {
                return Err(BehaviorTreeError::InconsistentTreeError {
                    message: String::from_str("a seq_star node has more children than its index can count"),
                });
            }
            let mut k: usize = 0;
            while k < kids.len()
                invariant
                    k <= kids@.len(),
                    tree.children == Some(*kids),
                    idx < nodes@.len(),
                    nodes@[idx as int].function == tree.function,
                    nodes@[idx as int].children@.len() == 0,
                    nodes@[idx as int].params@.len() == 0,
                    nodes@[idx as int].ret_cell is None,
                    arena_partial_wf(nodes@, vars.cells@.len()),
                    vars.wf(),
                    vars.cells@.len() >= old(vars).cells@.len(),
                    forall|c: int| 0 <= c < cells0.len() ==> #[trigger] vars.cells@[c] == cells0[c],
                    forall|v: u128| (#[trigger] lookup_var(ids0, v, 0)) is Some ==> lookup_var(vars.ids@, v, 0) == lookup_var(ids0, v, 0),
                    ids_grow(ids0, vars.ids@, cells0.len() as int),
                    constants_private(nodes@, vars.ids@),
                    fresh_from(nodes@, idx as int, cells0.len() as int, vars.ids@),
                    cells0 == old(vars).cells@,
                    ids0 == old(vars).ids@,
                    children@.len() == k,
                    forall|j: int| 0 <= j < k ==> idx < #[trigger] children@[j] < nodes@.len(),
                    nodes@.len() > old(nodes)@.len(),
                    forall|i: int| 0 <= i < old(nodes)@.len() ==> #[trigger] nodes@[i] == old(nodes)@[i],
                    !any_too_wide(kids@.take(k as int)),
                    kids_lowered(kids@.take(k as int), nodes@, children@, vars.cells@, vars.ids@),
                decreases kids@.len() - k,
            {
                proof {
                    assert(decreases_to!(*tree => tree.children));
                    assert(decreases_to!(tree.children => tree.children->0));
                    assert(tree.children->0 == *kids);
                    assert(decreases_to!(*kids => kids@));
                    assert(decreases_to!(kids@ => kids@[k as int]));
                }
                let ghost nodes_b = nodes@;
                let ghost cells_b = vars.cells@;
                let ghost ids_b = vars.ids@;
                let ghost ch_b = children@;
                let c = match collect(&kids[k], nodes, vars) {
                    Ok(c) => c,
                    Err(e) => {
                        proof {
                            lemma_any_too_wide(kids@);
                            assert(too_wide(kids@[k as int]));
                        }
                        return Err(e);
                    },
                };
                proof {
                    lemma_ids_grow_trans(ids0, ids_b, vars.ids@, cells0.len() as int, cells_b.len() as int);
                    lemma_fresh_extend(nodes_b, nodes@, ids_b, vars.ids@, idx as int, cells0.len() as int, cells_b.len());
                    lemma_kids_frame(kids@.take(k as int), nodes_b, nodes@, ch_b, idx + 1, cells_b, vars.cells@, ids_b, vars.ids@, cells_b.len());
                    assert(kids@.take(k + 1).drop_last() =~= kids@.take(k as int));
                    assert(kids@.take(k + 1).last() == kids@[k as int]);
                }
                children.push(c);
                proof {
                    assert(children@.drop_last() =~= ch_b);
                    assert(children@.last() == c);
                }
                k += 1;
            }
            proof {
                assert(kids@.take(kids@.len() as int) =~= kids@);
            }
        },
    }
    let ghost nodes_k = nodes@;
    let ghost cells_k = vars.cells@;
    let ghost ids_k = vars.ids@;
    assert(arena_partial_wf(nodes_k, cells_k.len()));
    assert(constants_private(nodes_k, ids_k));
    assert(fresh_from(nodes_k, idx as int, cells0.len() as int, ids_k));
    assert(nodes_k[idx as int].params@.len() == 0 && nodes_k[idx as int].ret_cell is None);
    let mut params: Vec<Param> = Vec::new();
    let mut p: usize = 0;
    while p < tree.parameters.len()
        invariant
            p <= tree.parameters@.len(),
            vars.wf(),
            vars.cells@.len() >= cells_k.len(),
            forall|c: int| 0 <= c < cells_k.len() ==> #[trigger] vars.cells@[c] == cells_k[c],
            forall|v: u128| (#[trigger] lookup_var(ids_k, v, 0)) is Some ==> lookup_var(vars.ids@, v, 0) == lookup_var(ids_k, v, 0),
            ids_grow(ids_k, vars.ids@, cells_k.len() as int),
            arena_partial_wf(nodes@, vars.cells@.len()),
            nodes@ == nodes_k,
            params@.len() == p,
            forall|j: int| 0 <= j < params@.len() ==> #[trigger] params@[j].cell < vars.cells@.len(),
            forall|j: int| 0 <= j < params@.len() && !var_cell(vars.ids@, #[trigger] params@[j].cell) ==> params@[j].cell >= cells_k.len(),
            forall|j1: int, j2: int|
                #![trigger params@[j1], params@[j2]]
                0 <= j1 < params@.len() && 0 <= j2 < params@.len() && params@[j1].cell == params@[j2].cell
                    && !var_cell(vars.ids@, params@[j1].cell) ==> j1 == j2,
            forall|j: int| 0 <= j < p ==> params@[j].id == (#[trigger] tree.parameters@[j]).0
                && arg_bound(tree.parameters@[j].1, params@[j].cell, vars.cells@, vars.ids@),
        decreases tree.parameters@.len() - p,
    {
        let ghost cells_b = vars.cells@;
        let ghost ids_b = vars.ids@;
        let ghost params_b = params@;
        let cell = vars.bind(&tree.parameters[p].1);
        params.push(Param { id: tree.parameters[p].0, cell });
        proof {
            lemma_ids_grow_trans(ids_k, ids_b, vars.ids@, cells_k.len() as int, cells_b.len() as int);
            lemma_ids_grow(ids_b, vars.ids@, cells_b.len() as int);
            assert forall|j: int| 0 <= j < params@.len() && !var_cell(vars.ids@, #[trigger] params@[j].cell) implies params@[j].cell >= cells_k.len() by {
                if j < params_b.len() {
                    assert(params@[j] == params_b[j]);
                }
            }
            assert forall|j1: int, j2: int|
                #![trigger params@[j1], params@[j2]]
                0 <= j1 < params@.len() && 0 <= j2 < params@.len() && params@[j1].cell == params@[j2].cell
                    && !var_cell(vars.ids@, params@[j1].cell) implies j1 == j2 by {
                if j1 < params_b.len() {
                    assert(params@[j1] == params_b[j1]);
                }
                if j2 < params_b.len() {
                    assert(params@[j2] == params_b[j2]);
                }
            }
            assert forall|j: int| 0 <= j < p + 1 implies params@[j].id == (#[trigger] tree.parameters@[j]).0
                && arg_bound(tree.parameters@[j].1, params@[j].cell, vars.cells@, vars.ids@) by {
                if j < p {
                    let e = tree.parameters@[j].1;
                    let c = params@[j].cell;
                    assert(arg_bound(e, c, cells_b, ids_b));
                    match e {
                        Expression::Value(v) => { assert(vars.cells@[c as int] == cells_b[c as int]); },
                        Expression::VariableId(id) => { assert(lookup_var(ids_b, id, 0) is Some); },
                    }
                }
            }
        }
        p += 1;
    }
    let ghost cells_p = vars.cells@;
    let ghost ids_p = vars.ids@;
    let ret_cell = match &tree.ret {
        None => None,
        Some(e) => Some(vars.bind(e)),
    };
    proof {
        lemma_ids_grow_trans(ids_k, ids_p, vars.ids@, cells_k.len() as int, cells_p.len() as int);
        assert forall|j: int| 0 <= j < params@.len() implies params@[j].id == (#[trigger] tree.parameters@[j]).0
            && arg_bound(tree.parameters@[j].1, params@[j].cell, vars.cells@, vars.ids@) by {
            let e = tree.parameters@[j].1;
            let c = params@[j].cell;
            assert(arg_bound(e, c, cells_p, ids_p));
            match e {
                Expression::Value(v) => { assert(vars.cells@[c as int] == cells_p[c as int]); },
                Expression::VariableId(id) => { assert(lookup_var(ids_p, id, 0) is Some); },
            }
        }
    }
    let ghost before = nodes@;
    let ghost ch = children@;
    let new_node = Node { function: tree.function, children, params, ret_cell };
    proof {
        let ids_f = vars.ids@;
        let np = new_node.params@;
        lemma_private_ids_grow(nodes_k, ids_k, ids_f, idx as int, cells0.len() as int, cells_k.len());
        lemma_ids_grow(ids_p, ids_f, cells_p.len() as int);
        assert forall|q: int| #[trigger] node_slot(new_node, q) is Some && !var_cell(ids_f, node_slot(new_node, q)->0)
            implies node_slot(new_node, q)->0 >= cells_k.len() by {
            if 0 <= q < np.len() {
                assert(np[q].cell < cells_p.len());
            }
        }
        assert forall|q1: int, q2: int|
            #![trigger node_slot(new_node, q1), node_slot(new_node, q2)]
            node_slot(new_node, q1) is Some && node_slot(new_node, q2) == node_slot(new_node, q1)
                && !var_cell(ids_f, node_slot(new_node, q1)->0) implies q1 == q2 by {
            if 0 <= q1 < np.len() {
                assert(np[q1].cell < cells_p.len());
            }
            if 0 <= q2 < np.len() {
                assert(np[q2].cell < cells_p.len());
            }
            if 0 <= q1 < np.len() && 0 <= q2 < np.len() {
                assert(np[q1] == np[q1]);
                assert(np[q2] == np[q2]);
            }
        }
        lemma_private_set(before, idx as int, new_node, ids_f, idx as int, cells0.len() as int, cells_k.len());
    }
    nodes.set(idx, new_node);
    assert(arena_partial_wf(nodes@, vars.cells@.len())) by {
        assert forall|i: int, j: int| 0 <= i < nodes@.len() && 0 <= j < nodes@[i].children@.len() implies i < #[trigger] nodes@[i].children@[j] < nodes@.len() by {
            if i != idx {
                assert(nodes@[i] == before[i]);
            }
        }
        assert forall|i: int, j: int| 0 <= i < nodes@.len() && 0 <= j < nodes@[i].params@.len() implies #[trigger] nodes@[i].params@[j].cell < vars.cells@.len() by {
            if i != idx {
                assert(nodes@[i] == before[i]);
            }
        }
        assert forall|i: int| 0 <= i < nodes@.len() && (#[trigger] nodes@[i].ret_cell) is Some implies nodes@[i].ret_cell->0 < vars.cells@.len() by {
            if i != idx {
                assert(nodes@[i] == before[i]);
            }
        }
        assert forall|i: int| 0 <= i < nodes@.len() && builtin_of(#[trigger] nodes@[i].function) == Some(Builtin::SequenceStar) implies nodes@[i].children@.len() < 65536 by {
            if i != idx {
                assert(nodes@[i] == before[i]);
            }
        }
    }
    proof {
        if tree.children is Some {
            let kids = tree.children->0;
            assert(forall|j: int| 0 <= j < ch.len() ==> idx + 1 <= #[trigger] ch[j]);
            lemma_kids_frame(kids@, nodes_k, nodes@, ch, idx + 1, cells_k, vars.cells@, ids_k, vars.ids@, cells_k.len());
        }
        assert(lowered(*tree, nodes@, idx as int, vars.cells@, vars.ids@));
        assert(ids_grow(ids0, ids_k, cells0.len() as int));
        lemma_ids_grow_trans(ids0, ids_k, vars.ids@, cells0.len() as int, cells_k.len() as int);
    }
    Ok(idx)
}

/// A lowered, runnable behavior tree.
#[derive(Debug)]
pub struct BehaviorTree {
    nodes: Vec<Node>,
    root: usize,
    variables: Variables,
    cursors: Vec<u16>,
    answers: Vec<LeafAnswer>,
}

impl BehaviorTree {
    /// The nodes are a well-formed arena over the cells and cursors, and the
    /// root is one of them.
    pub closed spec fn wf(&self) -> bool {
        &&& arena_wf(self.nodes@, self.variables.cells@.len(), self.cursors@.len())
        &&& self.root < self.nodes@.len()
        &&& self.variables.wf()
    }

    /// A well-formed tree's root is one of its nodes, and it has one cursor
    /// per node.
    pub proof fn lemma_root_in_nodes(&self)
        requires
            self.wf(),
        ensures
            0 <= self.spec_root() < self.spec_nodes().len(),
            self.spec_cursors().len() == self.spec_nodes().len(),
    {
    }

    pub closed spec fn spec_nodes(&self) -> Seq<Node> {
        self.nodes@
    }

    pub closed spec fn spec_root(&self) -> int {
        self.root as int
    }

    pub closed spec fn spec_cells(&self) -> Seq<Option<Value>> {
        self.variables.cells@
    }

    pub closed spec fn spec_cursors(&self) -> Seq<u16> {
        self.cursors@
    }

    pub closed spec fn spec_answers(&self) -> Seq<LeafAnswer> {
        self.answers@
    }

    pub closed spec fn spec_variables(&self) -> Seq<(u128, usize)> {
        self.variables.ids@
    }

    /// Lower `root` into a runnable tree: nodes in pre-order (the root first),
    /// a fresh cell for each constant argument (shared with no other
    /// argument and bound to no variable), one shared cell per variable id,
    /// every `seq_star` index at zero. Fails when a `seq_star` node has more
    /// children than its index can count.
    pub fn from_tree(root: &TreeNode) -> (r: Result<BehaviorTree, BehaviorTreeError>)
        ensures
            r is Err <==> too_wide(*root),
            r matches Ok(t) ==> t.wf() && t.spec_root() == 0 && t.spec_answers().len() == 0
                && lowered(*root, t.spec_nodes(), 0, t.spec_cells(), t.spec_variables())
                && constants_private(t.spec_nodes(), t.spec_variables())
                && forall|i: int| 0 <= i < t.spec_cursors().len() ==> t.spec_cursors()[i] == 0,
    {
        let mut nodes: Vec<Node> = Vec::new();
        let mut vars = Variables::new();
        let idx = collect(root, &mut nodes, &mut vars)?;
        let mut cursors: Vec<u16> = Vec::new();
        let mut i: usize = 0;
        while i < nodes.len()
            invariant
                i <= nodes@.len(),
                cursors@.len() == i,
                forall|q: int| 0 <= q < i ==> cursors@[q] == 0,
            decreases nodes@.len() - i,
        {
            cursors.push(0);
            i += 1;
        }
        Ok(BehaviorTree { nodes, root: idx, variables: vars, cursors, answers: Vec::new() })
    }

    /// Tick the tree once from its root. A leaf's function is looked up in
    /// `index`: one that no module provides ends the tick with
    /// `FunctionNotFound`, before any call; a known one is called through
    /// `bridge` on its module, with one argument per parameter read from its
    /// cell. Each answered leaf call is recorded (see
    /// [`answers`](Self::answers)); the recorded answers are exactly the `Ok`
    /// answers the bridge logged for this tick's calls. Given those answers,
    /// [`tick_spec`] fixes the status, the cells, the cursors, the recorded
    /// leaves and the calls handed to the bridge, in order. A failed leaf
    /// call ends the tick with that error.
    pub fn tick<B: CallBridge>(&mut self, index: &FunctionIndex, bridge: &mut LoggedBridge<B>) -> (r: Result<Status, BehaviorTreeError>)
        requires
            old(self).wf(),
        ensures
            final(self).wf(),
            final(self).spec_nodes() == old(self).spec_nodes(),
            final(self).spec_root() == old(self).spec_root(),
            final(self).spec_variables() == old(self).spec_variables(),
            ({
                let log = final(bridge).calls().skip(old(bridge).calls().len() as int);
                let run = tick_spec(
                    old(self).spec_nodes(),
                    *index,
                    old(self).spec_root(),
                    old(self).spec_cells(),
                    old(self).spec_cursors(),
                    answers_of(final(self).spec_answers()),
                );
                &&& final(self).spec_cells() == run.cells
                &&& final(self).spec_cursors() == run.cursors
                &&& nodes_of(final(self).spec_answers()) == run.leaves
                &&& final(bridge).calls() == old(bridge).calls() + log
                &&& records_of(log) == run.calls
                &&& answers_in(log) == answers_of(final(self).spec_answers())
                &&& agrees(r, run)
            }),
    {
        let mut trace: Vec<LeafAnswer> = Vec::new();
        let r = tick_node(&self.nodes, index, self.root, &mut self.variables.cells, &mut self.cursors, bridge, &mut trace);
        assert(trace@.skip(0) =~= trace@);
        self.answers = trace;
        r
    }

    /// The leaf calls the last tick made, with their answers, in call order.
    pub fn answers(&self) -> (r: &Vec<LeafAnswer>)
        ensures
            r@ == self.spec_answers(),
    {
        &self.answers
    }

    /// The value held by cell `cell`, if the cell exists and is set.
    pub fn cell(&self, cell: usize) -> (r: Option<&Value>)
        ensures
            cell < self.spec_cells().len() && self.spec_cells()[cell as int] is Some ==> r == Some(&self.spec_cells()[cell as int]->0),
            !(cell < self.spec_cells().len() && self.spec_cells()[cell as int] is Some) ==> r is None,
    {
        if cell < self.variables.cells.len() {
            match &self.variables.cells[cell] {
                Some(v) => Some(v),
                None => None,
            }
        } else {
            None
        }
    }

    /// The cell bound to variable `id`, if the tree uses it.
    pub fn variable_cell(&self, id: u128) -> (r: Option<usize>)
        ensures
            r == lookup_var(self.spec_variables(), id, 0),
    {
        self.variables.cell_of(id)
    }

    /// The number of nodes.
    pub fn node_count(&self) -> (r: usize)
        ensures
            r == self.spec_nodes().len(),
    {
        self.nodes.len()
    }

    /// The `seq_star` index of node `n` (zero for other nodes).
    pub fn cursor(&self, n: usize) -> (r: u16)
        requires
            n < self.spec_cursors().len(),
        ensures
            r == self.spec_cursors()[n as int],
    {
        self.cursors[n]
    }
}

} // verus!
