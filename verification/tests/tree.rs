use std::collections::HashMap;

use arora_behavior::status::Status;
use arora_behavior::tree;
use arora_behavior::tree::{
    fail, fallback, parallel, run, seq_star, succeed, BehaviorTree, BehaviorTreeError, Expression,
    FunctionIndex, TreeNode, Variables, SUCCEED_FUNCTION_ID,
};
use arora_behavior::value::{Call, CallBridge, CallError, CallResult, LoggedBridge, StructureField, Value};

/// The module every scripted leaf function lives in.
const SCRIPT_MODULE: u128 = 0x5C17;

/// A bridge answering the calls of scripted leaves: each leaf function's
/// status comes from `statuses`, and `ticks` counts how often each was
/// called. A leaf with no scripted status is an unknown function.
#[derive(Default)]
struct TestBridge {
    statuses: HashMap<u128, Status>,
    ticks: HashMap<u128, u32>,
    /// Each call handed over: the target module and the call.
    log: Vec<(u128, Call)>,
}

impl TestBridge {
    fn new(statuses: HashMap<u128, Status>) -> Self {
        TestBridge { statuses, ticks: HashMap::new(), log: Vec::new() }
    }

    fn empty() -> Self {
        Self::new(HashMap::new())
    }

    fn ticks(&self, f: u128) -> u32 {
        *self.ticks.get(&f).unwrap_or(&0)
    }
}

impl CallBridge for TestBridge {
    fn arora_call(&mut self, module_id: &u128, call: &Call) -> Result<CallResult, CallError> {
        self.log.push((*module_id, copy_call(call)));
        *self.ticks.entry(call.id).or_insert(0) += 1;
        let status = *self
            .statuses
            .get(&call.id)
            .ok_or(CallError::FunctionNotFound { id: call.id })?;
        Ok(CallResult { ret: status.to_value(), mutated: Vec::new() })
    }
}

fn copy_call(call: &Call) -> Call {
    Call {
        module_id: call.module_id,
        id: call.id,
        args: call
            .args
            .iter()
            .map(|f| StructureField { id: f.id, value: f.value.duplicate() })
            .collect(),
    }
}

/// Tick `tree` once with `bridge` as the host.
fn tick_on(
    tree: &mut BehaviorTree,
    index: &FunctionIndex,
    bridge: &mut TestBridge,
) -> Result<Status, BehaviorTreeError> {
    let mut logged = LoggedBridge::new(std::mem::take(bridge));
    let r = tree.tick(index, &mut logged);
    *bridge = logged.into_host();
    r
}

/// A scripted leaf: a module call whose status the bridge supplies.
fn scripted_leaf(function: u128) -> TreeNode {
    TreeNode::action_node(function)
}

/// An index in which the script module provides each of `functions`.
fn script_index(functions: &[u128]) -> FunctionIndex {
    let mut index = FunctionIndex::new();
    for f in functions {
        index.insert(*f, SCRIPT_MODULE);
    }
    index
}

fn build(node: TreeNode) -> BehaviorTree {
    BehaviorTree::from_tree(&node).expect("tree builds")
}

fn tick_once(tree: &mut BehaviorTree) -> Status {
    let mut bridge = TestBridge::empty();
    tick_on(tree, &FunctionIndex::new(), &mut bridge).expect("tick succeeds")
}

/// Tick until the tree is no longer running.
fn run_to_end(tree: &mut BehaviorTree) -> Status {
    let mut bridge = TestBridge::empty();
    for _ in 0..1000 {
        let status = tick_on(tree, &FunctionIndex::new(), &mut bridge).expect("tick succeeds");
        if status != Status::Running {
            return status;
        }
    }
    panic!("the tree kept running");
}

#[test]
fn seq_all_success_is_success() {
    let mut tree = build(tree::seq(vec![succeed(), succeed()]));
    assert_eq!(run_to_end(&mut tree), Status::Success);
}

#[test]
fn seq_first_failure_is_failure() {
    // `fail()` short-circuits before the later child runs; the later child is
    // a leaf with no scripted status, so reaching it would be an error.
    let later = 0xA1;
    let mut tree = build(tree::seq(vec![fail(), scripted_leaf(later)]));
    let mut bridge = TestBridge::empty();
    let index = script_index(&[later]);
    assert_eq!(tick_on(&mut tree, &index, &mut bridge).expect("tick"), Status::Failure);
    assert!(bridge.log.is_empty(), "the later child is not ticked");
}

#[test]
fn seq_running_child_is_running() {
    let mut tree = build(tree::seq(vec![succeed(), run()]));
    assert_eq!(tick_once(&mut tree), Status::Running);
}

#[test]
fn fallback_first_success_is_success() {
    let mut tree = build(fallback(vec![succeed(), fail()]));
    assert_eq!(run_to_end(&mut tree), Status::Success);
}

#[test]
fn fallback_all_failure_is_failure() {
    let mut tree = build(fallback(vec![fail(), fail()]));
    assert_eq!(run_to_end(&mut tree), Status::Failure);
}

#[test]
fn fallback_empty_is_success() {
    let mut tree = build(fallback(vec![]));
    let mut bridge = TestBridge::empty();
    assert_eq!(tick_on(&mut tree, &FunctionIndex::new(), &mut bridge).expect("tick"), Status::Success);
    assert!(bridge.log.is_empty(), "an empty fallback calls nothing");
}

#[test]
fn fallback_running_child_is_running() {
    let mut tree = build(fallback(vec![run(), succeed()]));
    assert_eq!(tick_once(&mut tree), Status::Running);
}

#[test]
fn parallel_all_success_is_success() {
    let mut tree = build(parallel(vec![succeed(), succeed()]));
    assert_eq!(run_to_end(&mut tree), Status::Success);
}

#[test]
fn parallel_any_failure_is_failure() {
    let mut tree = build(parallel(vec![succeed(), fail(), succeed()]));
    assert_eq!(run_to_end(&mut tree), Status::Failure);
}

#[test]
fn parallel_mixed_running_is_running() {
    let mut tree = build(parallel(vec![succeed(), run()]));
    assert_eq!(tick_once(&mut tree), Status::Running);
}

#[test]
fn concurrent_runs_advance_independently() {
    let a = 0xA;
    let b = 0xB;
    let mut tree = build(parallel(vec![scripted_leaf(a), scripted_leaf(b)]));
    let mut bridge = TestBridge::new(HashMap::from([(a, Status::Running), (b, Status::Running)]));
    let index = script_index(&[a, b]);

    // Both runs pending: the tree keeps being re-ticked.
    assert_eq!(tick_on(&mut tree, &index, &mut bridge).expect("tick"), Status::Running);

    // Complete run A only: B is untouched and the tree still runs.
    bridge.statuses.insert(a, Status::Success);
    assert_eq!(tick_on(&mut tree, &index, &mut bridge).expect("tick"), Status::Running);

    // Complete run B: both terminal, the tree succeeds.
    bridge.statuses.insert(b, Status::Success);
    assert_eq!(tick_on(&mut tree, &index, &mut bridge).expect("tick"), Status::Success);
}

#[test]
fn seq_star_resumes_and_resets() {
    let first = 0x1;
    let second = 0x2;
    let third = 0x3;
    let mut bridge = TestBridge::new(HashMap::from([
        (first, Status::Success),
        (second, Status::Running),
        (third, Status::Success),
    ]));
    let mut tree = build(seq_star(vec![
        scripted_leaf(first),
        scripted_leaf(second),
        scripted_leaf(third),
    ]));
    let index = script_index(&[first, second, third]);

    // First tick: first succeeds, second runs: the tree runs, index 1.
    assert_eq!(tick_on(&mut tree, &index, &mut bridge).expect("tick"), Status::Running);
    assert_eq!(bridge.ticks(first), 1);
    assert_eq!(bridge.ticks(second), 1);
    assert_eq!(bridge.ticks(third), 0);

    bridge.statuses.insert(second, Status::Success);

    // Second tick: resumes at the second leaf without re-ticking the first.
    assert_eq!(tick_on(&mut tree, &index, &mut bridge).expect("tick"), Status::Success);
    assert_eq!(bridge.ticks(first), 1, "first not re-ticked");
    assert_eq!(bridge.ticks(second), 2);
    assert_eq!(bridge.ticks(third), 1);

    // Third tick: after the reset it restarts from the first leaf.
    assert_eq!(tick_on(&mut tree, &index, &mut bridge).expect("tick"), Status::Success);
    assert_eq!(bridge.ticks(first), 2, "first re-ticked after reset");
}

#[test]
fn shared_variable_id_resolves_to_one_cell() {
    let var_id = 0x42;
    let mut variables = Variables::new();
    let cell_a = variables.bind(&Expression::VariableId(var_id));
    let cell_b = variables.bind(&Expression::VariableId(var_id));
    variables.cells[cell_a] = Some(Value::Boolean(true));
    assert_eq!(
        variables.cells[cell_b],
        Some(Value::Boolean(true)),
        "two parameters bound to the same variable id must share one cell"
    );
}

#[test]
fn a_constant_argument_gets_a_cell_of_its_own() {
    let mut variables = Variables::new();
    let a = variables.bind(&Expression::Value(Value::U8(1)));
    let b = variables.bind(&Expression::Value(Value::U8(1)));
    assert_ne!(a, b);
    assert_eq!(variables.cells[a], Some(Value::U8(1)));
}

#[test]
fn a_failing_leaf_call_ends_the_tick_with_its_error() {
    let mut tree = build(tree::seq(vec![succeed(), scripted_leaf(0x77)]));
    let mut bridge = TestBridge::empty();
    assert_eq!(
        tick_on(&mut tree, &script_index(&[0x77]), &mut bridge),
        Err(BehaviorTreeError::CallError(CallError::FunctionNotFound { id: 0x77 }))
    );
    assert_eq!(bridge.log.len(), 1, "the leaf was called once");
}

#[test]
fn a_function_no_module_provides_is_refused_before_any_call() {
    let mut tree = build(tree::seq(vec![succeed(), scripted_leaf(0x78)]));
    let mut bridge = TestBridge::new(HashMap::from([(0x78, Status::Success)]));
    assert_eq!(
        tick_on(&mut tree, &script_index(&[0x79]), &mut bridge),
        Err(BehaviorTreeError::CallError(CallError::FunctionNotFound { id: 0x78 }))
    );
    assert!(bridge.log.is_empty());
}

#[test]
fn a_leaf_call_targets_its_module_with_its_parameters_and_not_its_return() {
    let f = 0xF00;
    let (p, q) = (0x10, 0x11);
    let node = TreeNode {
        function: f,
        children: None,
        parameters: vec![
            (p, Expression::Value(Value::U8(7))),
            (q, Expression::VariableId(0x99)),
        ],
        ret: Some(Expression::VariableId(0x98)),
    };
    let mut tree = build(node);
    let mut index = FunctionIndex::new();
    index.insert(f, 0xAB);
    let mut bridge = TestBridge::new(HashMap::from([(f, Status::Failure)]));
    // The return value goes to its cell: the leaf reports success whatever came back.
    assert_eq!(tick_on(&mut tree, &index, &mut bridge), Ok(Status::Success));
    assert_eq!(bridge.log.len(), 1);
    let (module, call) = &bridge.log[0];
    assert_eq!(*module, 0xAB);
    assert_eq!(call.module_id, None);
    assert_eq!(call.id, f);
    assert_eq!(
        call.args,
        vec![
            StructureField { id: p, value: Value::U8(7) },
            StructureField { id: q, value: Value::Unit },
        ]
    );
    let ret_cell = tree.variable_cell(0x98).expect("the return variable has a cell");
    assert_eq!(tree.cell(ret_cell), Some(&Status::Failure.to_value()));
}

#[test]
fn parallel_ticks_each_child_once_in_order() {
    let (a, b, c) = (0x21, 0x22, 0x23);
    let mut tree = build(parallel(vec![scripted_leaf(a), scripted_leaf(b), scripted_leaf(c)]));
    let mut bridge = TestBridge::new(HashMap::from([
        (a, Status::Success),
        (b, Status::Failure),
        (c, Status::Running),
    ]));
    assert_eq!(tick_on(&mut tree, &script_index(&[a, b, c]), &mut bridge), Ok(Status::Failure));
    let ids: Vec<u128> = bridge.log.iter().map(|(_, call)| call.id).collect();
    assert_eq!(ids, vec![a, b, c]);
}

#[test]
fn a_later_index_entry_replaces_an_earlier_one() {
    let mut index = FunctionIndex::new();
    index.insert(0x1, 0xA);
    index.insert(0x2, 0xB);
    index.insert(0x1, 0xC);
    assert_eq!(index.get(0x1), Some(0xC));
    assert_eq!(index.get(0x2), Some(0xB));
    assert_eq!(index.get(0x3), None);
}

#[test]
fn the_tree_is_lowered_root_first_in_pre_order() {
    let tree = build(tree::seq(vec![succeed(), fallback(vec![fail()])]));
    assert_eq!(tree.node_count(), 4);
    assert_eq!(tree.cursor(0), 0);
    let mut tree = build(TreeNode::action_node(SUCCEED_FUNCTION_ID));
    assert_eq!(tick_once(&mut tree), Status::Success);
    assert!(tree.answers().is_empty(), "a builtin is not a leaf call");
}

#[test]
fn a_seq_star_with_more_children_than_its_index_counts_is_refused() {
    let children: Vec<TreeNode> = (0..65536).map(|_| succeed()).collect();
    assert!(BehaviorTree::from_tree(&seq_star(children)).is_err());
    let children: Vec<TreeNode> = (0..65535).map(|_| succeed()).collect();
    assert!(BehaviorTree::from_tree(&seq_star(children)).is_ok());
}

/// A bridge whose answer mutates a parameter the leaf does not have.
struct StrayMutation;

impl CallBridge for StrayMutation {
    fn arora_call(&mut self, _module_id: &u128, _call: &Call) -> Result<CallResult, CallError> {
        Ok(CallResult {
            ret: Status::Success.to_value(),
            mutated: vec![arora_behavior::value::StructureField { id: 0xDEAD, value: Value::U8(1) }],
        })
    }
}

#[test]
fn a_mutation_of_an_unknown_parameter_is_an_internal_error() {
    let mut tree = build(scripted_leaf(0x5));
    assert!(matches!(
        tree.tick(&script_index(&[0x5]), &mut LoggedBridge::new(StrayMutation)),
        Err(arora_behavior::tree::BehaviorTreeError::InternalError { .. })
    ));
}

#[test]
fn a_logged_bridge_passes_calls_to_its_host() {
    let f = 0x31;
    let mut logged = LoggedBridge::new(TestBridge::new(HashMap::from([(f, Status::Running)])));
    let call = Call { module_id: None, id: f, args: vec![] };
    let answer = logged.arora_call(&0xAB, &call).expect("the host answers");
    assert_eq!(answer.ret, Status::Running.to_value());
    assert_eq!(logged.host().ticks(f), 1);
    assert_eq!(logged.host().log.len(), 1);
    let unknown = Call { module_id: None, id: 0x32, args: vec![] };
    assert_eq!(
        logged.arora_call(&0xAB, &unknown).unwrap_err(),
        CallError::FunctionNotFound { id: 0x32 }
    );
    assert_eq!(logged.into_host().log.len(), 2);
}
