use arora_behavior::nodes::{
    add_raw, cos_raw, increase, regex_match, set_str, status_identity, store, unset_str,
    INCREASE_DELTA_PARAM_ID, INCREASE_FUNCTION_ID, INCREASE_STORAGE_PARAM_ID, STORE_FUNCTION_ID,
    TEST_RUST_WASM_ADD_FUNCTION_ID, UNSET_STR_FUNCTION_ID,
};
use arora_behavior::tree::{Expression, TreeNode};
use arora_behavior::value::Value;

#[test]
fn action_builders_name_their_function_and_arguments() {
    let node = increase(Expression::VariableId(7), Expression::Value(Value::I32(2)));
    assert_eq!(node.function, INCREASE_FUNCTION_ID);
    assert!(node.children.is_none());
    assert_eq!(
        node.parameters,
        vec![
            (INCREASE_STORAGE_PARAM_ID, Expression::VariableId(7)),
            (INCREASE_DELTA_PARAM_ID, Expression::Value(Value::I32(2))),
        ]
    );
    assert_eq!(set_str(Expression::VariableId(1), Expression::Value(Value::U8(0))).function, STORE_FUNCTION_ID);
    assert_eq!(store(Expression::VariableId(1), Expression::VariableId(2)).parameters.len(), 2);
    assert_eq!(unset_str(Expression::VariableId(1)).function, UNSET_STR_FUNCTION_ID);
    assert_eq!(
        regex_match(Expression::VariableId(1), Expression::VariableId(2), Expression::VariableId(3))
            .parameters
            .len(),
        3
    );
    assert_eq!(status_identity(Expression::VariableId(4)).parameters.len(), 1);
}

#[test]
fn raw_test_functions_return_into_their_result_argument() {
    let node: TreeNode = add_raw(
        Expression::Value(Value::I32(1)),
        Expression::Value(Value::I32(2)),
        Expression::VariableId(9),
    );
    assert_eq!(node.function, TEST_RUST_WASM_ADD_FUNCTION_ID);
    assert_eq!(node.ret, Some(Expression::VariableId(9)));
    assert_eq!(cos_raw(Expression::VariableId(1), Expression::VariableId(2)).parameters.len(), 1);
}
