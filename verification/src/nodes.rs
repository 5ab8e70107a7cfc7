//! Tree nodes calling well-known module functions: the string and storage
//! actions, the status identity, and the cosine and addition test functions.
use vstd::prelude::*;
use crate::tree::{Expression, TreeNode};

verus! {

/// Function id of `status_identity`: a leaf returning the status it is given.
pub const STATUS_IDENTITY_FUNCTION_ID: u128 = 0xef48e6d3_c735_4b5c_8f63_fc54d94dd4ee;
/// The status parameter of `status_identity`.
pub const STATUS_VALUE_PARAM_ID: u128 = 0xe1f174e6_ca9e_4344_84cb_7f3f22115239;

/// Function id of `store` (also the function `set_str` calls).
pub const STORE_FUNCTION_ID: u128 = 0xb8349b96_abc7_4a31_906c_da1ce6fa356e;
/// The storage parameter of `store`.
pub const STORE_STORAGE_PARAM_ID: u128 = 0x2345a3a5_a80d_4480_9927_3c65bd2b7543;
/// The value parameter of `store`.
pub const STORE_VALUE_PARAM_ID: u128 = 0x0a0778cd_cb7a_41fc_96d4_512cc8538ce2;

/// Function id of `increase`.
pub const INCREASE_FUNCTION_ID: u128 = 0x7f6fc4a9_567c_4f15_87cc_7ca34ae1456f;
/// The storage parameter of `increase`.
pub const INCREASE_STORAGE_PARAM_ID: u128 = 0xe898fe88_cc61_46d2_aecc_b4fc0beb862f;
/// The delta parameter of `increase`.
pub const INCREASE_DELTA_PARAM_ID: u128 = 0x1018eb85_2d04_4995_a349_b6c83c27f287;

/// The variable parameter of `set_str`.
pub const SET_STR_VARIABLE_PARAM_ID: u128 = 0x8fa2f965_1eb5_40d9_baca_8facef0d31a8;
/// The value parameter of `set_str`.
pub const SET_STR_VALUE_PARAM_ID: u128 = 0x88438955_7872_44ad_8464_d636dc5fe26f;
/// Function id of `unset_str`.
pub const UNSET_STR_FUNCTION_ID: u128 = 0x7dce01ed_9818_4b7d_b45a_2e7fdece3633;
/// The variable parameter of `unset_str`.
pub const UNSET_STR_VARIABLE_PARAM_ID: u128 = 0x2c84bf0f_4ec2_41a4_83ee_3f92a53be79d;
/// Function id of `is_str_set`.
pub const IS_STR_SET_FUNCTION_ID: u128 = 0x20ba3f0f_309e_4cd2_adfc_aca6cc432526;
/// The value parameter of `is_str_set`.
pub const IS_STR_SET_VALUE_PARAM_ID: u128 = 0xc4f1e72d_30fe_400b_a584_f08e93944026;
/// Function id of `wait_str_set`.
pub const WAIT_STR_SET_FUNCTION_ID: u128 = 0x3180977c_25a1_458e_ab82_11f36c654518;
/// The value parameter of `wait_str_set`.
pub const WAIT_STR_SET_VALUE_PARAM_ID: u128 = 0x8f190079_e519_44d3_ac36_3bfc322e87eb;
/// Function id of `regex_match`.
pub const REGEX_MATCH_FUNCTION_ID: u128 = 0x8e3dbcc1_1a81_4cf6_a457_6e0c075456fd;
/// The value parameter of `regex_match`.
pub const REGEX_MATCH_VALUE_PARAM_ID: u128 = 0x3267f093_8a7f_4b77_b74c_3bd2e7ad40f9;
/// The matcher parameter of `regex_match`.
pub const REGEX_MATCH_MATCHER_PARAM_ID: u128 = 0x6702e02d_f6ba_4c5d_acab_9ade0a690afa;
/// The first-match parameter of `regex_match`.
pub const REGEX_MATCH_FIRST_MATCH_PARAM_ID: u128 = 0xe8b71df7_2bb5_4498_8bc3_833c5bc8eadc;

/// Function id of the cosine module function.
pub const COS_FUNCTION_ID: u128 = 0x104b9710_5d43_4a93_944c_d64bddb30ef8;
/// The angle parameter of the cosine function.
pub const COS_ANGLE_PARAM_ID: u128 = 0x272fbafd_c2a5_4ffe_a294_9cabe6e6c1e7;
/// The result parameter of the cosine function.
pub const COS_RES_PARAM_ID: u128 = 0x1d101686_05d8_47b4_9292_fdc9e5a0daeb;

/// Function id of the raw cosine test function (its result is its return).
pub const TEST_RUST_WASM_COS_FUNCTION_ID: u128 = 0xc13757cb_2311_4c93_abcc_cb12d6cbb859;
/// The angle parameter of the raw cosine test function.
pub const TEST_RUST_WASM_COS_ANGLE_PARAM_ID: u128 = 0x6c2a157c_4235_47b0_bff3_1eeef3e5747d;
/// Function id of the raw addition test function (its sum is its return).
pub const TEST_RUST_WASM_ADD_FUNCTION_ID: u128 = 0xe4b0a2f3_6c7d_4e8f_9a0b_1c2d3e4f5a6b;
/// The first addend of the raw addition test function.
pub const TEST_RUST_WASM_ADD_A_PARAM_ID: u128 = 0xa1b2c3d4_e5f6_4a8b_9c0d_e1f2a3b4c5d6;
/// The second addend of the raw addition test function.
pub const TEST_RUST_WASM_ADD_B_PARAM_ID: u128 = 0xb2c3d4e5_f6a7_4b9c_8d1e_f2a3b4c5d6e7;

/// Whether `r` is a leaf calling `function` with these arguments, in this
/// order, and the return argument `ret`.
pub open spec fn is_leaf(r: TreeNode, function: u128, args: Seq<(u128, Expression)>, ret: Option<Expression>) -> bool {
    &&& r.function == function
    &&& r.children is None
    &&& r.parameters@ == args
    &&& r.ret == ret
}

/// A leaf returning the status it is given.
pub fn status_identity(value: Expression) -> (r: TreeNode)
    ensures
        is_leaf(r, STATUS_IDENTITY_FUNCTION_ID, seq![(STATUS_VALUE_PARAM_ID, value)], None),
{
    let mut parameters: Vec<(u128, Expression)> = Vec::new();
    parameters.push((STATUS_VALUE_PARAM_ID, value));
    TreeNode { function: STATUS_IDENTITY_FUNCTION_ID, children: None, parameters, ret: None }
}

/// A leaf setting the string `variable` to `value`.
pub fn set_str(variable: Expression, value: Expression) -> (r: TreeNode)
    ensures
        is_leaf(r, STORE_FUNCTION_ID, seq![(SET_STR_VARIABLE_PARAM_ID, variable), (SET_STR_VALUE_PARAM_ID, value)], None),
{
    TreeNode {
        function: STORE_FUNCTION_ID,
        children: None,
        parameters: vec![(SET_STR_VARIABLE_PARAM_ID, variable), (SET_STR_VALUE_PARAM_ID, value)],
        ret: None,
    }
}

/// A leaf unsetting the string `variable`.
pub fn unset_str(variable: Expression) -> (r: TreeNode)
    ensures
        is_leaf(r, UNSET_STR_FUNCTION_ID, seq![(UNSET_STR_VARIABLE_PARAM_ID, variable)], None),
{
    let mut parameters: Vec<(u128, Expression)> = Vec::new();
    parameters.push((UNSET_STR_VARIABLE_PARAM_ID, variable));
    TreeNode { function: UNSET_STR_FUNCTION_ID, children: None, parameters, ret: None }
}

/// A leaf testing whether the string `value` is set.
pub fn is_str_set(value: Expression) -> (r: TreeNode)
    ensures
        is_leaf(r, IS_STR_SET_FUNCTION_ID, seq![(IS_STR_SET_VALUE_PARAM_ID, value)], None),
{
    let mut parameters: Vec<(u128, Expression)> = Vec::new();
    parameters.push((IS_STR_SET_VALUE_PARAM_ID, value));
    TreeNode { function: IS_STR_SET_FUNCTION_ID, children: None, parameters, ret: None }
}

/// A leaf running until the string `value` is set.
pub fn wait_str_set(value: Expression) -> (r: TreeNode)
    ensures
        is_leaf(r, WAIT_STR_SET_FUNCTION_ID, seq![(WAIT_STR_SET_VALUE_PARAM_ID, value)], None),
{
    let mut parameters: Vec<(u128, Expression)> = Vec::new();
    parameters.push((WAIT_STR_SET_VALUE_PARAM_ID, value));
    TreeNode { function: WAIT_STR_SET_FUNCTION_ID, children: None, parameters, ret: None }
}

/// A leaf matching `value` against `matcher`, the first match landing in
/// `first_match`.
pub fn regex_match(value: Expression, matcher: Expression, first_match: Expression) -> (r: TreeNode)
    ensures
        is_leaf(
            r,
            REGEX_MATCH_FUNCTION_ID,
            seq![
                (REGEX_MATCH_VALUE_PARAM_ID, value),
                (REGEX_MATCH_MATCHER_PARAM_ID, matcher),
                (REGEX_MATCH_FIRST_MATCH_PARAM_ID, first_match),
            ],
            None,
        ),
{
    TreeNode {
        function: REGEX_MATCH_FUNCTION_ID,
        children: None,
        parameters: vec![
            (REGEX_MATCH_VALUE_PARAM_ID, value),
            (REGEX_MATCH_MATCHER_PARAM_ID, matcher),
            (REGEX_MATCH_FIRST_MATCH_PARAM_ID, first_match),
        ],
        ret: None,
    }
}

/// A leaf storing `value` into `storage`.
pub fn store(storage: Expression, value: Expression) -> (r: TreeNode)
    ensures
        is_leaf(r, STORE_FUNCTION_ID, seq![(STORE_STORAGE_PARAM_ID, storage), (STORE_VALUE_PARAM_ID, value)], None),
{
    TreeNode {
        function: STORE_FUNCTION_ID,
        children: None,
        parameters: vec![(STORE_STORAGE_PARAM_ID, storage), (STORE_VALUE_PARAM_ID, value)],
        ret: None,
    }
}

/// A leaf increasing `storage` by `delta`.
pub fn increase(storage: Expression, delta: Expression) -> (r: TreeNode)
    ensures
        is_leaf(r, INCREASE_FUNCTION_ID, seq![(INCREASE_STORAGE_PARAM_ID, storage), (INCREASE_DELTA_PARAM_ID, delta)], None),
{
    TreeNode {
        function: INCREASE_FUNCTION_ID,
        children: None,
        parameters: vec![(INCREASE_STORAGE_PARAM_ID, storage), (INCREASE_DELTA_PARAM_ID, delta)],
        ret: None,
    }
}

/// A leaf calling the cosine function on `angle`, its result landing in
/// `res`.
pub fn cos(angle: Expression, res: Expression) -> (r: TreeNode)
    ensures
        is_leaf(r, COS_FUNCTION_ID, seq![(COS_ANGLE_PARAM_ID, angle), (COS_RES_PARAM_ID, res)], None),
{
    TreeNode {
        function: COS_FUNCTION_ID,
        children: None,
        parameters: vec![(COS_ANGLE_PARAM_ID, angle), (COS_RES_PARAM_ID, res)],
        ret: None,
    }
}

/// A leaf calling the raw cosine test function on `angle`, its return value
/// landing in `result`.
pub fn cos_raw(angle: Expression, result: Expression) -> (r: TreeNode)
    ensures
        is_leaf(r, TEST_RUST_WASM_COS_FUNCTION_ID, seq![(TEST_RUST_WASM_COS_ANGLE_PARAM_ID, angle)], Some(result)),
{
    let mut parameters: Vec<(u128, Expression)> = Vec::new();
    parameters.push((TEST_RUST_WASM_COS_ANGLE_PARAM_ID, angle));
    TreeNode { function: TEST_RUST_WASM_COS_FUNCTION_ID, children: None, parameters, ret: Some(result) }
}

/// A leaf calling the raw addition test function on `a` and `b`, its return
/// value landing in `result`.
pub fn add_raw(a: Expression, b: Expression, result: Expression) -> (r: TreeNode)
    ensures
        is_leaf(
            r,
            TEST_RUST_WASM_ADD_FUNCTION_ID,
            seq![(TEST_RUST_WASM_ADD_A_PARAM_ID, a), (TEST_RUST_WASM_ADD_B_PARAM_ID, b)],
            Some(result),
        ),
{
    TreeNode {
        function: TEST_RUST_WASM_ADD_FUNCTION_ID,
        children: None,
        parameters: vec![(TEST_RUST_WASM_ADD_A_PARAM_ID, a), (TEST_RUST_WASM_ADD_B_PARAM_ID, b)],
        ret: Some(result),
    }
}

} // verus!
