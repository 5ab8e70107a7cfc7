use arora_behavior::groot::{display_param_args, to_string_map, BehaviorTree, Node};

fn leaf(id: &str) -> Node {
    Node { id: id.to_string(), name: "n".to_string(), param_args: vec![], children: vec![] }
}

#[test]
fn parameter_arguments_render_as_quoted_pairs() {
    let args = to_string_map(vec![("variable", "{x}"), ("value", "on")]);
    assert_eq!(args, vec![("variable".to_string(), "{x}".to_string()), ("value".to_string(), "on".to_string())]);
    assert_eq!(display_param_args(&args), "variable=\"{x}\", value=\"on\"");
    assert_eq!(display_param_args(&vec![]), "");
}

#[test]
fn a_tree_renders_its_nodes_one_child_per_line() {
    let tree = BehaviorTree {
        root: Node {
            id: "Sequence".to_string(),
            name: "root".to_string(),
            param_args: to_string_map(vec![("k", "v")]),
            children: vec![leaf("Succeed"), leaf("Fail")],
        },
    };
    assert_eq!(tree.to_text(), "Sequence(k=\"v\"):\n- Succeed()\n- Fail()");
    assert_eq!(leaf("Run").to_text(), "Run()");
}
