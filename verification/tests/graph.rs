use arora_behavior::graph::{Graph, GraphDiff, Io, Link, LinkSource, Node, Port};
use arora_behavior::value::Value;

fn node(id: u128, function: u128) -> Node {
    Node { id, function, ..Node::default() }
}

fn two_node_graph() -> Graph {
    let a = 0xA;
    let b = 0xB;
    let mut graph = Graph::empty();
    graph.nodes.insert(a, node(a, 0xF1));
    graph.nodes.insert(b, node(b, 0xF2));
    graph.links.push(Link::new(Port::new(b, 0x1), LinkSource::Port(Port::new(a, 0x2))));
    graph.root = Some(a);
    graph.variables.insert(0x9, "battery".into());
    graph
}

#[test]
fn load_onto_empty_reproduces_the_graph() {
    let mut rebuilt = Graph::empty();
    rebuilt.apply(GraphDiff::load(two_node_graph())).unwrap();
    assert_eq!(rebuilt, two_node_graph());
}

#[test]
fn load_diff_lists_the_root_node_first() {
    let a = 0xA;
    let b = 0xB;
    let c = 0xC;
    let mut graph = Graph::empty();
    for id in [a, b, c] {
        graph.nodes.insert(id, node(id, 0xF0));
    }
    graph.root = Some(c);
    let diff = GraphDiff::load(graph);
    assert_eq!(diff.add_nodes.first().unwrap().id, c);
}

#[test]
fn removing_a_node_drops_links_touching_it() {
    let a = 0xA;
    let b = 0xB;
    let mut graph = Graph::empty();
    graph.nodes.insert(a, node(a, 0xF1));
    graph.nodes.insert(b, node(b, 0xF2));
    // a's input is fed from b's output; removing b must drop the link.
    graph.links.push(Link::new(Port::new(a, 0x1), LinkSource::Port(Port::new(b, 0x2))));
    graph
        .apply(GraphDiff { remove_nodes: vec![b], ..GraphDiff::default() })
        .unwrap();
    assert!(!graph.nodes.contains_key(&b));
    assert!(graph.links.is_empty(), "dangling link dropped");
}

#[test]
fn adding_a_link_replaces_the_one_on_the_same_target() {
    let a = 0xA;
    let target = Port::new(a, 0x1);
    let mut graph = Graph::empty();
    graph.nodes.insert(a, node(a, 0xF1));
    graph
        .apply(GraphDiff {
            add_links: vec![Link::new(target, LinkSource::Literal(Value::U8(1)))],
            ..GraphDiff::default()
        })
        .unwrap();
    graph
        .apply(GraphDiff {
            add_links: vec![Link::new(target, LinkSource::Literal(Value::U8(2)))],
            ..GraphDiff::default()
        })
        .unwrap();
    assert_eq!(graph.links.len(), 1);
    assert_eq!(graph.link_to(&target).unwrap().source, LinkSource::Literal(Value::U8(2)));
}

#[test]
fn set_predetermined_key_overrides_the_slot() {
    let a = 0xA;
    let slot = 0x1;
    let mut graph = Graph::empty();
    graph.nodes.insert(
        a,
        Node { id: a, function: 0xF1, inputs: vec![Io::input(slot)], ..Node::default() },
    );
    graph
        .apply(GraphDiff {
            set_predetermined: vec![(Port::new(a, slot), Some("head/pitch".into()))],
            ..GraphDiff::default()
        })
        .unwrap();
    assert_eq!(graph.nodes[&a].inputs[0].predetermined_key.as_deref(), Some("head/pitch"));
}

#[test]
fn predetermined_key_on_unknown_slot_is_an_error() {
    let a = 0xA;
    let mut graph = Graph::empty();
    graph.nodes.insert(a, node(a, 0xF1));
    let err = graph.apply(GraphDiff {
        set_predetermined: vec![(Port::new(a, 0x2), Some("k".into()))],
        ..GraphDiff::default()
    });
    assert!(err.is_err());
}

#[test]
fn removing_a_link_unwires_its_target_and_set_root_moves_the_root() {
    let mut graph = two_node_graph();
    graph
        .apply(GraphDiff {
            remove_links: vec![Port::new(0xB, 0x1)],
            set_root: Some(0xB),
            ..GraphDiff::default()
        })
        .unwrap();
    assert!(graph.links.is_empty());
    assert_eq!(graph.root, Some(0xB));
    assert!(graph.node(&0xA).is_some());
    assert!(graph.node(&0xC).is_none());
}

#[test]
fn an_output_slot_is_an_output() {
    let io = Io::output(0x5);
    assert_eq!(io.id, 0x5);
    assert!(io.predetermined_key.is_none());
}
