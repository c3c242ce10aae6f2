use graph_traversal::graph::node::Node;

#[test]
fn node_new_keeps_id_and_edges() {
    let node = Node::new(String::from("a"), vec![String::from("b"), String::from("c")]);

    assert_eq!(node.id, "a");
    assert_eq!(node.edges, vec![String::from("b"), String::from("c")]);
}
