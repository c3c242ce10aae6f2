use graph_traversal::graph::adjacent_list_representation::AdjacentList;
use graph_traversal::graph::graph_representation::GraphRepresentation;

#[test]
fn adjacent_list_can_be_created_from_single_node() {
    // given
    let node = (1, 1);

    // when
    let mut list = AdjacentList::<i8>::new();
    list.add_node(node);

    // then
    assert_eq!(list.len(), 0);
}

#[test]
fn adjacent_list_can_be_created_from_node_with_edges() {
    // given
    let node = (1, 2);
    let node_2 = (2, 4);
    let node_3 = (3, 1);

    // when
    let mut list = AdjacentList::<i8>::new();
    list.add_edge(node, node_2);
    list.add_edge(node, node_3);

    // then
    assert_eq!(list.len(), 2);
}

#[test]
fn len_counts_duplicate_and_self_edges() {
    let mut list = AdjacentList::<i32>::new();
    list.add_edge((1, 1), (1, 1));
    list.add_edge((1, 1), (1, 1));
    list.add_edge((1, 1), (2, 2));

    // two self edges and one ordinary edge, over only two nodes
    assert_eq!(list.len(), 3);
    assert_eq!(list.get_nodes().len(), 2);
}

#[test]
fn add_edge_registers_unknown_destination() {
    let mut list = AdjacentList::<i32>::new();
    list.add_edge((1, 1), (99, 99));

    assert!(list.get_node(99).is_some());
    assert_eq!(list.get_node(99), Some(&99));
    assert_eq!(list.len(), 1);
}

#[test]
fn get_node_on_unknown_index_is_absent() {
    let mut list = AdjacentList::<i32>::new();
    list.add_node((1, 10));

    assert_eq!(list.get_node(2), None);
    assert_eq!(list.get_node(1), Some(&10));
}

#[test]
fn get_edges_keeps_order_and_duplicates() {
    let mut list = AdjacentList::<i32>::new();
    list.add_edge((1, 1), (2, 2));
    list.add_edge((1, 1), (2, 2));
    list.add_edge((1, 1), (3, 3));

    assert_eq!(list.get_edges(1), vec![2, 2, 3]);
    assert_eq!(list.get_edges(2), Vec::<u64>::new());
    assert_eq!(list.get_edges(42), Vec::<u64>::new());
}

#[test]
fn first_index_and_first_follow_insertion_order() {
    let mut list = AdjacentList::<i32>::new();
    assert_eq!(list.first_index(), None);
    assert!(list.first().is_none());

    list.add_node((7, 70));
    list.add_node((3, 30));

    assert_eq!(list.first_index(), Some(7));
    assert_eq!(list.first(), Some(&70));
}

#[test]
fn add_node_upserts_payload_in_place() {
    let mut list = AdjacentList::<i32>::new();
    list.add_node((1, 10));
    list.add_node((2, 20));
    list.add_node((1, 11));

    assert_eq!(list.get_node(1), Some(&11));
    let nodes = list.get_nodes();
    assert_eq!(nodes.len(), 2);
    assert_eq!(nodes[0].0, 1);
    assert_eq!(*nodes[0].1, 11);
    assert_eq!(nodes[1].0, 2);
}
