use graph_traversal::algorithms::Dfs;
use graph_traversal::graph::adjacent_list_representation::AdjacentList;

#[test]
fn dfs_goes_through_all_connected_nodes_when_the_deepest_node_is_the_first() {
    // given
    let mut graph = AdjacentList::new();
    graph.add_edge((1, 1), (2, 2));
    graph.add_edge((1, 1), (3, 3));
    graph.add_edge((2, 2), (4, 4));
    graph.add_node((5, 5));

    // when
    let mut iter = Dfs(&graph, 1).into_iter();
    let mut visited: Vec<i32> = vec![];
    while let Some(value) = iter.next() {
        visited.push(*value);
    }

    // then
    assert_eq!(visited, vec![1, 2, 4, 3]);
}

#[test]
fn dfs_goes_through_all_connected_nodes_when_the_deepest_node_is_not_the_first() {
    // given
    let mut graph = AdjacentList::new();
    graph.add_edge((1, 1), (2, 2));
    graph.add_edge((1, 1), (3, 3));
    graph.add_edge((2, 2), (4, 4));
    graph.add_edge((2, 2), (5, 5));
    graph.add_edge((3, 3), (7, 7));
    graph.add_edge((5, 5), (6, 6));

    // when
    let mut iter = Dfs(&graph, 1).into_iter();
    let mut visited: Vec<i32> = vec![];
    while let Some(value) = iter.next() {
        visited.push(*value);
    }

    // then
    assert_eq!(visited, vec![1, 2, 4, 5, 6, 3, 7]);
}

#[test]
fn dfs_run_reports_the_visitation_order_by_index() {
    let mut graph = AdjacentList::new();
    graph.add_edge((1, 10), (2, 20));
    graph.add_edge((1, 10), (3, 30));
    graph.add_edge((2, 20), (4, 40));

    let mut iter = Dfs(&graph, 1).into_iter();
    let order = iter.run();

    assert_eq!(order, vec![1, 2, 4, 3]);
}

#[test]
fn dfs_on_an_isolated_start_node_emits_only_that_node() {
    let mut graph = AdjacentList::new();
    graph.add_edge((1, 1), (2, 2));
    graph.add_node((5, 55));

    let mut iter = Dfs(&graph, 5).into_iter();
    let mut visited: Vec<i32> = vec![];
    while let Some(value) = iter.next() {
        visited.push(*value);
    }

    assert_eq!(visited, vec![55]);
}

#[test]
fn dfs_terminates_on_a_cycle() {
    let mut graph = AdjacentList::new();
    graph.add_edge((1, 1), (2, 2));
    graph.add_edge((2, 2), (1, 1));
    graph.add_edge((2, 2), (3, 3));

    let mut iter = Dfs(&graph, 1).into_iter();
    let mut visited: Vec<i32> = vec![];
    while let Some(value) = iter.next() {
        visited.push(*value);
    }

    assert_eq!(visited, vec![1, 2, 3]);
}

#[test]
fn dfs_terminates_on_a_self_loop() {
    let mut graph = AdjacentList::new();
    graph.add_edge((1, 1), (1, 1));
    graph.add_edge((1, 1), (2, 2));

    let mut iter = Dfs(&graph, 1).into_iter();
    let mut visited: Vec<i32> = vec![];
    while let Some(value) = iter.next() {
        visited.push(*value);
    }

    assert_eq!(visited, vec![1, 2]);
}

#[test]
fn dfs_from_an_unknown_start_is_empty() {
    let mut graph = AdjacentList::new();
    graph.add_edge((1, 1), (2, 2));

    let mut iter = Dfs(&graph, 9).into_iter();
    assert!(iter.next().is_none());
}

#[test]
fn dfs_never_emits_unreachable_nodes() {
    let mut graph = AdjacentList::new();
    graph.add_edge((1, 1), (2, 2));
    graph.add_edge((3, 3), (4, 4));

    let mut iter = Dfs(&graph, 1).into_iter();
    let order = iter.run();

    assert_eq!(order, vec![1, 2]);
}
