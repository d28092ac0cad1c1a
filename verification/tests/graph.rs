use algorithms::graph::algorithms::Graph;
use algorithms::graph::{load_adj_list_from_file, AdjacencyList, Edge, GraphError};

const TEST_GRAPH: &str = "4 5\n1 2 4\n1 4 8\n2 4 9\n2 3 2\n3 4 1\n";
const POSITIVE_TEST_GRAPH: &str = "5 7\n4 1 3\n4 2 10\n1 2 2\n2 3 1\n1 3 9\n3 5 4\n5 4 6\n";

fn edges_of(graph: &AdjacencyList, vertex: usize) -> Vec<(usize, usize, i32)> {
    let mut found = Vec::new();
    let mut cursor = graph.edge_iterator_of_vertex(vertex);
    while let Some(edge) = cursor.next() {
        found.push((edge.in_vertex, edge.out_vertex, edge.weight));
    }
    found
}

#[test]
fn test_load_graph_from_file() {
    let adj_list = load_adj_list_from_file(TEST_GRAPH).unwrap();
    assert_eq!(adj_list.num_edges(), 5);
    assert_eq!(adj_list.num_vertices(), 4);
}

#[test]
fn test_edge_iterator() {
    let adj_list = load_adj_list_from_file(TEST_GRAPH).unwrap();
    let mut edge_iterator = adj_list.edge_iterator_of_vertex(1);
    let edge = edge_iterator.next().unwrap();
    assert_eq!((edge.in_vertex, edge.out_vertex, edge.weight), (1, 4, 8));
    let edge = edge_iterator.next().unwrap();
    assert_eq!((edge.in_vertex, edge.out_vertex, edge.weight), (1, 2, 4));
    let edge = edge_iterator.next();
    assert!(edge.is_none());
}

#[test]
fn test_graph_dfs() {
    let graph = Graph::create_from_file(TEST_GRAPH).unwrap();
    graph.dfs();
}

#[test]
fn test_graph_bfs() {
    let graph = Graph::create_from_file(TEST_GRAPH).unwrap();
    graph.bfs();
}

#[test]
fn test_graph_dijkstra() {
    let graph = Graph::create_from_file(POSITIVE_TEST_GRAPH).unwrap();
    graph.dijkstra(4);
}

#[test]
fn new_graph_has_no_edges() {
    let graph = AdjacencyList::new(3, 2);
    assert_eq!(graph.num_vertices(), 3);
    assert_eq!(graph.num_edges(), 2);
    for vertex in 0..=3 {
        assert!(edges_of(&graph, vertex).is_empty());
    }
}

#[test]
fn edges_come_out_in_reverse_insertion_order() {
    let mut graph = AdjacencyList::new(3, 6);
    graph.add_directed_edge(1, 2, 10).unwrap();
    graph.add_directed_edge(2, 3, 20).unwrap();
    graph.add_directed_edge(1, 3, 30).unwrap();
    graph.add_directed_edge(1, 2, -40).unwrap();
    graph.add_directed_edge(3, 3, 50).unwrap();
    assert_eq!(edges_of(&graph, 1), vec![(1, 2, -40), (1, 3, 30), (1, 2, 10)]);
    assert_eq!(edges_of(&graph, 2), vec![(2, 3, 20)]);
    assert_eq!(edges_of(&graph, 3), vec![(3, 3, 50)]);
    assert!(edges_of(&graph, 0).is_empty());
}

#[test]
fn cursors_are_independent_and_restartable() {
    let graph = load_adj_list_from_file(TEST_GRAPH).unwrap();
    let mut first = graph.edge_iterator_of_vertex(2);
    let mut second = graph.edge_iterator_of_vertex(2);
    assert_eq!(first.next().unwrap().out_vertex, 3);
    assert_eq!(second.next().unwrap().out_vertex, 3);
    assert_eq!(first.next().unwrap().out_vertex, 4);
    assert!(first.next().is_none());
    assert!(first.next().is_none());
    assert_eq!(second.next().unwrap().out_vertex, 4);
    assert_eq!(edges_of(&graph, 2), vec![(2, 3, 2), (2, 4, 9)]);
}

#[test]
fn insertion_rejects_vertices_out_of_range() {
    let mut graph = AdjacencyList::new(3, 1);
    assert_eq!(graph.add_directed_edge(0, 1, 1), Err(GraphError::VertexOutOfRange));
    assert_eq!(graph.add_directed_edge(1, 0, 1), Err(GraphError::VertexOutOfRange));
    assert_eq!(graph.add_directed_edge(4, 1, 1), Err(GraphError::VertexOutOfRange));
    assert_eq!(graph.add_directed_edge(1, 4, 1), Err(GraphError::VertexOutOfRange));
    assert!(edges_of(&graph, 1).is_empty());
    assert_eq!(graph.add_directed_edge(3, 1, 1), Ok(()));
}

#[test]
fn insertion_rejects_edges_beyond_capacity() {
    let mut graph = AdjacencyList::new(2, 1);
    assert_eq!(graph.add_directed_edge(1, 2, 5), Ok(()));
    assert_eq!(graph.add_directed_edge(2, 1, 5), Err(GraphError::CapacityExhausted));
    assert_eq!(edges_of(&graph, 1), vec![(1, 2, 5)]);
    assert!(edges_of(&graph, 2).is_empty());
    // The range is checked before the capacity.
    assert_eq!(graph.add_directed_edge(3, 1, 5), Err(GraphError::VertexOutOfRange));
    let mut empty = AdjacencyList::new(2, 0);
    assert_eq!(empty.add_directed_edge(1, 2, 5), Err(GraphError::CapacityExhausted));
}

#[test]
fn undirected_edge_takes_two_slots() {
    let mut graph = AdjacencyList::new(2, 3);
    assert_eq!(graph.add_undirected_edge(1, 2, 7), Ok(()));
    assert_eq!(edges_of(&graph, 1), vec![(1, 2, 7)]);
    assert_eq!(edges_of(&graph, 2), vec![(2, 1, 7)]);
    // One slot is left: the first half goes in, the second does not.
    assert_eq!(graph.add_undirected_edge(2, 1, 9), Err(GraphError::CapacityExhausted));
    assert_eq!(edges_of(&graph, 2), vec![(2, 1, 9), (2, 1, 7)]);
    assert_eq!(edges_of(&graph, 1), vec![(1, 2, 7)]);
    assert_eq!(graph.add_undirected_edge(1, 2, 9), Err(GraphError::CapacityExhausted));
    assert_eq!(graph.add_undirected_edge(1, 3, 9), Err(GraphError::VertexOutOfRange));
    assert_eq!(edges_of(&graph, 1), vec![(1, 2, 7)]);
}

#[test]
fn errors_fall_into_two_classes() {
    assert!(!GraphError::MalformedInput.is_structural());
    assert!(GraphError::VertexOutOfRange.is_structural());
    assert!(GraphError::CapacityExhausted.is_structural());
}

#[test]
fn edge_in_words() {
    assert_eq!(Edge::new(1, 4, 8).to_str(), "in vertex: 1, out vertex: 4, weight: 8");
    assert_eq!(Edge::new(120, 7, -35).to_str(), "in vertex: 120, out vertex: 7, weight: -35");
    assert_eq!(
        Edge::new(0, 10, i32::MIN).to_str(),
        "in vertex: 0, out vertex: 10, weight: -2147483648"
    );
    assert_eq!(
        Edge::new(usize::MAX, 1, i32::MAX).to_str(),
        format!("in vertex: {}, out vertex: 1, weight: 2147483647", usize::MAX)
    );
}

#[test]
fn loading_keeps_the_edges_grouped_by_source() {
    let graph = load_adj_list_from_file(TEST_GRAPH).unwrap();
    assert_eq!(edges_of(&graph, 1), vec![(1, 4, 8), (1, 2, 4)]);
    assert_eq!(edges_of(&graph, 2), vec![(2, 3, 2), (2, 4, 9)]);
    assert_eq!(edges_of(&graph, 3), vec![(3, 4, 1)]);
    assert!(edges_of(&graph, 4).is_empty());
}

#[test]
fn loading_reads_signs_blanks_and_a_missing_last_line_feed() {
    let graph = load_adj_list_from_file("  +3\t2 \r\n1  2   -7\r\n\t3 1 +0012").unwrap();
    assert_eq!(graph.num_vertices(), 3);
    assert_eq!(graph.num_edges(), 2);
    assert_eq!(edges_of(&graph, 1), vec![(1, 2, -7)]);
    assert_eq!(edges_of(&graph, 3), vec![(3, 1, 12)]);
    let limits = load_adj_list_from_file("1 2\n1 1 -2147483648\n1 1 2147483647\n").unwrap();
    assert_eq!(edges_of(&limits, 1), vec![(1, 1, 2147483647), (1, 1, -2147483648)]);
    let empty = load_adj_list_from_file("0 0").unwrap();
    assert_eq!(empty.num_vertices(), 0);
}

#[test]
fn loading_rejects_malformed_text() {
    let malformed = [
        "",
        "\n1 2 3\n",
        "4\n",
        "4 5 6\n",
        "x 5\n",
        "4 -5\n",
        "2 1\n1 2\n",
        "2 1\n1 2 3 4\n",
        "2 1\n1 2 x\n",
        "2 1\n1 2 2147483648\n",
        "2 1\n1 2 -2147483649\n",
        "2 1\n1 2 +\n",
        "2 1\n1 2 -\n",
        "2 1\n-1 2 3\n",
        "2 1\n1 2 3\n\n",
        "2 2\n1 2 3\n",
        "2 1\n",
        "99999999999999999999999999 1\n",
        "18446744073709551615 0\n",
    ];
    for text in malformed {
        assert_eq!(load_adj_list_from_file(text).err(), Some(GraphError::MalformedInput), "{:?}", text);
    }
}

#[test]
fn loading_reports_the_first_failing_line() {
    assert_eq!(load_adj_list_from_file("2 1\n1 3 5\n").err(), Some(GraphError::VertexOutOfRange));
    assert_eq!(load_adj_list_from_file("2 1\n0 1 5\n").err(), Some(GraphError::VertexOutOfRange));
    assert_eq!(
        load_adj_list_from_file("2 1\n1 2 5\n2 1 5\n").err(),
        Some(GraphError::CapacityExhausted)
    );
    assert_eq!(
        load_adj_list_from_file("2 1\n1 2 5\n2 1 5\nnonsense\n").err(),
        Some(GraphError::CapacityExhausted)
    );
    assert_eq!(
        load_adj_list_from_file("2 1\nnonsense\n1 3 5\n").err(),
        Some(GraphError::MalformedInput)
    );
    assert_eq!(
        load_adj_list_from_file("2 1\n1 3 5\nnonsense\n").err(),
        Some(GraphError::VertexOutOfRange)
    );
    assert_eq!(Graph::create_from_file("2 1\n1 3 5\n").err(), Some(GraphError::VertexOutOfRange));
}

fn sorted(mut order: Vec<usize>) -> Vec<usize> {
    order.sort();
    order
}

#[test]
fn traversals_visit_in_chain_order() {
    let graph = Graph::create_from_file(TEST_GRAPH).unwrap();
    // From 1 the chain gives 4 before 2; depth first goes on from 2.
    assert_eq!(graph.dfs(), vec![1, 2, 3, 4]);
    assert_eq!(graph.bfs(), vec![1, 4, 2, 3]);
}

#[test]
fn traversals_visit_every_vertex_once() {
    let text = "7 5\n2 3 1\n3 2 1\n5 6 1\n5 7 1\n6 7 1\n";
    let graph = Graph::create_from_file(text).unwrap();
    let depth_first = graph.dfs();
    let breadth_first = graph.bfs();
    assert_eq!(depth_first, vec![1, 2, 3, 4, 5, 6, 7]);
    assert_eq!(breadth_first, vec![1, 2, 3, 4, 5, 7, 6]);
    assert_eq!(sorted(depth_first), vec![1, 2, 3, 4, 5, 6, 7]);
    assert_eq!(sorted(breadth_first), vec![1, 2, 3, 4, 5, 6, 7]);
    let empty = Graph::new(AdjacencyList::new(0, 0));
    assert!(empty.dfs().is_empty());
    assert!(empty.bfs().is_empty());
}

#[test]
fn traversals_differ_where_the_graph_branches() {
    let text = "6 5\n1 2 0\n1 3 0\n3 4 0\n3 5 0\n2 6 0\n";
    let graph = Graph::create_from_file(text).unwrap();
    // Waiting after 1: [3, 2]. Depth first takes 2, breadth first takes 3.
    assert_eq!(graph.dfs(), vec![1, 2, 6, 3, 4, 5]);
    assert_eq!(graph.bfs(), vec![1, 3, 2, 5, 4, 6]);
}

#[test]
fn dijkstra_finds_the_shorter_way_round() {
    let text = "4 5\n1 4 8\n1 2 4\n2 3 2\n3 4 1\n2 4 9\n";
    let graph = Graph::create_from_file(text).unwrap();
    let paths = graph.dijkstra(1);
    assert_eq!(paths.distance, vec![None, Some(0), Some(4), Some(6), Some(7)]);
    assert_eq!(paths.settled, vec![false, true, true, true, true]);
    let loaded = Graph::create_from_file(TEST_GRAPH).unwrap().dijkstra(1);
    assert_eq!(loaded.distance, vec![None, Some(0), Some(4), Some(6), Some(7)]);
}

#[test]
fn dijkstra_leaves_unreached_vertices_unknown() {
    let graph = Graph::create_from_file(TEST_GRAPH).unwrap();
    let paths = graph.dijkstra(3);
    assert_eq!(paths.distance, vec![None, None, None, Some(0), Some(1)]);
    assert_eq!(paths.settled, vec![false, false, false, true, true]);
    let alone = graph.dijkstra(4);
    assert_eq!(alone.distance, vec![None, None, None, None, Some(0)]);
    assert_eq!(alone.settled, vec![false, false, false, false, true]);
    let nowhere = graph.dijkstra(0);
    assert_eq!(nowhere.distance, vec![Some(0), None, None, None, None]);
    assert_eq!(nowhere.settled, vec![true, false, false, false, false]);
}

#[test]
fn dijkstra_on_a_longer_example() {
    let graph = Graph::create_from_file(POSITIVE_TEST_GRAPH).unwrap();
    let paths = graph.dijkstra(4);
    assert_eq!(paths.distance, vec![None, Some(3), Some(5), Some(6), Some(0), Some(10)]);
    assert_eq!(paths.settled, vec![false, true, true, true, true, true]);
}

#[test]
fn dijkstra_lowers_keys_and_takes_the_least_of_parallel_edges() {
    // 2 is first known at 10, then lowered to 3 by way of 3.
    let text = "3 5\n1 2 10\n1 2 12\n1 3 1\n3 2 2\n3 2 5\n";
    let paths = Graph::create_from_file(text).unwrap().dijkstra(1);
    assert_eq!(paths.distance, vec![None, Some(0), Some(3), Some(1)]);
    let parallel = Graph::create_from_file("2 3\n1 2 7\n1 2 5\n1 2 9\n").unwrap().dijkstra(1);
    assert_eq!(parallel.distance, vec![None, Some(0), Some(5)]);
}

#[test]
fn dijkstra_reports_a_loop_at_the_source() {
    // An edge from the source to itself is relaxed like the others.
    let text = "2 3\n1 1 6\n1 2 2\n1 1 4\n";
    let paths = Graph::create_from_file(text).unwrap().dijkstra(1);
    assert_eq!(paths.distance, vec![None, Some(6), Some(2)]);
    assert_eq!(paths.settled, vec![false, true, true]);
}

#[test]
fn dijkstra_takes_negative_weights() {
    let text = "3 3\n1 2 -5\n2 3 -2147483648\n3 1 -1\n";
    let paths = Graph::create_from_file(text).unwrap().dijkstra(1);
    assert_eq!(paths.distance, vec![None, Some(0), Some(-5), Some(-2147483653)]);
    assert_eq!(paths.settled, vec![false, true, true, true]);
}

#[test]
fn dijkstra_adds_beyond_thirty_two_bits() {
    let text = "3 2\n1 2 2147483647\n2 3 2147483647\n";
    let paths = Graph::create_from_file(text).unwrap().dijkstra(1);
    assert_eq!(paths.distance, vec![None, Some(0), Some(2147483647), Some(4294967294)]);
}

#[test]
fn graph_in_words() {
    let mut graph = AdjacencyList::new(3, 4);
    assert_eq!(graph.to_str(), "");
    graph.add_directed_edge(2, 3, -1).unwrap();
    graph.add_directed_edge(1, 2, 40).unwrap();
    assert_eq!(
        graph.to_str(),
        "in vertex: 2, out vertex: 3, weight: -1\nin vertex: 1, out vertex: 2, weight: 40\n"
    );
}
