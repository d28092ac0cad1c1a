use algorithms::graph::utils::{gen_random_integers, FakeTool, FakeToolBuilder};
use algorithms::graph::{load_adj_list_from_file, Edge};

#[test]
fn random_integers_add_up() {
    let mut rng = rand::thread_rng();
    assert_eq!(vec![1, 1, 1, 1, 1], gen_random_integers(5, 5, (1, 100), &mut rng));
    assert_eq!(vec![1, 1, 1], gen_random_integers(3, 3, (1, 100), &mut rng));
    for _ in 0..50 {
        let integers = gen_random_integers(15, 100, (1, 15), &mut rng);
        assert_eq!(integers.len(), 15);
        assert_eq!(integers.iter().sum::<usize>(), 100);
        assert!(integers.iter().all(|x| *x >= 1));
    }
    assert_eq!(vec![7], gen_random_integers(1, 7, (3, 9), &mut rng));
    assert_eq!(vec![0], gen_random_integers(0, 0, (1, 1), &mut rng));
}

#[test]
fn random_integers_are_drawn_within_the_range() {
    let mut rng = rand::thread_rng();
    let mut seen_two = false;
    for _ in 0..200 {
        let integers = gen_random_integers(4, 6, (0, 3), &mut rng);
        assert_eq!(integers.iter().sum::<usize>(), 6);
        assert!(integers.iter().all(|x| 1 <= *x && *x <= 3));
        seen_two = seen_two || integers.contains(&2);
    }
    assert!(seen_two);
}

#[test]
fn builder_draws_its_defaults() {
    let mut rng = rand::thread_rng();
    for _ in 0..50 {
        let builder = FakeToolBuilder::new(&mut rng);
        assert!(5 <= builder.num_vertices && builder.num_vertices < 20);
        assert!(builder.num_vertices < builder.num_edges);
        assert!(builder.num_edges < builder.num_vertices * (builder.num_vertices - 1) / 2);
        assert_eq!(builder.weight_range, (-10, 10));
    }
}

#[test]
fn builder_sets_what_it_is_told() {
    let mut rng = rand::thread_rng();
    let mut builder = FakeToolBuilder::new(&mut rng).set_weight_range((1, 100));
    let tool = builder.set_num_vertices(1000).set_num_edges(50000).finish();
    assert_eq!(tool.num_vertices, 1000);
    assert_eq!(tool.num_edges, 50000);
    assert_eq!(tool.weight_range, (1, 100));
    let other = builder.set_num_vertices(10).finish();
    assert_eq!((other.num_vertices, other.num_edges, other.weight_range), (10, 50000, (1, 100)));
}

#[test]
fn vertices_are_numbered_from_one() {
    let tool = FakeTool { num_vertices: 4, num_edges: 0, weight_range: (0, 1) };
    assert_eq!(tool.gen_vertices(), vec![1, 2, 3, 4]);
    let none = FakeTool { num_vertices: 0, num_edges: 0, weight_range: (0, 1) };
    assert!(none.gen_vertices().is_empty());
}

fn check_generated(tool: &FakeTool, edges: &Vec<Edge>) {
    assert!(edges.len() <= tool.num_edges);
    for edge in edges {
        assert!(1 <= edge.in_vertex && edge.in_vertex <= tool.num_vertices);
        assert!(1 <= edge.out_vertex && edge.out_vertex <= tool.num_vertices);
        assert_ne!(edge.in_vertex, edge.out_vertex);
        assert!(tool.weight_range.0 <= edge.weight && edge.weight < tool.weight_range.1);
    }
    for pair in edges.windows(2) {
        assert!(pair[0].in_vertex <= pair[1].in_vertex);
    }
    let mut joined: Vec<(usize, usize)> =
        edges.iter().map(|e| (e.in_vertex, e.out_vertex)).collect();
    joined.sort();
    joined.dedup();
    assert_eq!(joined.len(), edges.len());
}

fn check_dealt(tool: &FakeTool, edges: &Vec<Edge>) {
    let others = tool.num_vertices - 1;
    let mut full = false;
    for vertex in 1..=tool.num_vertices {
        let leaving = edges.iter().filter(|e| e.in_vertex == vertex).count();
        assert!(leaving <= others);
        if others >= 1 {
            assert!(leaving >= 1, "no edge leaves {}", vertex);
        }
        full = full || leaving == others;
    }
    // Edges are missing only where a vertex was granted fewer than were
    // drawn for it.
    assert!(edges.len() == tool.num_edges || full);
}

#[test]
fn every_vertex_gets_the_edges_drawn_for_it() {
    let mut rng = rand::thread_rng();
    for _ in 0..20 {
        let tool = FakeToolBuilder::new(&mut rng).finish();
        check_dealt(&tool, &tool.generate(&mut rng));
    }
    let sparse = FakeTool { num_vertices: 8, num_edges: 8, weight_range: (0, 9) };
    let edges = sparse.generate(&mut rng);
    check_dealt(&sparse, &edges);
    assert_eq!(edges.len(), 8);
    let dense = FakeTool { num_vertices: 5, num_edges: 25, weight_range: (0, 9) };
    check_dealt(&dense, &dense.generate(&mut rng));
    let pair = FakeTool { num_vertices: 2, num_edges: 4, weight_range: (0, 9) };
    let edges = pair.generate(&mut rng);
    check_dealt(&pair, &edges);
    assert_eq!(edges.iter().map(|e| (e.in_vertex, e.out_vertex)).collect::<Vec<_>>(), vec![(1, 2), (2, 1)]);
    let lonely = FakeTool { num_vertices: 1, num_edges: 1, weight_range: (0, 9) };
    check_dealt(&lonely, &lonely.generate(&mut rng));
}

#[test]
fn generated_graphs_fit_the_recipe() {
    let mut rng = rand::thread_rng();
    for _ in 0..20 {
        let tool = FakeToolBuilder::new(&mut rng).finish();
        let edges = tool.generate(&mut rng);
        check_generated(&tool, &edges);
    }
    let dense = FakeTool { num_vertices: 6, num_edges: 36, weight_range: (-100, 200) };
    check_generated(&dense, &dense.generate(&mut rng));
    let unit = FakeTool { num_vertices: 3, num_edges: 5, weight_range: (7, 8) };
    let edges = unit.generate(&mut rng);
    check_generated(&unit, &edges);
    assert!(edges.iter().all(|e| e.weight == 7));
    let lonely = FakeTool { num_vertices: 1, num_edges: 1, weight_range: (0, 1) };
    assert!(lonely.generate(&mut rng).is_empty());
    let nothing = FakeTool { num_vertices: 0, num_edges: 0, weight_range: (0, 1) };
    assert!(nothing.generate(&mut rng).is_empty());
}

#[test]
fn generated_neighbours_come_in_random_order() {
    let mut rng = rand::thread_rng();
    let tool = FakeTool { num_vertices: 12, num_edges: 120, weight_range: (1, 100) };
    let mut reordered = false;
    let mut weights_differ = false;
    for _ in 0..20 {
        let edges = tool.generate(&mut rng);
        for pair in edges.windows(2) {
            if pair[0].in_vertex == pair[1].in_vertex && pair[0].out_vertex > pair[1].out_vertex {
                reordered = true;
            }
            if pair[0].weight != pair[1].weight {
                weights_differ = true;
            }
        }
    }
    assert!(reordered);
    assert!(weights_differ);
}

#[test]
fn graph_text_has_a_line_for_each_edge() {
    let tool = FakeTool { num_vertices: 12, num_edges: 3, weight_range: (-5, 5) };
    let edges = vec![Edge::new(1, 12, -5), Edge::new(10, 2, 0), Edge::new(3, 1, 104)];
    assert_eq!(tool.to_text(&edges), "12 3\n1 12 -5\n10 2 0\n3 1 104\n");
    assert_eq!(tool.to_text(&Vec::new()), "12 3\n");
}

#[test]
fn graph_text_can_be_loaded_again() {
    let mut rng = rand::thread_rng();
    let recipe = FakeTool { num_vertices: 9, num_edges: 30, weight_range: (-100, 200) };
    let edges = recipe.generate(&mut rng);
    let tool = FakeTool { num_vertices: 9, num_edges: edges.len(), weight_range: (-100, 200) };
    let graph = load_adj_list_from_file(&tool.to_text(&edges)).unwrap();
    assert_eq!(graph.num_vertices(), 9);
    assert_eq!(graph.num_edges(), edges.len());
    for vertex in 1..=9 {
        let mut expected: Vec<Edge> =
            edges.iter().filter(|e| e.in_vertex == vertex).copied().collect();
        expected.reverse();
        let mut found = Vec::new();
        let mut cursor = graph.edge_iterator_of_vertex(vertex);
        while let Some(edge) = cursor.next() {
            found.push(*edge);
        }
        assert_eq!(found, expected);
    }
}
