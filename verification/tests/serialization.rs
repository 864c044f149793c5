use graph::graph_builders::make_serialization_string;
use graph::graph_builders::make_serialization_string_with_nodes;
use graph::graph_builders::unconnected;

#[test]
fn serialise_unconnected_graph() {
    let g = unconnected(vec![0, 1, 2, 3], false).unwrap();

    let mut expected_string = String::from("// Graph\n");
    expected_string.push_str("number_of_vertices: 4\n");
    expected_string.push_str("directed: false\n");
    expected_string.push_str("edges:\n");

    assert_eq!(expected_string, make_serialization_string(&g));
}

#[test]
fn serialise_undirected_graph() {
    let mut g = unconnected(vec![0, 1, 2, 3], false).unwrap();
    g.add_undirected_edge(0, 3).unwrap();
    g.add_undirected_edge(3, 2).unwrap();
    g.add_undirected_edge(0, 1).unwrap();

    let mut expected_string = String::from("// Graph\n");
    expected_string.push_str("number_of_vertices: 4\n");
    expected_string.push_str("directed: false\n");
    expected_string.push_str("edges:\n");
    expected_string.push_str("0 3\n"); // This edge gets added to 0's adjacency list...
    expected_string.push_str("0 1\n"); // ...earlier than this one does.
    expected_string.push_str("2 3\n");

    assert_eq!(expected_string, make_serialization_string(&g));
}

#[test]
fn serialise_directed_graph() {
    let mut g = unconnected(vec![0, 1, 2, 3], true).unwrap();
    g.add_undirected_edge(0, 3).unwrap(); // Really we're adding an edge in each direction.
    g.add_directed_edge(3, 2).unwrap();
    g.add_directed_edge(0, 1).unwrap();

    let mut expected_string = String::from("// Graph\n");
    expected_string.push_str("number_of_vertices: 4\n");
    expected_string.push_str("directed: true\n");
    expected_string.push_str("edges:\n");
    expected_string.push_str("0 3\n");
    expected_string.push_str("0 1\n");
    expected_string.push_str("3 0\n");
    expected_string.push_str("3 2\n");

    assert_eq!(expected_string, make_serialization_string(&g));
}

#[test]
fn serialise_graph_with_nodes() {
    let mut g = unconnected(vec![7usize, 9, 4], true).unwrap();
    g.add_directed_edge(0, 2).unwrap();

    let mut expected_string = String::from("// Graph\n");
    expected_string.push_str("number_of_vertices: 3\n");
    expected_string.push_str("directed: true\n");
    expected_string.push_str("edges:\n");
    expected_string.push_str("0 2\n");
    expected_string.push_str("nodes:\n");
    expected_string.push_str("7\n");
    expected_string.push_str("9\n");
    expected_string.push_str("4\n");

    assert_eq!(expected_string, make_serialization_string_with_nodes(&g));
}

#[test]
fn serialise_wide_vertex_count() {
    let nodes: Vec<usize> = (0..1234).collect();
    let g = unconnected(nodes, true).unwrap();
    let text = make_serialization_string(&g);
    assert_eq!("// Graph\nnumber_of_vertices: 1234\ndirected: true\nedges:\n", text);
}

#[test]
fn serialised_directed_graph_reads_back() {
    let mut g = unconnected(vec![0usize, 1, 2, 3], true).unwrap();
    g.add_directed_edge(0, 3).unwrap();
    g.add_directed_edge(3, 0).unwrap();
    g.add_directed_edge(3, 2).unwrap();
    g.add_directed_edge(0, 1).unwrap();

    let text = make_serialization_string(&g);
    let h = graph::graph_builders::from_file(&text).unwrap();

    assert_eq!(g.number_of_vertices(), h.number_of_vertices());
    assert_eq!(g.is_directed(), h.is_directed());
    for i in 0..g.number_of_vertices() {
        assert_eq!(g.adjacency_of(i), h.adjacency_of(i));
    }
    assert_eq!(text, make_serialization_string(&h));
}

#[test]
fn serialised_undirected_graph_reads_back() {
    let mut g = unconnected(vec![0usize, 1, 2, 3], false).unwrap();
    g.add_undirected_edge(0, 3).unwrap();
    g.add_undirected_edge(3, 2).unwrap();
    g.add_undirected_edge(0, 1).unwrap();

    let text = make_serialization_string(&g);
    let h = graph::graph_builders::from_file(&text).unwrap();

    assert_eq!(g.number_of_vertices(), h.number_of_vertices());
    assert_eq!(g.is_directed(), h.is_directed());
    for i in 0..g.number_of_vertices() {
        assert_eq!(g.get_degree_from_index(i), h.get_degree_from_index(i));
    }
    assert_eq!(text, make_serialization_string(&h));
}
