use graph::BFSEvent;
use graph::DFSEvent;
use graph::GraphError;
use graph::graph_builders;

fn expect_err<T>(r: Result<T, GraphError>, want: GraphError) {
    match r {
        Ok(_) => panic!("expected an error"),
        Err(e) => assert_eq!(want, e),
    }
}

#[test]
fn duplicate_node_is_refused() {
    expect_err(
        graph_builders::unconnected(vec![1, 2, 1], false),
        GraphError::DuplicateNode,
    );
}

#[test]
fn node_lookups_fail_cleanly() {
    let g = graph_builders::unconnected(vec![5, 6], true).unwrap();
    expect_err(g.node_from_index(2), GraphError::IndexOutOfRange);
    expect_err(g.index_from_node(7), GraphError::NodeNotFound);
}

#[test]
fn edge_insertion_checks_both_indices() {
    let mut g = graph_builders::unconnected(vec![0, 1], true).unwrap();
    expect_err(g.add_directed_edge(0, 2), GraphError::IndexOutOfRange);
    expect_err(g.add_directed_edge(2, 0), GraphError::IndexOutOfRange);
    expect_err(g.add_undirected_edge(1, 5), GraphError::IndexOutOfRange);
    assert_eq!(0, g.get_degree_from_index(0));
    assert_eq!(0, g.get_degree_from_index(1));
}

#[test]
fn traversal_roots_are_checked() {
    let g = graph_builders::unconnected(vec![0, 1], true).unwrap();
    expect_err(g.breadth_first_iter_from_index(2), GraphError::IndexOutOfRange);
    expect_err(g.depth_first_iter_from_index(9), GraphError::IndexOutOfRange);
    expect_err(g.breadth_first_iter_from_node(3), GraphError::NodeNotFound);
}

#[test]
fn missing_vertex_count_is_refused() {
    expect_err(
        graph_builders::from_file("directed: true\nedges:\n"),
        GraphError::MissingRequiredField,
    );
}

#[test]
fn duplicate_declarations_are_refused() {
    expect_err(
        graph_builders::from_file("number_of_vertices: 2\nnumber_of_vertices: 2\n"),
        GraphError::DuplicateFieldDeclaration,
    );
    expect_err(
        graph_builders::from_file("number_of_vertices: 2\ndirected: true\ndirected: false\n"),
        GraphError::DuplicateFieldDeclaration,
    );
}

#[test]
fn malformed_lines_are_refused() {
    expect_err(
        graph_builders::from_file("number_of_vertices: abc\n"),
        GraphError::MalformedFileLine,
    );
    expect_err(
        graph_builders::from_file("number_of_vertices: 2\nwhat_is_this: 1\n"),
        GraphError::MalformedFileLine,
    );
    expect_err(
        graph_builders::from_file("number_of_vertices: 2\nedges: spurious\n"),
        GraphError::MalformedFileLine,
    );
    expect_err(
        graph_builders::from_file("number_of_vertices: 2\nedges:\n0\n"),
        GraphError::MalformedFileLine,
    );
    expect_err(
        graph_builders::from_file("number_of_vertices: 2\nedges:\n0 1 2\n"),
        GraphError::MalformedFileLine,
    );
    expect_err(
        graph_builders::from_file("number_of_vertices: 2\n0 1\n"),
        GraphError::MalformedFileLine,
    );
    expect_err(
        graph_builders::from_file("number_of_vertices: 2\ndirected: maybe\n"),
        GraphError::MalformedFileLine,
    );
}

#[test]
fn edge_to_missing_vertex_is_refused() {
    expect_err(
        graph_builders::from_file("number_of_vertices: 2\nedges:\n0 5\n"),
        GraphError::IndexOutOfRange,
    );
}

#[test]
fn comments_and_blanks_are_ignored() {
    let text = "// a graph with commentary\n\nnumber_of_vertices: 2 // two of them\n  \nedges: // switch\n0 1 // the only edge\n";
    let g = graph_builders::from_file(text).unwrap();
    assert_eq!(2, g.number_of_vertices());
    assert_eq!(1, g.get_degree_from_index(0));
    assert_eq!(0, g.get_degree_from_index(1));
}

#[test]
fn directed_is_the_default() {
    let g = graph_builders::from_file("number_of_vertices: 2\nedges:\n0 1\n").unwrap();
    assert_eq!(1, g.get_degree_from_index(0));
    assert_eq!(0, g.get_degree_from_index(1));
    let text = graph_builders::make_serialization_string(&g);
    assert_eq!("// Graph\nnumber_of_vertices: 2\ndirected: true\nedges:\n0 1\n", text);
}

#[test]
fn from_file_with_nodes_reads_tokens() {
    let text = "number_of_vertices: 3\ndirected: false\nnodes:\n7\n9\n4\nedges:\n0 2\n";
    let g: graph::Graph<usize> = graph_builders::from_file_with_nodes(text).unwrap();
    assert_eq!(3, g.number_of_vertices());
    assert_eq!(7, g.node_from_index(0).unwrap());
    assert_eq!(9, g.node_from_index(1).unwrap());
    assert_eq!(4, g.node_from_index(2).unwrap());
    assert_eq!(2, g.index_from_node(4).unwrap());
    assert_eq!(1, g.get_degree_from_index(0));
    assert_eq!(1, g.get_degree_from_index(2));
}

#[test]
fn from_file_with_nodes_checks_the_count() {
    let text = "number_of_vertices: 3\nnodes:\n7\n9\n";
    let r: Result<graph::Graph<usize>, GraphError> = graph_builders::from_file_with_nodes(text);
    expect_err(r, GraphError::MalformedFileLine);
}

#[test]
fn from_file_with_nodes_checks_uniqueness() {
    let text = "number_of_vertices: 2\nnodes:\n7\n7\n";
    let r: Result<graph::Graph<usize>, GraphError> = graph_builders::from_file_with_nodes(text);
    expect_err(r, GraphError::DuplicateNode);
}

#[test]
fn repeated_insertion_changes_nothing() {
    let mut once = graph_builders::unconnected(vec![0, 1, 2], true).unwrap();
    once.add_directed_edge(0, 1).unwrap();
    let mut twice = graph_builders::unconnected(vec![0, 1, 2], true).unwrap();
    twice.add_directed_edge(0, 1).unwrap();
    twice.add_directed_edge(0, 1).unwrap();
    assert_eq!(once.get_degree_from_index(0), twice.get_degree_from_index(0));
    assert_eq!(
        graph_builders::make_serialization_string(&once),
        graph_builders::make_serialization_string(&twice)
    );

    let mut u_once = graph_builders::unconnected(vec![0, 1], false).unwrap();
    u_once.add_undirected_edge(0, 1).unwrap();
    let mut u_twice = graph_builders::unconnected(vec![0, 1], false).unwrap();
    u_twice.add_undirected_edge(0, 1).unwrap();
    u_twice.add_undirected_edge(0, 1).unwrap();
    assert_eq!(u_once.get_degree_from_index(0), u_twice.get_degree_from_index(0));
    assert_eq!(u_once.get_degree_from_index(1), u_twice.get_degree_from_index(1));
}

#[test]
fn two_node_scenario() {
    let mut g = graph_builders::unconnected(vec![0, 1], false).unwrap();
    g.add_undirected_edge(0, 1).unwrap();

    let events = g.breadth_first_iter_from_index(0).unwrap();
    let mut visits = Vec::new();
    let mut edges = Vec::new();
    for e in &events {
        match e {
            BFSEvent::Vertex(u) => visits.push(*u),
            BFSEvent::Edge(s, d) => edges.push((*s, *d)),
        }
    }
    assert_eq!(vec![0, 1], visits);
    assert_eq!(vec![(0, 1), (1, 0)], edges);

    let events = g.depth_first_iter_from_index(0).unwrap();
    let mut discovery = Vec::new();
    let mut finish = Vec::new();
    for e in &events {
        match e {
            DFSEvent::Discover(u) => discovery.push(*u),
            DFSEvent::Finish(u) => finish.push(*u),
            DFSEvent::Edge(_, _, _) => {}
        }
    }
    assert_eq!(vec![0, 1], discovery);
    assert_eq!(vec![1, 0], finish);

    let events = g.depth_first_iter_from_index(1).unwrap();
    let mut discovery = Vec::new();
    let mut finish = Vec::new();
    for e in &events {
        match e {
            DFSEvent::Discover(u) => discovery.push(*u),
            DFSEvent::Finish(u) => finish.push(*u),
            DFSEvent::Edge(_, _, _) => {}
        }
    }
    assert_eq!(vec![1, 0], discovery);
    assert_eq!(vec![0, 1], finish);
}

#[test]
fn breadth_first_from_node_looks_the_value_up() {
    let mut g = graph_builders::unconnected(vec![10, 20, 30], false).unwrap();
    g.add_undirected_edge(1, 2).unwrap();
    let events = g.breadth_first_iter_from_node(20).unwrap();
    let mut visits = Vec::new();
    for e in &events {
        if let BFSEvent::Vertex(u) = e {
            visits.push(*u);
        }
    }
    assert_eq!(vec![1, 2], visits);
}

#[test]
fn unreachable_nodes_are_skipped() {
    let g = graph_builders::from_file("number_of_vertices: 4\nedges:\n0 1\n2 3\n").unwrap();
    let events = g.breadth_first_iter_from_index(0).unwrap();
    let mut visits = Vec::new();
    for e in &events {
        if let BFSEvent::Vertex(u) = e {
            visits.push(*u);
        }
    }
    assert_eq!(vec![0, 1], visits);
}
