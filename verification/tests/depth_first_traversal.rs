use graph::DFSEdgeType;
use graph::DFSEvent;
use graph::graph_builders;

fn discovery_and_finish(events: &[DFSEvent]) -> (Vec<usize>, Vec<usize>) {
    let mut discovery_order = Vec::<usize>::new();
    let mut processed_order = Vec::<usize>::new();
    for e in events {
        match e {
            DFSEvent::Discover(u) => discovery_order.push(*u),
            DFSEvent::Finish(u) => processed_order.push(*u),
            DFSEvent::Edge(_, _, _) => {}
        }
    }
    (discovery_order, processed_order)
}

fn edge_events(events: &[DFSEvent]) -> Vec<(usize, usize, DFSEdgeType)> {
    let mut edges = Vec::new();
    for e in events {
        if let DFSEvent::Edge(s, d, t) = e {
            edges.push((*s, *d, *t));
        }
    }
    edges
}

#[test]
fn traversal_order() {
    let text = "number_of_vertices: 3\ndirected: true\nedges:\n0 1\n1 0\n2 0\n";
    let g = graph_builders::from_file(text).unwrap();

    let events = g.depth_first_iter_from_index(0).unwrap();
    let (discovery_order, processed_order) = discovery_and_finish(&events);
    assert_eq!(vec![0, 1], discovery_order);
    assert_eq!(vec![1, 0], processed_order);

    let events = g.depth_first_iter_from_index(1).unwrap();
    let (discovery_order, processed_order) = discovery_and_finish(&events);
    assert_eq!(vec![1, 0], discovery_order);
    assert_eq!(vec![0, 1], processed_order);

    let events = g.depth_first_iter_from_index(2).unwrap();
    let (discovery_order, processed_order) = discovery_and_finish(&events);
    assert_eq!(vec![2, 0, 1], discovery_order);
    assert_eq!(vec![1, 0, 2], processed_order);
}

#[test]
fn traversal_order_2() {
    let text = "number_of_vertices: 6\ndirected: false\nedges:\n0 1\n1 2\n0 3\n2 3\n2 4\n3 4\n0 5\n";
    let g = graph_builders::from_file(text).unwrap();

    let events = g.depth_first_iter_from_index(0).unwrap();
    let (discovery_order, processed_order) = discovery_and_finish(&events);
    assert_eq!(vec![0, 1, 2, 3, 4, 5], discovery_order);
    assert_eq!(vec![4, 3, 2, 1, 5, 0], processed_order);

    let events = g.depth_first_iter_from_index(2).unwrap();
    let (discovery_order, processed_order) = discovery_and_finish(&events);
    assert_eq!(vec![2, 1, 0, 3, 4, 5], discovery_order);
    assert_eq!(vec![4, 3, 5, 0, 1, 2], processed_order);
}

#[test]
fn edge_processing_directed() {
    let text = "number_of_vertices: 7\ndirected: true\nedges:\n2 0\n2 1\n2 3\n0 4\n4 0\n4 2\n4 5\n4 6\n1 3\n1 4\n";
    let g = graph_builders::from_file(text).unwrap();

    let events = g.depth_first_iter_from_index(2).unwrap();
    let edges = edge_events(&events);

    let expected_edges = vec![
        (2, 0, DFSEdgeType::Tree),
        (0, 4, DFSEdgeType::Tree),
        (4, 0, DFSEdgeType::Back),
        (4, 2, DFSEdgeType::Back),
        (4, 5, DFSEdgeType::Tree),
        (4, 6, DFSEdgeType::Tree),
        (2, 1, DFSEdgeType::Tree),
        (1, 3, DFSEdgeType::Tree),
        (1, 4, DFSEdgeType::Cross),
        (2, 3, DFSEdgeType::Forward),
    ];

    assert_eq!(expected_edges, edges);
}

#[test]
fn edge_processing_undirected() {
    let text = "number_of_vertices: 6\ndirected: false\nedges:\n0 1\n1 2\n0 3\n2 3\n2 4\n3 4\n0 5\n";
    let g = graph_builders::from_file(text).unwrap();

    let events = g.depth_first_iter_from_index(1).unwrap();
    let edges = edge_events(&events);

    // Every stored arc is reported: the reverse direction of each tree edge
    // is seen while its endpoint is still being processed, so it comes back
    // classified Back.
    let expected_edges = vec![
        (1, 0, DFSEdgeType::Tree),
        (0, 1, DFSEdgeType::Back),
        (0, 3, DFSEdgeType::Tree),
        (3, 0, DFSEdgeType::Back),
        (3, 2, DFSEdgeType::Tree),
        (2, 1, DFSEdgeType::Back),
        (2, 3, DFSEdgeType::Back),
        (2, 4, DFSEdgeType::Tree),
        (4, 2, DFSEdgeType::Back),
        (4, 3, DFSEdgeType::Back),
        (3, 4, DFSEdgeType::Forward),
        (0, 5, DFSEdgeType::Tree),
        (5, 0, DFSEdgeType::Back),
        (1, 2, DFSEdgeType::Forward),
    ];

    assert_eq!(expected_edges, edges);
}

#[test]
fn iter_on_fan_in() {
    let mut g = graph_builders::unconnected(vec![0, 1, 2, 3, 4], true).unwrap();
    g.add_directed_edge(0, 1).unwrap();
    g.add_directed_edge(1, 2).unwrap();
    g.add_directed_edge(3, 1).unwrap();
    g.add_directed_edge(4, 2).unwrap();

    let events = g.depth_first_iter();
    let (discovery_order, processed_order) = discovery_and_finish(&events);
    let edges = edge_events(&events);

    assert_eq!(vec![0, 1, 2, 3, 4], discovery_order);
    assert_eq!(vec![2, 1, 0, 3, 4], processed_order);

    let expected_edges = vec![
        (0, 1, DFSEdgeType::Tree),
        (1, 2, DFSEdgeType::Tree),
        (3, 1, DFSEdgeType::Forward),
        (4, 2, DFSEdgeType::Forward),
    ];

    assert_eq!(expected_edges, edges);
}
