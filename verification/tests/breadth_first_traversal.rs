use graph::BFSEvent;
use graph::graph_builders;

#[test]
fn breadth_first_traversal_node_processing() {
    let text = "number_of_vertices: 3\ndirected: false\nedges:\n0 1\n0 2\n";
    let g = graph_builders::from_file(text).unwrap();

    let events = g.breadth_first_iter_from_index(0).unwrap();
    let mut count = 0;
    for e in &events {
        if let BFSEvent::Vertex(_) = e {
            count += 1;
        }
    }
    assert_eq!(3, count);
}

#[test]
fn breadth_first_traversal_edge_processing() {
    let text = "number_of_vertices: 3\ndirected: false\nedges:\n0 1\n0 2\n";
    let g = graph_builders::from_file(text).unwrap();

    let events = g.breadth_first_iter_from_index(0).unwrap();
    let mut edges = Vec::<(usize, usize)>::new();
    for e in &events {
        if let BFSEvent::Edge(s, d) = e {
            edges.push((*s, *d));
        }
    }

    assert_eq!(4, edges.len());
    assert_eq!((0, 1), edges[0]);
    assert_eq!((0, 2), edges[1]);
    assert_eq!((1, 0), edges[2]);
    assert_eq!((2, 0), edges[3]);
}
