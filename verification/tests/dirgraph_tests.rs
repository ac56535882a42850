use shortpath::dirgraph::DirectedGraph;

#[test]
fn most_basic() {
    let mut g = DirectedGraph::new();
    assert_eq!(g.define_vertex(1), Some(1));
    assert_eq!(g.add_edge(2, 3, 1), Some(1));
    assert_eq!(g.add_edge(1, 2, 1), Some(2));
}

fn setup_basic1() -> DirectedGraph {
    let mut g = DirectedGraph::new();
    assert_eq!(g.add_edge(1, 2, 1), Some(1));
    assert_eq!(g.add_edge(1, 3, 1), Some(2));
    assert_eq!(g.add_edge(2, 3, 1), Some(3));
    assert_eq!(g.add_edge(2, 4, 22), Some(4));
    assert_eq!(g.add_edge(3, 4, 33), Some(5));
    assert_eq!(g.get_outgoing_vertex(1), &[2, 3]);
    assert_eq!(g.get_outgoing_vertex(2), &[3, 4]);
    assert_eq!(g.get_outgoing_vertex(3), &[4]);
    assert_eq!(g.get_outgoing_vertex(4), &[]);
    g
}

#[test]
fn dirgraph_basic() {
    let mut g = DirectedGraph::new();
    assert_eq!(g.define_vertex(1), Some(1));
    assert_eq!(g.define_vertex(2), Some(2));
    assert_eq!(g.add_edge(1, 2, 1), Some(1));
    assert_eq!(g.get_vertexes(), vec![1, 2]);
    assert_eq!(g.define_vertex(3), Some(3));
    assert_eq!(g.add_edge(1, 3, 1), Some(2));
    assert_eq!(g.add_edge(2, 3, 1), Some(3));
    assert_eq!(g.get_vertexes(), vec![1, 2, 3]);
    assert_eq!(g.add_edge(1, 4, 1), Some(4));
    assert_eq!(g.get_vertexes(), vec![1, 2, 3, 4]);
}

#[test]
fn test_add() {
    let mut g = DirectedGraph::new();
    assert_eq!(g.add_edge(1, 2, 1), Some(1));
    assert_eq!(g.get_outgoing_vertex(1), &[2]);
    assert_eq!(g.get_incoming_vertex(2), &[1]);
    assert_eq!(g.add_edge(1, 3, 1), Some(2));
    assert_eq!(g.get_outgoing_vertex(1), &[2, 3]);
    assert_eq!(g.get_incoming_vertex(2), &[1]);
}

#[test]
fn test_add_del() {
    let mut g = setup_basic1();
    assert_eq!(g.get_outgoing_vertex(1), &[2, 3]);
    assert_eq!(g.add_edge(1, 2, 1), Some(6));
    assert_eq!(g.get_outgoing_vertex(1), &[2, 3, 2]);
    assert_eq!(g.get_outgoing_vertex(2), &[3, 4]);
    assert_eq!(g.get_outgoing_vertex(3), &[4]);
    assert_eq!(g.delete_edge(6), Ok(()));
    assert_eq!(g.get_outgoing_vertex(1), &[2, 3]);
    assert_eq!(g.delete_edge(1), Ok(()));
    assert_eq!(g.get_outgoing_vertex(1), &[3]);
}

#[test]
fn test_incoming_connection_info() {
    let mut g = setup_basic1();
    assert_eq!(g.get_incoming_connection_weight(2, 4), Some(22));
    assert_eq!(g.get_incoming_connection_weight(1, 4), None);
    assert_eq!(g.get_outgoing_connection_weight(1, 2), Some(1));
    assert_eq!(g.get_outgoing_connection_weight(1, 4), None);
    assert_eq!(g.add_edge(1, 4, 44), Some(6));
    assert_eq!(g.get_outgoing_connection_weight(1, 4), Some(44));
}

#[test]
fn delete_edge_missing() {
    let mut g = setup_basic1();
    assert!(g.delete_edge(99).is_err());
    assert_eq!(g.edge_count(), 5);
}

#[test]
fn define_edge_rejects_sentinel() {
    let mut g = DirectedGraph::new();
    g.add_vertex(1);
    g.add_vertex(2);
    assert_eq!(g.define_edge(0, 1, 5), None);
    assert_eq!(g.define_edge(1, 0, 5), None);
    assert_eq!(g.define_edge(1, 2, 5), Some(1));
    assert_eq!(g.edge_count(), 1);
}

#[test]
fn define_vertex_duplicate() {
    let mut g = DirectedGraph::new();
    assert_eq!(g.define_vertex(7), Some(1));
    assert_eq!(g.define_vertex(7), None);
    assert_eq!(g.vertex_count(), 1);
}

#[test]
fn define_edge_unknown_vertex() {
    let mut g = DirectedGraph::new();
    g.add_vertex(1);
    assert_eq!(g.define_edge(1, 9, 5), None);
    assert_eq!(g.define_edge(9, 1, 5), None);
}

#[test]
fn vertex_iter_is_ascending() {
    let mut g = DirectedGraph::new();
    g.add_vertex(5);
    g.add_vertex(2);
    g.add_vertex(9);
    g.add_vertex(1);
    assert_eq!(g.vertex_iter(), vec![1, 2, 5, 9]);
    assert_eq!(g.get_vertexes(), vec![1, 2, 5, 9]);
}
