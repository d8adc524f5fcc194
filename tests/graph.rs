use funding_graph::graph::DirectedGraph;

#[test]
fn new_graph_is_empty() {
    let g: DirectedGraph<u64> = DirectedGraph::new();
    assert_eq!(g.vertex_count(), 0);
    assert_eq!(g.edge_count(), 0);
    assert!(!g.contains_vertex(&1));
    assert!(g.successors(&1).is_empty());
}

#[test]
fn insert_vertex_twice_counts_once() {
    let mut g: DirectedGraph<u64> = DirectedGraph::new();
    g.insert_vertex(7);
    assert_eq!(g.vertex_count(), 1);
    g.insert_vertex(7);
    assert_eq!(g.vertex_count(), 1);
    assert!(g.contains_vertex(&7));
    assert_eq!(g.edge_count(), 0);
}

#[test]
fn insert_edge_adds_missing_endpoints() {
    let mut g: DirectedGraph<u64> = DirectedGraph::new();
    g.insert_edge(1, 2);
    assert!(g.contains_vertex(&1));
    assert!(g.contains_vertex(&2));
    assert_eq!(g.vertex_count(), 2);
    assert_eq!(g.edge_count(), 1);
}

#[test]
fn edges_are_directed_and_only_where_inserted() {
    let mut g: DirectedGraph<u64> = DirectedGraph::new();
    g.insert_edge(1, 2);
    g.insert_vertex(3);
    assert!(g.has_edge(&1, &2));
    assert!(!g.has_edge(&2, &1));
    assert!(!g.has_edge(&1, &3));
    assert!(!g.has_edge(&3, &1));
    assert!(!g.has_edge(&4, &5));
    assert!(!g.has_edge(&1, &1));
}

#[test]
fn insert_edge_twice_records_one_edge() {
    let mut g: DirectedGraph<u64> = DirectedGraph::new();
    g.insert_edge(1, 2);
    g.insert_edge(1, 2);
    assert_eq!(g.edge_count(), 1);
    assert_eq!(g.vertex_count(), 2);
    assert_eq!(g.successors(&1), vec![2]);
}

#[test]
fn successors_list_each_target_once() {
    let mut g: DirectedGraph<u64> = DirectedGraph::new();
    g.insert_edge(1, 2);
    g.insert_edge(1, 3);
    g.insert_edge(1, 2);
    g.insert_edge(2, 3);
    let mut s = g.successors(&1);
    s.sort();
    assert_eq!(s, vec![2, 3]);
    assert_eq!(g.successors(&2), vec![3]);
    assert!(g.successors(&3).is_empty());
    assert!(g.successors(&9).is_empty());
    assert_eq!(g.edge_count(), 3);
    assert_eq!(g.vertex_count(), 3);
}

#[test]
fn self_loop_is_an_ordinary_edge() {
    let mut g: DirectedGraph<u64> = DirectedGraph::new();
    g.insert_edge(5, 5);
    assert!(g.has_edge(&5, &5));
    assert_eq!(g.vertex_count(), 1);
    assert_eq!(g.successors(&5), vec![5]);
}

#[test]
fn cycles_are_allowed() {
    let mut g: DirectedGraph<u64> = DirectedGraph::new();
    g.insert_edge(1, 2);
    g.insert_edge(2, 1);
    assert!(g.has_edge(&1, &2));
    assert!(g.has_edge(&2, &1));
    assert_eq!(g.edge_count(), 2);
}

#[test]
fn many_vertices_are_kept_apart() {
    let mut g: DirectedGraph<u64> = DirectedGraph::new();
    for v in 0..200u64 {
        g.insert_edge(v, v + 1);
    }
    assert_eq!(g.vertex_count(), 201);
    assert_eq!(g.edge_count(), 200);
    for v in 0..200u64 {
        assert!(g.has_edge(&v, &(v + 1)));
        assert!(!g.has_edge(&(v + 1), &v));
    }
}
