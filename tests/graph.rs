use michael_jackson::{Graph, GraphError, VRef};

fn handles(g: &Graph<char, u32>) -> Vec<VRef> {
    let mut out = Vec::new();
    let mut it = g.vertices();
    while let Some(h) = it.next() {
        out.push(h);
    }
    out
}

fn indices(hs: &[VRef]) -> Vec<usize> {
    hs.iter().map(|h| h.index()).collect()
}

#[test]
fn new_graph_is_empty() {
    let g: Graph<char, u32> = Graph::new();
    assert_eq!(g.num_vertices(), 0);
    assert_eq!(g.num_edges(), 0);
    assert_eq!(g.num_components(), 0);
    assert!(g.get_adjacency_matrix().is_empty());
    assert!(g.get_laplacian().is_empty());
}

#[test]
fn vertex_round_trip() {
    let mut g: Graph<char, u32> = Graph::new();
    let h = g.add_vertex('a');
    assert_eq!(g.replace_vertex(&h, 'b'), Ok('a'));
    assert_eq!(g.get(&h), Ok(&'b'));
    assert_eq!(g.num_vertices(), 1);
}

#[test]
fn add_vertex_keeps_duplicates() {
    let mut g: Graph<char, u32> = Graph::new();
    let h1 = g.add_vertex('a');
    let h2 = g.add_vertex('a');
    assert_ne!(h1, h2);
    assert_eq!(h1.index(), 0);
    assert_eq!(h2.index(), 1);
    assert_eq!(g.num_vertices(), 2);
}

#[test]
fn adjacency_is_symmetric() {
    let mut g: Graph<char, u32> = Graph::new();
    let a = g.add_vertex('a');
    let b = g.add_vertex('b');
    let c = g.add_vertex('c');
    assert!(g.add_edge(&a, &b, 7).is_ok());
    assert_eq!(g.adjacent(&a, &b), Ok(true));
    assert_eq!(g.adjacent(&b, &a), Ok(true));
    assert_eq!(g.adjacent(&a, &c), Ok(false));
    assert_eq!(g.adjacent(&c, &a), Ok(false));
    assert_eq!(g.adjacent(&a, &a), Ok(false));
}

#[test]
fn no_duplicate_edges() {
    let mut g: Graph<char, u32> = Graph::new();
    let a = g.add_vertex('a');
    let b = g.add_vertex('b');
    assert!(g.add_edge(&a, &b, 1).is_ok());
    assert_eq!(g.add_edge(&a, &b, 2).err(), Some(GraphError::EdgeAlreadyExists));
    assert_eq!(g.add_edge(&b, &a, 3).err(), Some(GraphError::EdgeAlreadyExists));
    assert_eq!(g.num_edges(), 1);
}

#[test]
fn self_loop_rejected() {
    let mut g: Graph<char, u32> = Graph::new();
    let a = g.add_vertex('a');
    assert_eq!(g.add_edge(&a, &a, 1).err(), Some(GraphError::SelfLoopRejected));
    assert_eq!(g.num_edges(), 0);
    assert_eq!(g.adjacent(&a, &a), Ok(false));
}

#[test]
fn replace_edge_swaps_weight() {
    let mut g: Graph<char, u32> = Graph::new();
    let a = g.add_vertex('a');
    let b = g.add_vertex('b');
    let c = g.add_vertex('c');
    assert!(g.add_edge(&a, &b, 5).is_ok());
    assert_eq!(g.replace_edge(&b, &a, 9), Ok(Some(5)));
    assert_eq!(g.replace_edge(&a, &b, 11), Ok(Some(9)));
    assert_eq!(g.replace_edge(&a, &c, 4), Ok(None));
    assert_eq!(g.adjacent(&a, &c), Ok(false));
    assert_eq!(g.num_edges(), 1);
}

#[test]
fn neighbors_in_insertion_order() {
    let mut g: Graph<char, u32> = Graph::new();
    let a = g.add_vertex('a');
    let b = g.add_vertex('b');
    let c = g.add_vertex('c');
    let d = g.add_vertex('d');
    assert!(g.add_edge(&a, &d, 0).is_ok());
    assert!(g.add_edge(&b, &a, 0).is_ok());
    assert!(g.add_edge(&a, &c, 0).is_ok());
    assert_eq!(indices(&g.get_neighbors(&a).unwrap()), vec![3, 1, 2]);
    assert_eq!(indices(&g.get_neighbors(&b).unwrap()), vec![0]);
    assert_eq!(indices(&g.get_neighbors(&d).unwrap()), vec![0]);
    let e = g.add_vertex('e');
    assert!(g.get_neighbors(&e).unwrap().is_empty());
}

#[test]
fn adjacency_matrix_of_path() {
    let mut g: Graph<char, u32> = Graph::new();
    let a = g.add_vertex('a');
    let b = g.add_vertex('b');
    let c = g.add_vertex('c');
    assert!(g.add_edge(&a, &b, 0).is_ok());
    assert!(g.add_edge(&c, &b, 0).is_ok());
    assert_eq!(g.get_adjacency_matrix(), vec![0, 1, 0, 1, 0, 1, 0, 1, 0]);
}

#[test]
fn laplacian_of_path() {
    let mut g: Graph<char, u32> = Graph::new();
    let a = g.add_vertex('a');
    let b = g.add_vertex('b');
    let c = g.add_vertex('c');
    assert!(g.add_edge(&a, &b, 0).is_ok());
    assert!(g.add_edge(&c, &b, 0).is_ok());
    assert_eq!(g.get_laplacian(), vec![vec![1, -1, 0], vec![-1, 2, -1], vec![0, -1, 1]]);
}

#[test]
fn laplacian_rows_sum_to_zero() {
    let pairs = vec![('a', 'b'), ('b', 'c'), ('c', 'a'), ('c', 'd'), ('e', 'f'), ('g', 'g')];
    let g: Graph<char, u32> = Graph::new_from_edges(&pairs);
    let l = g.get_laplacian();
    assert_eq!(l.len(), 7);
    for row in &l {
        assert_eq!(row.len(), 7);
        assert_eq!(row.iter().sum::<isize>(), 0);
    }
    assert_eq!(l[2][2], 3);
    assert_eq!(l[6][6], 0);
}

#[test]
fn component_count_two_then_one() {
    let mut g: Graph<char, u32> = Graph::new();
    let created = g.extend_with_edges(&vec![('A', 'B'), ('C', 'D')]);
    assert_eq!(indices(&created), vec![0, 1, 2, 3]);
    assert_eq!(g.num_components(), 2);
    let b = created[1];
    let c = created[2];
    assert_eq!(g.get(&b), Ok(&'B'));
    assert_eq!(g.get(&c), Ok(&'C'));
    assert!(g.add_edge(&b, &c, 0).is_ok());
    assert_eq!(g.num_components(), 1);
}

#[test]
fn bulk_construction_is_idempotent() {
    let pairs = vec![('a', 'b'), ('b', 'c'), ('a', 'b'), ('d', 'd')];
    let mut g: Graph<char, u32> = Graph::new();
    let first = g.extend_with_edges(&pairs);
    assert_eq!(first.len(), 4);
    assert_eq!(g.num_vertices(), 4);
    assert_eq!(g.num_edges(), 2);
    let second = g.extend_with_edges(&pairs);
    assert!(second.is_empty());
    assert_eq!(g.num_vertices(), 4);
    assert_eq!(g.num_edges(), 2);
}

#[test]
fn bulk_construction_reuses_existing_vertices() {
    let mut g: Graph<char, u32> = Graph::new();
    let x = g.add_vertex('x');
    let created = g.extend_with_edges(&vec![('x', 'y')]);
    assert_eq!(indices(&created), vec![1]);
    let y = created[0];
    assert_eq!(g.adjacent(&x, &y), Ok(true));
    assert_eq!(g.replace_edge(&x, &y, 8), Ok(Some(0)));
}

#[test]
fn new_from_edges_builds_graph() {
    let g: Graph<u64, u32> = Graph::new_from_edges(&vec![(10, 20), (20, 30)]);
    assert_eq!(g.num_vertices(), 3);
    assert_eq!(g.num_edges(), 2);
    assert_eq!(g.num_components(), 1);
}

#[test]
fn isolated_vertex() {
    let mut g: Graph<char, u32> = Graph::new();
    g.add_vertex('a');
    assert_eq!(g.num_vertices(), 1);
    assert_eq!(g.num_edges(), 0);
    assert_eq!(g.num_components(), 1);
    assert_eq!(g.get_laplacian(), vec![vec![0]]);
}

#[test]
fn components_count_isolated_vertices() {
    let mut g: Graph<char, u32> = Graph::new();
    let a = g.add_vertex('a');
    g.add_vertex('b');
    let c = g.add_vertex('c');
    g.add_vertex('d');
    assert_eq!(g.num_components(), 4);
    assert!(g.add_edge(&c, &a, 0).is_ok());
    assert_eq!(g.num_components(), 3);
}

#[test]
fn cross_graph_handle_rejected() {
    let mut g1: Graph<char, u32> = Graph::new();
    let mut g2: Graph<char, u32> = Graph::new();
    let a1 = g1.add_vertex('a');
    let b1 = g1.add_vertex('b');
    let a2 = g2.add_vertex('a');
    let b2 = g2.add_vertex('b');
    assert_eq!(g2.add_edge(&a1, &b1, 1).err(), Some(GraphError::InvalidHandle));
    assert_eq!(g2.add_edge(&a2, &b1, 1).err(), Some(GraphError::InvalidHandle));
    assert_eq!(g2.num_edges(), 0);
    assert_eq!(g2.adjacent(&a1, &b2), Err(GraphError::InvalidHandle));
    assert_eq!(g2.get(&a1), Err(GraphError::InvalidHandle));
    assert_eq!(g2.replace_vertex(&a1, 'z'), Err(GraphError::InvalidHandle));
    assert_eq!(g2.get(&a2), Ok(&'a'));
    assert_eq!(g2.replace_edge(&a1, &b2, 3), Err(GraphError::InvalidHandle));
    assert!(g2.get_neighbors(&b1).is_err());
}

#[test]
fn vertices_walk_is_a_snapshot() {
    let mut g: Graph<char, u32> = Graph::new();
    g.add_vertex('a');
    g.add_vertex('b');
    let mut it = g.vertices();
    g.add_vertex('c');
    assert_eq!(it.next().map(|h| h.index()), Some(0));
    assert_eq!(it.next().map(|h| h.index()), Some(1));
    assert!(it.next().is_none());
    assert_eq!(indices(&handles(&g)), vec![0, 1, 2]);
}

#[test]
fn edge_handle_reads_weight() {
    let mut g: Graph<char, u32> = Graph::new();
    let a = g.add_vertex('a');
    let b = g.add_vertex('b');
    let e = g.add_edge(&a, &b, 42).unwrap();
    assert_eq!(g.edge_weight(&e), Ok(&42));
    assert_eq!(g.replace_edge(&b, &a, 43), Ok(Some(42)));
    assert_eq!(g.edge_weight(&e), Ok(&43));
    let other: Graph<char, u32> = Graph::new();
    assert_eq!(other.edge_weight(&e), Err(GraphError::InvalidHandle));
}

#[test]
fn bulk_construction_uses_last_equal_vertex() {
    let mut g: Graph<char, u32> = Graph::new();
    let x0 = g.add_vertex('x');
    let x1 = g.add_vertex('x');
    let created = g.extend_with_edges(&vec![('x', 'y')]);
    assert_eq!(indices(&created), vec![2]);
    let y = created[0];
    assert_eq!(g.adjacent(&x1, &y), Ok(true));
    assert_eq!(g.adjacent(&x0, &y), Ok(false));
    assert_eq!(g.num_components(), 2);
}
