use flood_graph::graph::{Graph, GraphError};

fn path_description() -> (Vec<Vec<usize>>, Vec<usize>) {
    (vec![vec![1], vec![0, 2], vec![1]], vec![0, 1, 0])
}

#[test]
fn builds_a_three_node_path() {
    let (nbs, cols) = path_description();
    let g = Graph::new(nbs, cols).unwrap();
    assert_eq!(g.node_count(), 3);
    assert_eq!(g.color_count(), 2);

    let n1 = g.neighbours_of(1);
    assert!(n1.contains(0) && n1.contains(2));
    assert_eq!(n1.count_ones(), 2);

    let c0 = g.nodes_of_color(0);
    assert!(c0.contains(0) && c0.contains(2));
    assert_eq!(c0.count_ones(), 2);
    let c1 = g.nodes_of_color(1);
    assert!(c1.contains(1));
    assert_eq!(c1.count_ones(), 1);
}

#[test]
fn color_count_is_one_past_the_largest_id() {
    let g = Graph::new(vec![vec![], vec![]], vec![0, 5]).unwrap();
    assert_eq!(g.color_count(), 6);
    assert_eq!(g.nodes_of_color(3).count_ones(), 0);
}

#[test]
fn empty_description_builds_an_empty_graph() {
    let g = Graph::new(vec![], vec![]).unwrap();
    assert_eq!(g.node_count(), 0);
    assert_eq!(g.color_count(), 0);
}

#[test]
fn rejects_mismatched_lengths() {
    let r = Graph::new(vec![vec![]], vec![0, 0]);
    assert!(matches!(r, Err(GraphError::LengthMismatch)));
}

#[test]
fn rejects_too_many_nodes() {
    let n = 193;
    let nbs: Vec<Vec<usize>> = (0..n).map(|_| vec![]).collect();
    let cols: Vec<usize> = (0..n).map(|_| 0).collect();
    let r = Graph::new(nbs, cols);
    assert!(matches!(r, Err(GraphError::TooManyNodes)));
}

#[test]
fn rejects_color_id_at_capacity() {
    let r = Graph::new(vec![vec![]], vec![192]);
    assert!(matches!(r, Err(GraphError::ColorOutOfRange)));
}

#[test]
fn rejects_neighbour_out_of_range() {
    let r = Graph::new(vec![vec![1]], vec![0]);
    assert!(matches!(r, Err(GraphError::NeighbourOutOfRange)));
}

#[test]
fn construction_is_idempotent() {
    let (nbs, cols) = path_description();
    let g1 = Graph::new(nbs.clone(), cols.clone()).unwrap();
    let g2 = Graph::new(nbs, cols).unwrap();
    assert_eq!(g1.node_count(), g2.node_count());
    assert_eq!(g1.color_count(), g2.color_count());
    for node in 0..g1.node_count() {
        let a = g1.neighbours_of(node);
        let b = g2.neighbours_of(node);
        for offset in 0..192 {
            assert_eq!(a.contains(offset), b.contains(offset));
        }
    }
    for color in 0..g1.color_count() {
        let a = g1.nodes_of_color(color);
        let b = g2.nodes_of_color(color);
        for offset in 0..192 {
            assert_eq!(a.contains(offset), b.contains(offset));
        }
    }
}
