use flood_graph::bitset::BitSet;
use flood_graph::graph::Graph;
use flood_graph::solver::{GraphSinglePlayerSolver, SolveError};

fn solver_for(neighbours: Vec<Vec<usize>>, colors: Vec<usize>, start: usize) -> GraphSinglePlayerSolver {
    let graph = Graph::new(neighbours, colors).unwrap();
    assert!(start < graph.node_count());
    GraphSinglePlayerSolver::new(graph, start)
}

fn start_set(start: usize) -> BitSet {
    let mut b = BitSet::new();
    b.set(start);
    b
}

/// Replays a move sequence with the solver's own flooding rule and returns
/// the final region.
fn replay(solver: &GraphSinglePlayerSolver, start: usize, moves: &[usize]) -> BitSet {
    let mut flooded = start_set(start);
    for &mov in moves {
        let newly = solver.get_newly_flooded(&flooded, mov);
        flooded = flooded.union(&newly);
    }
    flooded
}

fn assert_no_adjacent_repeats(moves: &[usize]) {
    for w in moves.windows(2) {
        assert_ne!(w[0], w[1]);
    }
}

#[test]
fn three_node_path_takes_two_moves() {
    let mut solver = solver_for(vec![vec![1], vec![0, 2], vec![1]], vec![0, 1, 0], 0);
    let solution = solver.solve().unwrap();
    assert_eq!(solution.moves.len(), 2);
    assert_no_adjacent_repeats(&solution.moves);
    let flooded = replay(&solver, 0, &solution.moves);
    assert_eq!(flooded.count_ones(), 3);
}

#[test]
fn three_node_path_has_no_shorter_solution() {
    let solver = solver_for(vec![vec![1], vec![0, 2], vec![1]], vec![0, 1, 0], 0);
    assert!(replay(&solver, 0, &[]).count_ones() < 3);
    for c in 0..2 {
        assert!(replay(&solver, 0, &[c]).count_ones() < 3);
    }
}

#[test]
fn single_node_needs_no_moves() {
    let mut solver = solver_for(vec![vec![]], vec![7], 0);
    let solution = solver.solve().unwrap();
    assert_eq!(solution.moves.len(), 0);
}

#[test]
fn unreachable_node_is_reported_as_an_error() {
    let mut solver = solver_for(vec![vec![], vec![]], vec![0, 1], 0);
    let r = solver.solve();
    assert!(matches!(r, Err(SolveError::NoSolution)));
}

#[test]
fn same_colored_neighbours_defeat_the_repeat_rule() {
    // chain 0-1-2 where nodes 1 and 2 share a color: not a region graph, so
    // absorbing node 2 would need the same color twice in a row, which the
    // search never plays
    let mut solver = solver_for(vec![vec![1], vec![0, 2], vec![1]], vec![0, 1, 1], 0);
    assert!(matches!(solver.solve(), Err(SolveError::NoSolution)));
}

#[test]
fn four_node_cycle_takes_two_moves() {
    // cycle 0-1-2-3-0, alternating colors
    let neighbours = vec![vec![1, 3], vec![0, 2], vec![1, 3], vec![0, 2]];
    let mut solver = solver_for(neighbours, vec![0, 1, 0, 1], 0);
    let solution = solver.solve().unwrap();
    assert_eq!(solution.moves.len(), 2);
    assert_no_adjacent_repeats(&solution.moves);
    let flooded = replay(&solver, 0, &solution.moves);
    assert_eq!(flooded.count_ones(), 4);
    // optimality: no sequence of length 0 or 1 floods the cycle
    assert!(replay(&solver, 0, &[]).count_ones() < 4);
    for c in 0..2 {
        assert!(replay(&solver, 0, &[c]).count_ones() < 4);
    }
}

#[test]
fn longer_path_solution_is_optimal_and_repeat_free() {
    // path 0-1-2-3-4-5 with colors 0,1,2,0,1,2
    let neighbours = vec![
        vec![1],
        vec![0, 2],
        vec![1, 3],
        vec![2, 4],
        vec![3, 5],
        vec![4],
    ];
    let mut solver = solver_for(neighbours, vec![0, 1, 2, 0, 1, 2], 0);
    let solution = solver.solve().unwrap();
    assert_eq!(solution.moves.len(), 5);
    assert_no_adjacent_repeats(&solution.moves);
    let flooded = replay(&solver, 0, &solution.moves);
    assert_eq!(flooded.count_ones(), 6);
    // every shorter sequence without adjacent repeats fails: the lower bound
    // alone shows at least one move per waiting layer; spot-check depth 4
    for a in 0..3 {
        for b in 0..3 {
            for c in 0..3 {
                for d in 0..3 {
                    assert!(replay(&solver, 0, &[a, b, c, d]).count_ones() < 6);
                }
            }
        }
    }
}

#[test]
fn newly_flooded_matches_the_rule() {
    let solver = solver_for(vec![vec![1], vec![0, 2], vec![1]], vec![0, 1, 0], 0);
    let flooded = start_set(0);
    // color 1: node 1 is unflooded and adjacent to the region
    let newly1 = solver.get_newly_flooded(&flooded, 1);
    assert_eq!(newly1.count_ones(), 1);
    assert!(newly1.contains(1));
    // color 0: node 2 is unflooded but only adjacent to unflooded node 1
    let newly0 = solver.get_newly_flooded(&flooded, 0);
    assert_eq!(newly0.count_ones(), 0);
}

#[test]
fn one_flooding_layer_is_a_fixpoint_on_a_proper_coloring() {
    let solver = solver_for(vec![vec![1], vec![0, 2], vec![1]], vec![0, 1, 0], 0);
    let after_one = replay(&solver, 0, &[1, 0]);
    assert_eq!(after_one.count_ones(), 3);
    // flooding color 0 again absorbs nothing: the layer was already complete
    let again = solver.get_newly_flooded(&after_one, 0);
    assert!(!again.any());
}

#[test]
fn count_unflooded_colors_counts_waiting_classes() {
    let solver = solver_for(vec![vec![1], vec![0, 2], vec![1]], vec![0, 1, 0], 0);
    let flooded = start_set(0);
    // node 2 (color 0) and node 1 (color 1) both wait
    assert_eq!(solver.count_unflooded_colors(&flooded), 2);
    let mid = replay(&solver, 0, &[1]);
    assert_eq!(solver.count_unflooded_colors(&mid), 1);
    let done = replay(&solver, 0, &[1, 0]);
    assert_eq!(solver.count_unflooded_colors(&done), 0);
}

#[test]
fn attempts_counter_resets_per_solve() {
    let mut solver = solver_for(vec![vec![1], vec![0, 2], vec![1]], vec![0, 1, 0], 0);
    solver.solve().unwrap();
    let first = solver.attempts();
    solver.solve().unwrap();
    assert_eq!(solver.attempts(), first);
}
