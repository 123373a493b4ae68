use flood_graph::graph::Graph;
use flood_graph::parse::{parse_puzzle, ParseError};
use flood_graph::solver::GraphSinglePlayerSolver;

#[test]
fn parses_and_solves_a_whole_description() {
    let text = r#"{"start": 0, "neighbours": [[1], [0, 2], [1]], "colors": [0, 1, 0]}"#;
    let input = parse_puzzle(text).unwrap();
    assert_eq!(input.start, 0);
    assert_eq!(input.neighbours, vec![vec![1], vec![0, 2], vec![1]]);
    assert_eq!(input.colors, vec![0, 1, 0]);
    let graph = Graph::new(input.neighbours, input.colors).unwrap();
    assert!(input.start < graph.node_count());
    let mut solver = GraphSinglePlayerSolver::new(graph, input.start);
    let solution = solver.solve().unwrap();
    assert_eq!(solution.moves.len(), 2);
}

#[test]
fn rejects_text_that_is_no_json() {
    assert!(matches!(parse_puzzle("not json"), Err(ParseError::InvalidJson)));
}

#[test]
fn rejects_a_missing_start_key() {
    let text = r#"{"neighbours": [[]], "colors": [0]}"#;
    assert!(matches!(parse_puzzle(text), Err(ParseError::MissingStart)));
}

#[test]
fn rejects_a_negative_start() {
    let text = r#"{"start": -1, "neighbours": [[]], "colors": [0]}"#;
    assert!(matches!(parse_puzzle(text), Err(ParseError::InvalidStart)));
}

#[test]
fn rejects_a_missing_neighbours_key() {
    let text = r#"{"start": 0, "colors": [0]}"#;
    assert!(matches!(parse_puzzle(text), Err(ParseError::MissingNeighbours)));
}

#[test]
fn rejects_neighbours_that_are_no_lists() {
    let text = r#"{"start": 0, "neighbours": [3], "colors": [0]}"#;
    assert!(matches!(parse_puzzle(text), Err(ParseError::InvalidNeighbours)));
}

#[test]
fn rejects_a_fractional_neighbour_id() {
    let text = r#"{"start": 0, "neighbours": [[0.5]], "colors": [0]}"#;
    assert!(matches!(parse_puzzle(text), Err(ParseError::InvalidNeighbours)));
}

#[test]
fn rejects_a_missing_colors_key() {
    let text = r#"{"start": 0, "neighbours": [[]]}"#;
    assert!(matches!(parse_puzzle(text), Err(ParseError::MissingColors)));
}

#[test]
fn rejects_colors_that_are_no_integers() {
    let text = r#"{"start": 0, "neighbours": [[]], "colors": ["red"]}"#;
    assert!(matches!(parse_puzzle(text), Err(ParseError::InvalidColors)));
}

#[test]
fn rejects_a_non_object_document() {
    assert!(matches!(parse_puzzle("[1, 2, 3]"), Err(ParseError::MissingStart)));
}
