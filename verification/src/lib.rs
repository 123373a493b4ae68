//! An exact solver for the single-player flood-fill puzzle on a graph.
//!
//! A puzzle is a graph whose nodes carry colors, plus a start node. A move
//! picks a color and absorbs into the flooded region every node of that
//! color adjacent to it. The solver finds a shortest sequence of colors
//! that floods every node, by iterative-deepening branch-and-bound over
//! bit-set representations of node sets.

pub mod bitset;
pub mod flood;
pub mod graph;
pub mod parse;
pub mod solver;
