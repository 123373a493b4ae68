use vstd::prelude::*;
use crate::bitset::{BitSet, CAPACITY, bits_difference, bits_intersection, lemma_count_trues_zero,
    lemma_count_trues_full};
use crate::graph::Graph;
use crate::flood::{flooded_wf, newly_flooded_bits, flood_step, apply_moves, is_full, no_repeats,
    start_bits, class_has_unflooded, count_unflooded_spec, touches_flooded, lemma_flood_step_wf,
    no_extension_completes, proper_coloring, lemma_lower_bound_admissible, lemma_normalized_moves,
    normalized_moves, lemma_step_identity, lemma_step_out_of_range, lemma_saturated_after,
    lemma_apply_moves_snoc, lemma_cover_within_node_count};

verus! {

broadcast use crate::bitset::lemma_bitset_view_len;

/// Why a solve run failed.
#[derive(Clone, Copy, Debug, PartialEq, Eq, Structural)]
pub enum SolveError {
    /// The search exhausted the safe initial bound without covering every
    /// node: some node cannot be absorbed by flood expansion from the start.
    NoSolution,
}

/// An ordered sequence of color choices that completes the flood.
#[derive(Debug)]
pub struct Solution {
    /// The color of each move, in play order.
    pub moves: Vec<usize>,
}

/// Iterative-deepening branch-and-bound solver for one puzzle.
pub struct GraphSinglePlayerSolver {
    graph: Graph,
    start_node_id: usize,
    max_moves: usize,
    attempts: usize,
    moves: Vec<usize>,
}

/// A candidate move is a color in range that does not repeat the color of
/// the move on top of the stack.
pub open spec fn candidate_ok(g: Graph, moves: Seq<usize>, mov: usize) -> bool {
    &&& (mov as int) < g.color_count_spec()
    &&& moves.len() > 0 ==> mov != moves[moves.len() - 1]
}

/// Copies a move stack into a fresh vector.
fn copy_moves(v: &Vec<usize>) -> (r: Vec<usize>)
    ensures
        r@ == v@,
{
    let mut r: Vec<usize> = Vec::new();
    let mut i: usize = 0;
    while i < v.len()
        invariant
            i <= v@.len(),
            r@.len() == i,
            forall|k: int| 0 <= k < i ==> r@[k] == v@[k],
        decreases v@.len() - i,
    {
        r.push(v[i]);
        i += 1;
    }
    proof {
        assert(r@ =~= v@);
    }
    r
}

/// Orders candidate `(color, heuristic)` pairs by descending heuristic:
/// greedy best-first, a reordering that keeps exactly the input pairs.
fn sort_move_tuples(v: &mut Vec<(usize, usize)>)
    ensures
        final(v)@.len() == old(v)@.len(),
        forall|k: int| 0 <= k < final(v)@.len() ==> old(v)@.contains(#[trigger] final(v)@[k]),
        forall|k: int| 0 <= k < old(v)@.len() ==> final(v)@.contains(#[trigger] old(v)@[k]),
        forall|k1: int, k2: int| 0 <= k1 < k2 < final(v)@.len()
            ==> (#[trigger] final(v)@[k1]).1 >= (#[trigger] final(v)@[k2]).1,
{
    let mut i: usize = 1;
    while i < v.len()
        invariant
            v@.len() == old(v)@.len(),
            forall|k: int| 0 <= k < v@.len() ==> old(v)@.contains(#[trigger] v@[k]),
            forall|k: int| 0 <= k < old(v)@.len() ==> v@.contains(#[trigger] old(v)@[k]),
            forall|k1: int, k2: int| 0 <= k1 < k2 < i && k2 < v@.len()
                ==> (#[trigger] v@[k1]).1 >= (#[trigger] v@[k2]).1,
        decreases v@.len() - i,
    {
        let mut j: usize = i;
        while j > 0 && v[j - 1].1 < v[j].1
            invariant
                j <= i,
                i < v@.len(),
                v@.len() == old(v)@.len(),
                forall|k: int| 0 <= k < v@.len() ==> old(v)@.contains(#[trigger] v@[k]),
                forall|k: int| 0 <= k < old(v)@.len() ==> v@.contains(#[trigger] old(v)@[k]),
                forall|k1: int, k2: int| 0 <= k1 < k2 <= i && k1 != j && k2 != j
                    ==> (#[trigger] v@[k1]).1 >= (#[trigger] v@[k2]).1,
                forall|k: int| j < k <= i ==> (#[trigger] v@[k]).1 <= v@[j as int].1,
            decreases j,
        {
            let a = v[j - 1];
            let b = v[j];
            let ghost prev = v@;
            v.set(j - 1, b);
            v.set(j, a);
            proof {
                assert forall|k: int| 0 <= k < v@.len() implies
                    old(v)@.contains(#[trigger] v@[k]) by {
                    if k == j - 1 {
                        assert(v@[k] == prev[j as int]);
                    } else if k == j {
                        assert(v@[k] == prev[j - 1]);
                    } else {
                        assert(v@[k] == prev[k]);
                    }
                }
                assert forall|k: int| 0 <= k < old(v)@.len() implies
                    v@.contains(#[trigger] old(v)@[k]) by {
                    let idx = choose|idx: int| 0 <= idx < prev.len() && prev[idx] == old(v)@[k];
                    if idx == j - 1 {
                        assert(v@[j as int] == old(v)@[k]);
                    } else if idx == j {
                        assert(v@[j - 1] == old(v)@[k]);
                    } else {
                        assert(v@[idx] == old(v)@[k]);
                    }
                }
                assert forall|k1: int, k2: int| 0 <= k1 < k2 <= i && k1 != j - 1 && k2 != j - 1
                    implies (#[trigger] v@[k1]).1 >= (#[trigger] v@[k2]).1 by {
                    if k2 == j {
                        assert(v@[k2] == prev[j - 1]);
                        assert(prev[k1].1 >= prev[j - 1].1);
                    } else if k1 == j {
                        assert(v@[k1] == prev[j - 1]);
                        assert(prev[j - 1].1 >= prev[k2].1);
                    } else {
                        assert(v@[k1] == prev[k1] && v@[k2] == prev[k2]);
                    }
                }
                assert forall|k: int| j - 1 < k <= i implies
                    (#[trigger] v@[k]).1 <= v@[j - 1].1 by {
                    assert(v@[j - 1] == prev[j as int]);
                    if k == j {
                        assert(v@[k] == prev[j - 1]);
                    } else {
                        assert(v@[k] == prev[k]);
                        assert(prev[k].1 <= prev[j as int].1);
                    }
                }
            }
            j -= 1;
        }
        i += 1;
    }
}

impl GraphSinglePlayerSolver {
    /// The puzzle graph being solved.
    pub closed spec fn graph_spec(self) -> Graph {
        self.graph
    }

    /// The node the flood grows from.
    pub closed spec fn start_spec(self) -> int {
        self.start_node_id as int
    }

    /// The current bound on solution length.
    pub closed spec fn max_moves_spec(self) -> int {
        self.max_moves as int
    }

    /// The current move stack.
    pub closed spec fn moves_spec(self) -> Seq<usize> {
        self.moves@
    }

    /// Number of recursive search calls made so far.
    pub closed spec fn attempts_spec(self) -> int {
        self.attempts as int
    }

    /// The solver invariant: a well-formed graph, a real start node, and a
    /// move stack of in-range colors.
    pub open spec fn wf(self) -> bool {
        &&& self.graph_spec().wf()
        &&& 0 <= self.start_spec() < self.graph_spec().node_count_spec()
        &&& forall|i: int| 0 <= i < self.moves_spec().len()
            ==> (#[trigger] self.moves_spec()[i]) < self.graph_spec().color_count_spec()
    }

    /// A fresh solver for `graph`, flooding from `start_node_id`.
    pub fn new(graph: Graph, start_node_id: usize) -> (r: GraphSinglePlayerSolver)
        requires
            graph.wf(),
            start_node_id < graph.node_count_spec(),
        ensures
            r.wf(),
            r.graph_spec() == graph,
            r.start_spec() == start_node_id,
            r.moves_spec().len() == 0,
            r.attempts_spec() == 0,
            r.max_moves_spec() == 0,
    {
        GraphSinglePlayerSolver {
            graph,
            start_node_id,
            max_moves: 0,
            attempts: 0,
            moves: Vec::new(),
        }
    }

    /// Number of recursive search calls made so far, for progress reporting.
    pub fn attempts(&self) -> (r: usize)
        ensures
            r == self.attempts_spec(),
    {
        self.attempts
    }

    /// The nodes a move of color `mov` would newly absorb, given the
    /// current region `flooded`.
    pub fn get_newly_flooded(&self, flooded: &BitSet, mov: usize) -> (r: BitSet)
        requires
            self.wf(),
            flooded.wf(),
            flooded_wf(self.graph_spec(), flooded@),
            mov < self.graph_spec().color_count_spec(),
        ensures
            r.wf(),
            r@ == newly_flooded_bits(self.graph_spec(), flooded@, mov as int),
    {
        let ghost g = self.graph_spec();
        let ghost target = newly_flooded_bits(g, flooded@, mov as int);
        let unflooded_color_set = self.graph.nodes_of_color(mov).difference(flooded);
        let mut newly_flooded = BitSet::new();
        let mut it = unflooded_color_set.iter_ones();
        loop
            invariant
                self.wf(),
                flooded.wf(),
                flooded_wf(g, flooded@),
                g == self.graph_spec(),
                mov < g.color_count_spec(),
                target == newly_flooded_bits(g, flooded@, mov as int),
                unflooded_color_set.wf(),
                unflooded_color_set@ == bits_difference(g.cols()[mov as int], flooded@),
                it.wf(),
                0 <= it.pos_spec() <= CAPACITY,
                it.bits() == unflooded_color_set@,
                newly_flooded.wf(),
                forall|i: int| 0 <= i < it.pos_spec() ==> newly_flooded@[i] == target[i],
                forall|i: int| it.pos_spec() <= i < CAPACITY ==> !newly_flooded@[i],
            ensures
                newly_flooded.wf(),
                newly_flooded@ == target,
            decreases CAPACITY - it.pos_spec(),
        {
            let ghost pos0 = it.pos_spec();
            match it.next() {
                Some(node) => {
                    proof {
                        assert(unflooded_color_set@[node as int]);
                        assert(g.cols()[mov as int][node as int]);
                        assert(g.in_class(mov as int, node as int));
                        assert(node < g.node_count_spec());
                        assert forall|i: int| pos0 <= i < node implies !target[i] by {
                            assert(!unflooded_color_set@[i]);
                            assert(bits_difference(g.cols()[mov as int], flooded@)[i]
                                == (g.cols()[mov as int][i] && !flooded@[i]));
                        }
                    }
                    let neighbour_set = self.graph.neighbours_of(node);
                    let ghost nbits = g.nbrs()[node as int];
                    let inter = neighbour_set.intersection(flooded);
                    proof {
                        assert(inter@ == bits_intersection(nbits, flooded@));
                    }
                    let touch = inter.any();
                    let ghost prev = newly_flooded@;
                    if touch {
                        newly_flooded.set(node);
                    }
                    proof {
                        if touch {
                            let m = choose|m: int| 0 <= m < CAPACITY && #[trigger] inter@[m];
                            assert(nbits[m] && flooded@[m]);
                            assert(g.adj(node as int, m));
                            assert(touches_flooded(g, node as int, flooded@));
                            assert(target[node as int]);
                        } else {
                            if touches_flooded(g, node as int, flooded@) {
                                let m = choose|m: int| 0 <= m < CAPACITY
                                    && #[trigger] flooded@[m] && g.adj(node as int, m);
                                assert(nbits[m] && flooded@[m]);
                                assert(inter@[m]);
                            }
                            assert(!target[node as int]);
                        }
                        assert forall|i: int| 0 <= i < node + 1 implies
                            newly_flooded@[i] == target[i] by {
                            if i < node {
                                assert(newly_flooded@[i] == prev[i]);
                                if i < pos0 {
                                } else {
                                    assert(!target[i]);
                                }
                            }
                        }
                        assert forall|i: int| node + 1 <= i < CAPACITY implies
                            !newly_flooded@[i] by {
                            assert(newly_flooded@[i] == prev[i]);
                        }
                    }
                }
                None => {
                    proof {
                        assert forall|i: int| 0 <= i < CAPACITY implies
                            newly_flooded@[i] == target[i] by {
                            if pos0 <= i {
                                assert(!unflooded_color_set@[i]);
                                assert(!target[i]);
                            }
                        }
                        assert(newly_flooded@ =~= target);
                    }
                    break;
                }
            }
        }
        newly_flooded
    }

    /// How many color classes still have a node outside `flooded_bitset`.
    pub fn count_unflooded_colors(&self, flooded_bitset: &BitSet) -> (r: usize)
        requires
            self.wf(),
            flooded_bitset.wf(),
        ensures
            r == count_unflooded_spec(self.graph_spec(), flooded_bitset@,
                self.graph_spec().color_count_spec()),
    {
        let ghost g = self.graph_spec();
        let mut unflooded_colors: usize = 0;
        let mut color: usize = 0;
        let cc = self.graph.color_count();
        while color < cc
            invariant
                self.wf(),
                flooded_bitset.wf(),
                g == self.graph_spec(),
                cc == g.color_count_spec(),
                color <= cc,
                unflooded_colors <= color,
                unflooded_colors == count_unflooded_spec(g, flooded_bitset@, color as int),
            decreases cc - color,
        {
            let diff = self.graph.nodes_of_color(color).difference(flooded_bitset);
            let cnt = diff.count_ones();
            proof {
                lemma_count_trues_zero(diff@);
                if class_has_unflooded(g, flooded_bitset@, color as int) {
                    let n = choose|n: int| #[trigger] g.in_class(color as int, n)
                        && !flooded_bitset@[n];
                    assert(diff@[n]);
                }
                if cnt != 0 {
                    let n = choose|n: int| 0 <= n < diff@.len() && #[trigger] diff@[n];
                    assert(g.in_class(color as int, n) && !flooded_bitset@[n]);
                    assert(class_has_unflooded(g, flooded_bitset@, color as int));
                }
            }
            if cnt > 0 {
                unflooded_colors += 1;
            }
            color += 1;
        }
        unflooded_colors
    }

    /// Bounded depth-first search: tries to extend the current move stack to
    /// a covering sequence of length at most the current bound. On success
    /// the returned solution extends the stack it started from; on failure
    /// the stack is exactly restored.
    fn _solve(&mut self, flooded: &BitSet) -> (r: Option<Solution>)
        requires
            old(self).wf(),
            flooded.wf(),
            flooded_wf(old(self).graph_spec(), flooded@),
            old(self).moves_spec().len() <= old(self).max_moves_spec() + 1,
            no_repeats(old(self).moves_spec()),
        ensures
            final(self).wf(),
            final(self).graph_spec() == old(self).graph_spec(),
            final(self).start_spec() == old(self).start_spec(),
            final(self).max_moves_spec() == old(self).max_moves_spec(),
            final(self).attempts_spec() >= old(self).attempts_spec(),
            r is None ==> final(self).moves_spec() == old(self).moves_spec(),
            r matches Some(sol) ==> {
                &&& final(self).moves_spec().len() == 0
                &&& sol.moves@.len() <= old(self).max_moves_spec()
                &&& old(self).moves_spec().is_prefix_of(sol.moves@)
                &&& no_repeats(sol.moves@)
                &&& forall|i: int| 0 <= i < sol.moves@.len()
                    ==> (#[trigger] sol.moves@[i]) < old(self).graph_spec().color_count_spec()
                &&& is_full(old(self).graph_spec(), apply_moves(old(self).graph_spec(), flooded@,
                    sol.moves@.subrange(old(self).moves_spec().len() as int, sol.moves@.len() as int)))
            },
            (proper_coloring(old(self).graph_spec())
                && flooded@ == apply_moves(old(self).graph_spec(),
                    start_bits(old(self).start_spec()), old(self).moves_spec())
                && r is None)
                ==> no_extension_completes(old(self).graph_spec(), flooded@,
                    old(self).moves_spec().len() as int, old(self).max_moves_spec()),
        decreases old(self).max_moves_spec() + 1 - old(self).moves_spec().len(),
    {
        let ghost g = old(self).graph_spec();
        if self.moves.len() > self.max_moves {
            proof {
                assert forall|e: Seq<usize>|
                    old(self).moves_spec().len() + e.len() <= old(self).max_moves_spec()
                    implies !is_full(g, apply_moves(g, flooded@, e)) by {
                    assert(false);
                }
            }
            return None;
        }

        if self.count_unflooded_colors(flooded) > self.max_moves - self.moves.len() {
            proof {
                assert forall|e: Seq<usize>|
                    old(self).moves_spec().len() + e.len() <= old(self).max_moves_spec()
                    implies !is_full(g, apply_moves(g, flooded@, e)) by {
                    if is_full(g, apply_moves(g, flooded@, e)) {
                        lemma_lower_bound_admissible(g, flooded@, e);
                    }
                }
            }
            return None;
        }

        if flooded.count_ones() == self.graph.node_count() {
            proof {
                lemma_count_trues_full(flooded@, g.node_count_spec());
            }
            let solution_moves = copy_moves(&self.moves);
            self.moves.clear();
            let solution = Solution { moves: solution_moves };
            proof {
                let suffix = solution.moves@.subrange(old(self).moves_spec().len() as int,
                    solution.moves@.len() as int);
                assert(suffix =~= Seq::<usize>::empty());
                assert(old(self).moves_spec().is_prefix_of(solution.moves@)) by {
                    assert(solution.moves@.subrange(0, solution.moves@.len() as int)
                        =~= solution.moves@);
                }
            }
            return Some(solution);
        }

        if self.attempts < usize::MAX {
            self.attempts = self.attempts + 1;
        }

        let cc = self.graph.color_count();
        let mut valid_moves = BitSet::new();
        let mut c: usize = 0;
        while c < cc
            invariant
                c <= cc,
                cc <= CAPACITY,
                valid_moves.wf(),
                forall|j: int| 0 <= j < CAPACITY ==> (valid_moves@[j] <==> j < c),
            decreases cc - c,
        {
            let ghost prev = valid_moves@;
            valid_moves.set(c);
            proof {
                assert forall|j: int| 0 <= j < CAPACITY implies
                    (valid_moves@[j] <==> j < c + 1) by {
                    if j != c {
                        assert(valid_moves@[j] == prev[j]);
                    }
                }
            }
            c += 1;
        }
        if self.moves.len() > 0 {
            let last_move = self.moves[self.moves.len() - 1];
            valid_moves.reset(last_move);
        }
        proof {
            assert forall|j: int| 0 <= j < CAPACITY implies
                (valid_moves@[j] <==> j < cc && candidate_ok(g, self.moves_spec(), j as usize)) by {}
        }

        let mut move_tuples: Vec<(usize, usize)> = Vec::new();
        let mut mov: usize = 0;
        while mov < cc
            invariant
                self.wf(),
                g == self.graph_spec(),
                self.moves_spec() == old(self).moves_spec(),
                flooded.wf(),
                flooded_wf(g, flooded@),
                cc == g.color_count_spec(),
                mov <= cc,
                valid_moves.wf(),
                forall|j: int| 0 <= j < CAPACITY
                    ==> (valid_moves@[j] <==> j < cc && candidate_ok(g, self.moves_spec(), j as usize)),
                forall|k: int| 0 <= k < move_tuples@.len()
                    ==> candidate_ok(g, self.moves_spec(), (#[trigger] move_tuples@[k]).0),
                forall|m2: usize| #![trigger flood_step(g, flooded@, m2 as int)]
                    m2 < mov && candidate_ok(g, self.moves_spec(), m2)
                        && flood_step(g, flooded@, m2 as int) != flooded@
                    ==> exists|k: int| 0 <= k < move_tuples@.len()
                        && (#[trigger] move_tuples@[k]).0 == m2,
            decreases cc - mov,
        {
            let ghost tuples_before = move_tuples@;
            let mut productive = false;
            if valid_moves.contains(mov) {
                let newly_flooded = self.get_newly_flooded(flooded, mov);
                let heuristic = newly_flooded.count_ones();
                if newly_flooded.any() {
                    move_tuples.push((mov, heuristic));
                    productive = true;
                }
            }
            proof {
                lemma_step_identity(g, flooded@, mov as int);
                assert forall|m2: usize| #![trigger flood_step(g, flooded@, m2 as int)]
                    m2 < mov + 1 && candidate_ok(g, self.moves_spec(), m2)
                        && flood_step(g, flooded@, m2 as int) != flooded@
                    implies exists|k: int| 0 <= k < move_tuples@.len()
                        && (#[trigger] move_tuples@[k]).0 == m2 by {
                    if m2 == mov {
                        assert(valid_moves@[mov as int]);
                        assert(productive);
                        assert(move_tuples@[move_tuples@.len() - 1].0 == m2);
                    } else {
                        let k = choose|k: int| 0 <= k < tuples_before.len()
                            && (#[trigger] tuples_before[k]).0 == m2;
                        assert(move_tuples@[k].0 == m2);
                    }
                }
            }
            mov += 1;
        }

        let ghost presort = move_tuples@;
        sort_move_tuples(&mut move_tuples);

        let ghost tuples0 = move_tuples@;
        proof {
            assert forall|m2: usize| #![trigger flood_step(g, flooded@, m2 as int)]
                candidate_ok(g, old(self).moves_spec(), m2)
                    && flood_step(g, flooded@, m2 as int) != flooded@
                implies exists|k: int| 0 <= k < tuples0.len()
                    && (#[trigger] tuples0[k]).0 == m2 by {
                assert((m2 as int) < cc);
                let k = choose|k: int| 0 <= k < presort.len() && (#[trigger] presort[k]).0 == m2;
                assert(tuples0.contains(presort[k]));
                let k2 = choose|k2: int| 0 <= k2 < tuples0.len() && tuples0[k2] == presort[k];
                assert(tuples0[k2].0 == m2);
            }
        }
        let mut t: usize = 0;
        while t < move_tuples.len()
            invariant
                self.wf(),
                g == old(self).graph_spec(),
                self.graph_spec() == g,
                self.start_spec() == old(self).start_spec(),
                self.max_moves_spec() == old(self).max_moves_spec(),
                self.moves_spec() == old(self).moves_spec(),
                self.attempts_spec() >= old(self).attempts_spec(),
                old(self).moves_spec().len() <= old(self).max_moves_spec(),
                no_repeats(old(self).moves_spec()),
                flooded.wf(),
                flooded_wf(g, flooded@),
                move_tuples@ == tuples0,
                forall|k: int| 0 <= k < move_tuples@.len()
                    ==> candidate_ok(g, old(self).moves_spec(), (#[trigger] move_tuples@[k]).0),
                t <= move_tuples@.len(),
                cc == g.color_count_spec(),
                forall|m2: usize| #![trigger flood_step(g, flooded@, m2 as int)]
                    candidate_ok(g, old(self).moves_spec(), m2)
                        && flood_step(g, flooded@, m2 as int) != flooded@
                    ==> exists|k: int| 0 <= k < tuples0.len()
                        && (#[trigger] tuples0[k]).0 == m2,
                (proper_coloring(g) && flooded@ == apply_moves(g,
                    start_bits(old(self).start_spec()), old(self).moves_spec()))
                    ==> forall|k: int| 0 <= k < t
                        ==> no_extension_completes(g,
                            flood_step(g, flooded@, ((#[trigger] tuples0[k]).0) as int),
                            old(self).moves_spec().len() as int + 1, old(self).max_moves_spec()),
            decreases move_tuples@.len() - t,
        {
            let mv = move_tuples[t].0;
            let newly_flooded = self.get_newly_flooded(flooded, mv);
            let child_flooded = flooded.union(&newly_flooded);
            proof {
                assert(child_flooded@ =~= flood_step(g, flooded@, mv as int));
                lemma_flood_step_wf(g, flooded@, mv as int);
            }
            let ghost moves0 = self.moves_spec();
            self.moves.push(mv);
            proof {
                assert(self.moves_spec() =~= moves0.push(mv));
                assert forall|i: int| 0 <= i < self.moves_spec().len() - 1 implies
                    (#[trigger] self.moves_spec()[i]) != self.moves_spec()[i + 1] by {
                    if i < moves0.len() - 1 {
                        assert(moves0[i] != moves0[i + 1]);
                    } else {
                        assert(self.moves_spec()[i] == moves0[moves0.len() - 1]);
                        assert(self.moves_spec()[i + 1] == mv);
                    }
                }
            }
            let result = self._solve(&child_flooded);
            match result {
                Some(solution) => {
                    proof {
                        let l = solution.moves@.len() as int;
                        let n0 = moves0.len() as int;
                        assert(moves0.push(mv).is_prefix_of(solution.moves@));
                        assert(moves0.push(mv) =~= solution.moves@.subrange(0, n0 + 1));
                        assert forall|i: int| 0 <= i < n0 implies
                            moves0[i] == solution.moves@[i] by {
                            assert(moves0.push(mv)[i] == solution.moves@.subrange(0, n0 + 1)[i]);
                        }
                        assert(moves0 =~= solution.moves@.subrange(0, n0));
                        assert(moves0.is_prefix_of(solution.moves@));
                        let suffix = solution.moves@.subrange(n0, l);
                        let child_suffix = solution.moves@.subrange(n0 + 1, l);
                        assert(suffix.len() >= 1);
                        assert(suffix[0] == solution.moves@[n0]);
                        assert(solution.moves@[n0] == moves0.push(mv)[n0]);
                        assert(suffix[0] == mv);
                        assert(suffix.subrange(1, suffix.len() as int) =~= child_suffix);
                        assert(apply_moves(g, flooded@, suffix)
                            == apply_moves(g, flood_step(g, flooded@, mv as int), child_suffix));
                        assert(is_full(g, apply_moves(g, flooded@, suffix)));
                    }
                    return Some(solution);
                }
                None => {
                    self.moves.pop();
                    proof {
                        assert(self.moves_spec() =~= moves0);
                        if proper_coloring(g) && flooded@ == apply_moves(g,
                            start_bits(old(self).start_spec()), old(self).moves_spec()) {
                            lemma_apply_moves_snoc(g, start_bits(old(self).start_spec()),
                                moves0, mv);
                            assert(child_flooded@ == apply_moves(g,
                                start_bits(old(self).start_spec()), moves0.push(mv)));
                            assert(no_extension_completes(g, child_flooded@,
                                moves0.len() as int + 1, old(self).max_moves_spec()));
                            assert(tuples0[t as int].0 == mv);
                            assert(child_flooded@ == flood_step(g, flooded@, mv as int));
                        }
                    }
                }
            }
            t += 1;
        }

        proof {
            if proper_coloring(g) && flooded@ == apply_moves(g,
                start_bits(old(self).start_spec()), old(self).moves_spec()) {
                let used = old(self).moves_spec().len() as int;
                let bound = old(self).max_moves_spec();
                lemma_count_trues_full(flooded@, g.node_count_spec());
                assert forall|e: Seq<usize>| used + e.len() <= bound
                    implies !is_full(g, #[trigger] apply_moves(g, flooded@, e)) by {
                    if is_full(g, apply_moves(g, flooded@, e)) {
                        lemma_normalized_moves(g, flooded@, e);
                        let nm = normalized_moves(g, flooded@, e);
                        if nm.len() == 0 {
                            assert(is_full(g, flooded@));
                            assert(false);
                        } else {
                            let c = nm[0];
                            assert(flood_step(g, flooded@, c as int) != flooded@);
                            if c >= cc {
                                lemma_step_out_of_range(g, flooded@, c as int);
                            }
                            assert((c as int) < g.color_count_spec());
                            if old(self).moves_spec().len() > 0 {
                                let last = old(self).moves_spec()[old(self).moves_spec().len() - 1];
                                if c == last {
                                    lemma_saturated_after(g, start_bits(old(self).start_spec()),
                                        old(self).moves_spec());
                                    assert(flood_step(g, flooded@, c as int) == flooded@);
                                }
                                assert(c != last);
                            }
                            assert(candidate_ok(g, old(self).moves_spec(), c));
                            let k = choose|k: int| 0 <= k < tuples0.len()
                                && (#[trigger] tuples0[k]).0 == c;
                            let e2 = nm.subrange(1, nm.len() as int);
                            assert(apply_moves(g, flooded@, nm)
                                == apply_moves(g, flood_step(g, flooded@, nm[0] as int), e2));
                            assert(no_extension_completes(g,
                                flood_step(g, flooded@, c as int), used + 1, bound));
                            assert(used + 1 + e2.len() <= bound);
                            assert(!is_full(g,
                                apply_moves(g, flood_step(g, flooded@, c as int), e2)));
                            assert(false);
                        }
                    }
                }
            }
        }
        None
    }

    /// Iterative deepening: starts from the safe bound of one move per node,
    /// repeatedly demands a strictly shorter solution, and returns the last
    /// one found once no shorter one exists. The result floods every node
    /// and never repeats a color twice in a row; on a properly colored
    /// graph it is optimal: no strictly shorter sequence floods every node,
    /// and an error means no sequence at all does, so some node is
    /// unreachable from the start by flood expansion.
    pub fn solve(&mut self) -> (r: Result<Solution, SolveError>)
        requires
            old(self).wf(),
        ensures
            final(self).wf(),
            final(self).graph_spec() == old(self).graph_spec(),
            final(self).start_spec() == old(self).start_spec(),
            final(self).moves_spec().len() == 0,
            r matches Ok(sol) ==> {
                &&& is_full(old(self).graph_spec(), apply_moves(old(self).graph_spec(),
                    start_bits(old(self).start_spec()), sol.moves@))
                &&& no_repeats(sol.moves@)
                &&& sol.moves@.len() <= old(self).graph_spec().node_count_spec()
                &&& forall|i: int| 0 <= i < sol.moves@.len()
                    ==> (#[trigger] sol.moves@[i]) < old(self).graph_spec().color_count_spec()
            },
            r matches Ok(sol) ==> (proper_coloring(old(self).graph_spec())
                ==> forall|e: Seq<usize>| e.len() < sol.moves@.len()
                    ==> !is_full(old(self).graph_spec(), #[trigger] apply_moves(
                        old(self).graph_spec(), start_bits(old(self).start_spec()), e))),
            r is Err ==> (proper_coloring(old(self).graph_spec())
                ==> forall|e: Seq<usize>|
                    !is_full(old(self).graph_spec(), #[trigger] apply_moves(
                        old(self).graph_spec(), start_bits(old(self).start_spec()), e))),
    {
        let ghost g = old(self).graph_spec();
        self.attempts = 0;
        self.moves.clear();
        let mut best_solution: Option<Solution> = None;
        let n = self.graph.node_count();
        self.max_moves = n;

        loop
            invariant_except_break
                best_solution is None ==> self.max_moves_spec() == g.node_count_spec(),
                best_solution matches Some(sol)
                    ==> sol.moves@.len() == self.max_moves_spec() + 1,
            invariant
                self.wf(),
                self.graph_spec() == g,
                g == old(self).graph_spec(),
                self.start_spec() == old(self).start_spec(),
                self.max_moves_spec() <= g.node_count_spec(),
                self.moves_spec().len() == 0,
                best_solution matches Some(sol) ==> {
                    &&& is_full(g, apply_moves(g, start_bits(self.start_spec()), sol.moves@))
                    &&& no_repeats(sol.moves@)
                    &&& sol.moves@.len() <= g.node_count_spec()
                    &&& forall|i: int| 0 <= i < sol.moves@.len()
                        ==> (#[trigger] sol.moves@[i]) < g.color_count_spec()
                },
            ensures
                self.wf(),
                self.graph_spec() == g,
                self.start_spec() == old(self).start_spec(),
                self.moves_spec().len() == 0,
                best_solution matches Some(sol) ==> {
                    &&& is_full(g, apply_moves(g, start_bits(self.start_spec()), sol.moves@))
                    &&& no_repeats(sol.moves@)
                    &&& sol.moves@.len() <= g.node_count_spec()
                    &&& forall|i: int| 0 <= i < sol.moves@.len()
                        ==> (#[trigger] sol.moves@[i]) < g.color_count_spec()
                },
                best_solution matches Some(sol) ==> (proper_coloring(g)
                    ==> forall|e: Seq<usize>| e.len() < sol.moves@.len()
                        ==> !is_full(g, #[trigger] apply_moves(g,
                            start_bits(old(self).start_spec()), e))),
                best_solution is None ==> (proper_coloring(g)
                    ==> forall|e: Seq<usize>| e.len() <= g.node_count_spec()
                        ==> !is_full(g, #[trigger] apply_moves(g,
                            start_bits(old(self).start_spec()), e))),
            decreases self.max_moves_spec() + 1,
        {
            let mut initial_flooded = BitSet::new();
            initial_flooded.set(self.start_node_id);
            proof {
                assert(initial_flooded@ == start_bits(self.start_spec()));
                assert forall|i: int| 0 <= i < CAPACITY && #[trigger] initial_flooded@[i]
                    implies i < g.node_count_spec() by {
                    if i != self.start_spec() {
                        assert(!initial_flooded@[i]);
                    }
                }
            }
            match self._solve(&initial_flooded) {
                Some(solution) => {
                    proof {
                        assert(solution.moves@.subrange(0, solution.moves@.len() as int)
                            =~= solution.moves@);
                    }
                    let l = solution.moves.len();
                    best_solution = Some(solution);
                    if l == 0 {
                        break;
                    }
                    self.max_moves = l - 1;
                }
                None => {
                    proof {
                        if proper_coloring(g) {
                            assert(apply_moves(g, start_bits(self.start_spec()),
                                Seq::<usize>::empty()) == start_bits(self.start_spec()));
                            assert(no_extension_completes(g, initial_flooded@, 0,
                                self.max_moves_spec()));
                        }
                    }
                    break;
                }
            }
        }

        proof {
            if proper_coloring(g) && best_solution is None {
                assert forall|e: Seq<usize>|
                    !is_full(g, #[trigger] apply_moves(g,
                        start_bits(old(self).start_spec()), e)) by {
                    if is_full(g, apply_moves(g, start_bits(old(self).start_spec()), e)) {
                        lemma_cover_within_node_count(g, old(self).start_spec(), e);
                        let e2 = choose|e2: Seq<usize>| e2.len() <= g.node_count_spec()
                            && is_full(g, #[trigger] apply_moves(g,
                                start_bits(old(self).start_spec()), e2));
                        assert(!is_full(g, apply_moves(g,
                            start_bits(old(self).start_spec()), e2)));
                    }
                }
            }
        }
        match best_solution {
            Some(s) => Ok(s),
            None => Err(SolveError::NoSolution),
        }
    }
}

} // verus!
